//! A timing wheel of transaction ids: each bucket holds the ids whose
//! timeout falls in one slice of time, and the wheel turns as time passes.
use vstd::prelude::*;

verus! {

/// Buckets of ids around a wheel, the current bucket, and the time (in
/// milliseconds of a monotonic clock) of the last turn.
#[derive(Debug)]
pub struct TimingWheel {
    buckets: Vec<Vec<u16>>,
    bucket_count: usize,
    resolution_ms: u64,
    current_bucket: usize,
    last_advance_ms: u64,
}

pub struct WheelView {
    pub buckets: Seq<Seq<u16>>,
    pub resolution_ms: u64,
    pub current: int,
    pub last_advance_ms: u64,
}

/// The bucket `k` places after `cur` on a wheel of `n` buckets.
pub open spec fn bucket_after(cur: int, k: int, n: int) -> int {
    (cur + k) % n
}

/// The ids that turning the wheel `steps` places from `cur` hands out, in
/// order: the contents of each bucket passed.
pub open spec fn passed_ids(buckets: Seq<Seq<u16>>, cur: int, steps: int) -> Seq<u16>
    decreases steps,
{
    if steps <= 0 {
        Seq::empty()
    } else {
        passed_ids(buckets, cur, steps - 1) + buckets[bucket_after(cur, steps, buckets.len() as int)]
    }
}

/// Rounding-up division.
pub open spec fn div_ceil_spec(a: int, b: int) -> int {
    (a + b - 1) / b
}

/// The buckets after the ones `1..=steps` places past `cur` were emptied.
pub open spec fn cleared(buckets: Seq<Seq<u16>>, cur: int, steps: int) -> Seq<Seq<u16>>
    decreases steps,
{
    if steps <= 0 {
        buckets
    } else {
        cleared(buckets, cur, steps - 1).update(bucket_after(cur, steps, buckets.len() as int), Seq::empty())
    }
}

proof fn lemma_mod_step(a: int, n: int)
    requires
        n > 0,
        a >= 0,
    ensures
        (a + 1) % n == if a % n + 1 == n { 0 } else { a % n + 1 },
        0 <= a % n < n,
{
    vstd::arithmetic::div_mod::lemma_fundamental_div_mod(a, n);
    let q = a / n;
    let r = a % n;
    assert(0 <= r < n) by {
        vstd::arithmetic::div_mod::lemma_mod_bound(a, n);
    }
    if r + 1 == n {
        assert(a + 1 == (q + 1) * n + 0) by (nonlinear_arith)
            requires a == n * q + r, r + 1 == n;
        vstd::arithmetic::div_mod::lemma_fundamental_div_mod_converse(a + 1, n, q + 1, 0);
    } else {
        assert(a + 1 == q * n + (r + 1)) by (nonlinear_arith)
            requires a == n * q + r;
        vstd::arithmetic::div_mod::lemma_fundamental_div_mod_converse(a + 1, n, q, r + 1);
    }
}

proof fn lemma_buckets_distinct(c: int, i: int, j: int, n: int)
    requires
        n > 0,
        c >= 0,
        0 <= i < j,
        j - i < n,
    ensures
        bucket_after(c, i, n) != bucket_after(c, j, n),
{
    let a = c + i;
    let b = c + j;
    vstd::arithmetic::div_mod::lemma_fundamental_div_mod(a, n);
    vstd::arithmetic::div_mod::lemma_fundamental_div_mod(b, n);
    if a % n == b % n {
        let qa = a / n;
        let qb = b / n;
        assert(n * (qb - qa) == j - i) by (nonlinear_arith)
            requires a == n * qa + a % n, b == n * qb + b % n, a % n == b % n, b - a == j - i;
        assert(false) by (nonlinear_arith)
            requires n * (qb - qa) == j - i, 0 < j - i < n, n > 0;
    }
}

proof fn lemma_cleared_keeps(buckets: Seq<Seq<u16>>, c: int, k: int, j: int)
    requires
        buckets.len() > 0,
        0 <= c,
        0 <= k < j,
        j - 1 < buckets.len(),
    ensures
        cleared(buckets, c, k)[bucket_after(c, j, buckets.len() as int)] == buckets[bucket_after(c, j, buckets.len() as int)],
        cleared(buckets, c, k).len() == buckets.len(),
    decreases k,
{
    let n = buckets.len() as int;
    vstd::arithmetic::div_mod::lemma_mod_bound(c + j, n);
    if k > 0 {
        lemma_cleared_keeps(buckets, c, k - 1, j);
        lemma_buckets_distinct(c, k, j, n);
        vstd::arithmetic::div_mod::lemma_mod_bound(c + k, n);
    }
}

/// The wheel after filing `id` to time out `delay_ms` from the current
/// bucket: that many buckets ahead, rounded up and at least one, and at
/// most one turn less a bucket.
pub open spec fn wheel_insert_spec(w: WheelView, id: u16, delay_ms: u64) -> WheelView {
    let n = w.buckets.len() as int;
    let d = if delay_ms == 0 { 1int } else { delay_ms as int };
    let steps = div_ceil_spec(d, w.resolution_ms as int);
    let b = bucket_after(w.current, if steps < n - 1 { steps } else { n - 1 }, n);
    WheelView { buckets: w.buckets.update(b, w.buckets[b].push(id)), ..w }
}

/// The number of buckets the wheel turns at `now_ms`: the whole buckets
/// passed since the last turn, at most one full turn.
pub open spec fn wheel_steps(w: WheelView, now_ms: u64) -> int {
    let n = w.buckets.len() as int;
    let elapsed = if now_ms >= w.last_advance_ms { now_ms - w.last_advance_ms } else { 0int };
    let q = elapsed / (w.resolution_ms as int);
    if q < n { q } else { n }
}

/// The wheel after turning at `now_ms`, and the ids handed out in order.
pub open spec fn wheel_advance_spec(w: WheelView, now_ms: u64) -> (WheelView, Seq<u16>) {
    let steps = wheel_steps(w, now_ms);
    if steps == 0 {
        (w, Seq::empty())
    } else {
        (
            WheelView {
                buckets: cleared(w.buckets, w.current, steps),
                resolution_ms: w.resolution_ms,
                current: bucket_after(w.current, steps, w.buckets.len() as int),
                last_advance_ms: now_ms,
            },
            passed_ids(w.buckets, w.current, steps),
        )
    }
}

impl View for TimingWheel {
    type V = WheelView;

    closed spec fn view(&self) -> WheelView {
        WheelView {
            buckets: self.buckets@.map_values(|b: Vec<u16>| b@),
            resolution_ms: self.resolution_ms,
            current: self.current_bucket as int,
            last_advance_ms: self.last_advance_ms,
        }
    }
}

impl TimingWheel {
    pub closed spec fn wf(&self) -> bool {
        &&& self.bucket_count >= 1
        &&& self.buckets@.len() == self.bucket_count
        &&& self.current_bucket < self.bucket_count
        &&& self.resolution_ms >= 1
    }

    /// An empty wheel of at least one bucket, each covering at least one
    /// millisecond, started at `now_ms`.
    pub fn new(bucket_count: usize, resolution_ms: u64, now_ms: u64) -> (w: Self)
        ensures
            w.wf(),
            w@.buckets == Seq::new(if bucket_count == 0 { 1nat } else { bucket_count as nat }, |i: int| Seq::<u16>::empty()),
            w@.resolution_ms == if resolution_ms == 0 { 1 } else { resolution_ms },
            w@.current == 0,
            w@.last_advance_ms == now_ms,
    {
        let count: usize = if bucket_count == 0 { 1 } else { bucket_count };
        let mut buckets: Vec<Vec<u16>> = Vec::new();
        let mut i: usize = 0;
        while i < count
            invariant
                i <= count,
                buckets@.len() == i,
                forall|j: int| 0 <= j < i ==> (#[trigger] buckets@[j])@ == Seq::<u16>::empty(),
            decreases count - i,
        {
            buckets.push(Vec::new());
            i = i + 1;
        }
        let w = TimingWheel {
            buckets,
            bucket_count: count,
            resolution_ms: if resolution_ms == 0 { 1 } else { resolution_ms },
            current_bucket: 0,
            last_advance_ms: now_ms,
        };
        assert(w@.buckets =~= Seq::new(count as nat, |i: int| Seq::<u16>::empty()));
        w
    }

    /// The number of buckets.
    pub open spec fn size(&self) -> nat {
        self@.buckets.len()
    }

    /// Files `id` to time out `delay_ms` from the current bucket: that many
    /// buckets ahead, rounded up and at least one, and at most one turn
    /// less a bucket.
    pub fn insert(&mut self, id: u16, delay_ms: u64)
        requires
            old(self).wf(),
        ensures
            final(self).wf(),
            final(self)@ == wheel_insert_spec(old(self)@, id, delay_ms),
    {
        let d: u64 = if delay_ms == 0 { 1 } else { delay_ms };
        let r = self.resolution_ms;
        let q: u64 = d / r;
        let rem: u64 = d % r;
        proof {
            let ri = r as int;
            let dd = d as int;
            assert(dd == ri * (q as int) + (rem as int) && 0 <= rem < ri) by (nonlinear_arith)
                requires
                    ri >= 1,
                    q as int == dd / ri,
                    rem as int == dd % ri,
            ;
            if rem != 0 {
                assert(q < u64::MAX) by (nonlinear_arith)
                    requires
                        ri >= 2,
                        dd == ri * (q as int) + (rem as int),
                        dd <= u64::MAX,
                        rem >= 1,
                ;
            }
        }
        let steps: u64 = if rem == 0 { q } else { q + 1 };
        proof {
            let ri = r as int;
            let dd = d as int;
            assert(steps as int == div_ceil_spec(dd, ri)) by (nonlinear_arith)
                requires
                    ri >= 1,
                    dd == ri * (q as int) + (rem as int),
                    0 <= rem < ri,
                    steps as int == q + if rem == 0 { 0int } else { 1int },
            ;
        }
        let count = self.bucket_count;
        let cur = self.current_bucket;
        let limit: u64 = (count - 1) as u64;
        let ahead: usize = if steps < limit { steps as usize } else { count - 1 };
        let b: usize = if ahead >= count - cur { ahead - (count - cur) } else { cur + ahead };
        proof {
            let n = count as int;
            if ahead >= count - cur {
                vstd::arithmetic::div_mod::lemma_fundamental_div_mod_converse(cur + ahead, n, 1, b as int);
            } else {
                vstd::arithmetic::div_mod::lemma_fundamental_div_mod_converse(cur + ahead, n, 0, b as int);
            }
        }
        let ghost before = self.buckets@;
        let mut bucket: Vec<u16> = Vec::new();
        std::mem::swap(&mut bucket, &mut self.buckets[b]);
        bucket.push(id);
        self.buckets.set(b, bucket);
        assert(self@.buckets =~= old(self)@.buckets.update(b as int, old(self)@.buckets[b as int].push(id)));
    }

    /// Turns the wheel by the number of whole buckets that have passed since
    /// the last turn (at most one full turn) and appends the ids of every
    /// bucket passed, emptying them. A call before a bucket has passed does
    /// nothing.
    pub fn advance_into(&mut self, now_ms: u64, out: &mut Vec<u16>)
        requires
            old(self).wf(),
        ensures
            final(self).wf(),
            final(self)@ == wheel_advance_spec(old(self)@, now_ms).0,
            final(out)@ == old(out)@ + wheel_advance_spec(old(self)@, now_ms).1,
    {
        let elapsed: u64 = if now_ms >= self.last_advance_ms { now_ms - self.last_advance_ms } else { 0 };
        let q: u64 = elapsed / self.resolution_ms;
        let steps: usize = if q < self.bucket_count as u64 { q as usize } else { self.bucket_count };
        if steps == 0 {
            assert(old(out)@ + Seq::<u16>::empty() =~= old(out)@);
            return;
        }
        let ghost b0 = self@.buckets;
        let ghost c0 = self@.current;
        let ghost n = b0.len() as int;
        let mut k: usize = 0;
        proof {
            vstd::arithmetic::div_mod::lemma_small_mod(c0 as nat, n as nat);
        }
        while k < steps
            invariant
                self.wf(),
                n == self.bucket_count,
                n == b0.len(),
                0 <= c0 < n,
                steps <= n,
                k <= steps,
                self.resolution_ms == old(self).resolution_ms,
                self.last_advance_ms == old(self).last_advance_ms,
                self.current_bucket == bucket_after(c0, k as int, n),
                out@ == old(out)@ + passed_ids(b0, c0, k as int),
                self@.buckets == cleared(b0, c0, k as int),
            decreases steps - k,
        {
            let next: usize = if self.current_bucket + 1 == self.bucket_count { 0 } else { self.current_bucket + 1 };
            proof {
                lemma_mod_step(c0 + k, n);
                lemma_cleared_keeps(b0, c0, k as int, k + 1);
            }
            self.current_bucket = next;
            let ghost before = self@.buckets;
            let mut taken: Vec<u16> = Vec::new();
            std::mem::swap(&mut taken, &mut self.buckets[next]);
            proof {
                assert(taken@ == b0[next as int]);
                assert(self@.buckets =~= before.update(next as int, Seq::<u16>::empty()));
            }
            out.append(&mut taken);
            k = k + 1;
        }
        self.last_advance_ms = now_ms;
    }
}

} // verus!
