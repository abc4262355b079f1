//! In-flight lookups, indexed directly by DNS transaction id.
use vstd::prelude::*;

verus! {

/// One lookup in flight: which domain, which attempt, which resolver.
#[derive(Debug, Clone, Copy, PartialEq, Eq, Structural)]
pub struct LookupSlot {
    pub domain_index: u32,
    pub attempts: u8,
    pub resolver_index: u16,
}

/// The number of transaction ids.
pub const SLAB_SIZE: usize = 65536;

/// A table from transaction id to the lookup it belongs to.
#[derive(Debug)]
pub struct LookupSlab {
    slots: Vec<Option<LookupSlot>>,
    active: usize,
}

/// The number of occupied entries.
pub open spec fn count_some(s: Seq<Option<LookupSlot>>) -> nat
    decreases s.len(),
{
    if s.len() == 0 {
        0
    } else {
        count_some(s.drop_last()) + if s.last() is Some { 1nat } else { 0nat }
    }
}

proof fn lemma_count_some_update(s: Seq<Option<LookupSlot>>, i: int, v: Option<LookupSlot>)
    requires
        0 <= i < s.len(),
    ensures
        count_some(s.update(i, v)) + (if s[i] is Some { 1int } else { 0int })
            == count_some(s) + (if v is Some { 1int } else { 0int }),
    decreases s.len(),
{
    if i < s.len() - 1 {
        lemma_count_some_update(s.drop_last(), i, v);
        assert(s.update(i, v).drop_last() =~= s.drop_last().update(i, v));
    } else {
        assert(s.update(i, v).drop_last() =~= s.drop_last());
    }
}

proof fn lemma_count_some_bounded(s: Seq<Option<LookupSlot>>)
    ensures
        count_some(s) <= s.len(),
        count_some(s) == s.len() ==> forall|j: int| 0 <= j < s.len() ==> (#[trigger] s[j]) is Some,
    decreases s.len(),
{
    if s.len() > 0 {
        lemma_count_some_bounded(s.drop_last());
        assert forall|j: int| 0 <= j < s.len() && count_some(s) == s.len() implies (#[trigger] s[j]) is Some by {
            if j < s.len() - 1 {
                assert(s[j] == s.drop_last()[j]);
            }
        }
    }
}

proof fn lemma_count_none(n: nat)
    ensures
        count_some(Seq::new(n, |i: int| None::<LookupSlot>)) == 0,
    decreases n,
{
    if n > 0 {
        lemma_count_none((n - 1) as nat);
        assert(Seq::new(n, |i: int| None::<LookupSlot>).drop_last() =~= Seq::new((n - 1) as nat, |i: int| None::<LookupSlot>));
    }
}

/// A random transaction id (`rand::random::<u16>()`); any value may come.
#[verifier::external_body]
fn random_id() -> u16 {
    rand::random::<u16>()
}

impl LookupSlab {
    /// The entry of every transaction id.
    pub closed spec fn entries(&self) -> Seq<Option<LookupSlot>> {
        self.slots@
    }

    pub closed spec fn wf(&self) -> bool {
        &&& self.slots@.len() == SLAB_SIZE
        &&& self.active == count_some(self.slots@)
    }

    /// A well-formed table has an entry for every id.
    pub proof fn lemma_entries_len(&self)
        requires
            self.wf(),
        ensures
            self.entries().len() == SLAB_SIZE,
    {
    }

    /// The number of lookups in flight.
    pub open spec fn active_spec(&self) -> nat {
        count_some(self.entries())
    }

    /// A table with every id free.
    pub fn new() -> (s: Self)
        ensures
            s.wf(),
            s.entries() == Seq::new(SLAB_SIZE as nat, |i: int| None::<LookupSlot>),
    {
        let slots: Vec<Option<LookupSlot>> = vec![None; SLAB_SIZE];
        proof {
            assert(slots@ =~= Seq::new(SLAB_SIZE as nat, |i: int| None::<LookupSlot>));
            lemma_count_none(SLAB_SIZE as nat);
        }
        LookupSlab { slots, active: 0 }
    }

    /// Stores `slot` under a free id, chosen at random among the free ones
    /// found from a random starting point, and returns the id.
    pub fn insert(&mut self, slot: LookupSlot) -> (id: u16)
        requires
            old(self).wf(),
            old(self).active_spec() < SLAB_SIZE,
        ensures
            final(self).wf(),
            old(self).entries()[id as int] is None,
            final(self).entries() == old(self).entries().update(id as int, Some(slot)),
            final(self).active_spec() == old(self).active_spec() + 1,
    {
        let start = random_id();
        let mut tried: usize = 0;
        let mut pos: usize = start as usize;
        while self.slots[pos].is_some()
            invariant
                self.wf(),
                self.entries() == old(self).entries(),
                count_some(self.entries()) < SLAB_SIZE,
                tried < SLAB_SIZE,
                pos < SLAB_SIZE,
                pos == (start as int + tried) % (SLAB_SIZE as int),
                forall|k: int| 0 <= k < tried ==> (#[trigger] self.slots@[(start as int + k) % (SLAB_SIZE as int)]) is Some,
            decreases SLAB_SIZE - tried,
        {
            proof {
                if tried + 1 == SLAB_SIZE {
                    lemma_count_some_bounded(self.slots@);
                    assert forall|j: int| 0 <= j < self.slots@.len() implies (#[trigger] self.slots@[j]) is Some by {
                        let k = (j - start as int + SLAB_SIZE as int) % (SLAB_SIZE as int);
                        assert(0 <= k < SLAB_SIZE);
                        assert((start as int + k) % (SLAB_SIZE as int) == j);
                        if k < tried {
                            assert(self.slots@[(start as int + k) % (SLAB_SIZE as int)] is Some);
                        } else {
                            assert(k == tried);
                        }
                    }
                    assert(false) by {
                        lemma_all_some_count(self.slots@);
                    }
                }
            }
            tried = tried + 1;
            pos = if pos + 1 == SLAB_SIZE { 0 } else { pos + 1 };
        }
        let id = pos as u16;
        let ghost before = self.slots@;
        self.slots.set(pos, Some(slot));
        proof {
            lemma_count_some_update(before, pos as int, Some(slot));
        }
        self.active = self.active + 1;
        id
    }

    /// The lookup stored under `id`, if any.
    pub fn get(&self, id: u16) -> (r: Option<LookupSlot>)
        requires
            self.wf(),
        ensures
            r == self.entries()[id as int],
    {
        self.slots[id as usize]
    }

    /// Frees `id` and returns what it held.
    pub fn remove(&mut self, id: u16) -> (r: Option<LookupSlot>)
        requires
            old(self).wf(),
        ensures
            final(self).wf(),
            r == old(self).entries()[id as int],
            final(self).entries() == old(self).entries().update(id as int, None),
            final(self).active_spec() == old(self).active_spec() - (if r is Some { 1int } else { 0int }),
    {
        let r = self.slots[id as usize];
        let ghost before = self.slots@;
        self.slots.set(id as usize, None);
        proof {
            lemma_count_some_update(before, id as int, None);
        }
        if r.is_some() {
            self.active = self.active - 1;
        }
        r
    }

    /// The number of lookups in flight.
    pub fn active_count(&self) -> (n: usize)
        requires
            self.wf(),
        ensures
            n == self.active_spec(),
    {
        self.active
    }
}

/// What one insertion stores is read back under its id, and removing that
/// id afterwards gives the table back as it was.
pub proof fn lemma_insert_then_remove(s: Seq<Option<LookupSlot>>, id: int, slot: LookupSlot)
    requires
        0 <= id < s.len(),
        s[id] is None,
    ensures
        s.update(id, Some(slot))[id] == Some(slot),
        s.update(id, Some(slot)).update(id, None) == s,
{
    assert(s.update(id, Some(slot)).update(id, None) =~= s);
}

proof fn lemma_all_some_count(s: Seq<Option<LookupSlot>>)
    requires
        forall|j: int| 0 <= j < s.len() ==> (#[trigger] s[j]) is Some,
    ensures
        count_some(s) == s.len(),
    decreases s.len(),
{
    if s.len() > 0 {
        assert forall|j: int| 0 <= j < s.drop_last().len() implies (#[trigger] s.drop_last()[j]) is Some by {
            assert(s.drop_last()[j] == s[j]);
        }
        lemma_all_some_count(s.drop_last());
    }
}

} // verus!
