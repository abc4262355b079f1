//! DNS wire format: query construction and response header parsing.
use vstd::prelude::*;
use vstd::string::*;

verus! {

broadcast use vstd::string::group_string_axioms;

pub const DNS_HEADER_LEN: usize = 12;

/// The fields of a DNS response header that the resolver uses.
#[derive(Debug, Clone, Copy, PartialEq, Eq, Structural)]
pub struct ResponseHeader {
    pub id: u16,
    pub rcode: u8,
    pub answer_count: u16,
}

/// `s` without its trailing `.` bytes.
pub open spec fn trim_dots(s: Seq<u8>) -> Seq<u8>
    decreases s.len(),
{
    if s.len() > 0 && s[s.len() - 1] == 46u8 {
        trim_dots(s.drop_last())
    } else {
        s
    }
}

/// Index of the first `.` byte in `s` at or after `i`, or `s.len()`.
pub open spec fn find_dot(s: Seq<u8>, i: int) -> int
    decreases s.len() - i,
{
    if i >= s.len() {
        s.len() as int
    } else if s[i] == 46u8 {
        i
    } else {
        find_dot(s, i + 1)
    }
}

pub proof fn lemma_find_dot_bounds(s: Seq<u8>, i: int)
    requires
        0 <= i <= s.len(),
    ensures
        i <= find_dot(s, i) <= s.len(),
        find_dot(s, i) < s.len() ==> s[find_dot(s, i)] == 46u8,
        forall|j: int| i <= j < find_dot(s, i) ==> s[j] != 46u8,
    decreases s.len() - i,
{
    if i < s.len() && s[i] != 46u8 {
        lemma_find_dot_bounds(s, i + 1);
    }
}

/// The `.`-separated pieces of `s` (as `str::split('.')`).
pub open spec fn split_dots(s: Seq<u8>) -> Seq<Seq<u8>>
    decreases s.len(),
{
    let i = find_dot(s, 0);
    if i >= s.len() {
        seq![s]
    } else {
        if 0 <= i {
            seq![s.take(i)] + split_dots(s.skip(i + 1))
        } else {
            seq![s]
        }
    }
}

/// The labels of a domain name given by its bytes.
pub open spec fn name_labels(name: Seq<u8>) -> Seq<Seq<u8>> {
    split_dots(trim_dots(name))
}

/// Length-prefixed encoding of `labels` starting at offset `off` in a
/// buffer of `cap` bytes: whether every label fits and is 1 to 63 bytes
/// long, and the bytes written up to the first label that does not.
pub open spec fn encode_labels(labels: Seq<Seq<u8>>, off: nat, cap: nat) -> (bool, Seq<u8>)
    decreases labels.len(),
{
    if labels.len() == 0 {
        (true, Seq::<u8>::empty())
    } else {
        let l = labels[0];
        if l.len() == 0 || l.len() > 63 || off + 1 + l.len() >= cap {
            (false, Seq::<u8>::empty())
        } else {
            let rest = encode_labels(labels.drop_first(), off + 1 + l.len(), cap);
            (rest.0, seq![l.len() as u8] + l + rest.1)
        }
    }
}

/// `old` with `w` written at offset `at`.
pub open spec fn splice(old: Seq<u8>, at: int, w: Seq<u8>) -> Seq<u8> {
    old.take(at) + w + old.skip(at + w.len())
}

/// The outcome of encoding `name` into a buffer of `cap` bytes: the
/// encoded length or `None`, and the bytes written either way.
pub open spec fn encode_name_spec(name: Seq<u8>, cap: nat) -> (Option<nat>, Seq<u8>) {
    let t = trim_dots(name);
    if t.len() == 0 {
        (None, Seq::<u8>::empty())
    } else {
        let e = encode_labels(split_dots(t), 0, cap);
        if !e.0 {
            (None, e.1)
        } else if e.1.len() >= 255 || e.1.len() >= cap {
            (None, e.1)
        } else {
            (Some(e.1.len() + 1), e.1.push(0u8))
        }
    }
}

proof fn lemma_trim_dots_prefix(s: Seq<u8>)
    ensures
        trim_dots(s).len() <= s.len(),
        trim_dots(s) == s.take(trim_dots(s).len() as int),
    decreases s.len(),
{
    if s.len() > 0 && s[s.len() - 1] == 46u8 {
        lemma_trim_dots_prefix(s.drop_last());
        assert(s.drop_last().take(trim_dots(s).len() as int) =~= s.take(trim_dots(s).len() as int));
    } else {
        assert(s.take(s.len() as int) =~= s);
    }
}

proof fn lemma_encode_labels_len(labels: Seq<Seq<u8>>, off: nat, cap: nat)
    ensures
        off + encode_labels(labels, off, cap).1.len() < cap || encode_labels(labels, off, cap).1.len() == 0,
    decreases labels.len(),
{
    if labels.len() > 0 {
        let l = labels[0];
        if !(l.len() == 0 || l.len() > 63 || off + 1 + l.len() >= cap) {
            lemma_encode_labels_len(labels.drop_first(), off + 1 + l.len(), cap);
        }
    }
}

/// Writes the labels of `name` from byte `start` of `buf`.
fn encode_name_at(name: &str, buf: &mut [u8], start: usize) -> (r: Option<usize>)
    requires
        start <= old(buf)@.len(),
    ensures
        final(buf)@.len() == old(buf)@.len(),
        ({
            let e = encode_name_spec(name.spec_bytes(), (old(buf)@.len() - start) as nat);
            &&& final(buf)@ == splice(old(buf)@, start as int, e.1)
            &&& match r {
                Some(n) => e.0 == Some(n as nat),
                None => e.0 is None,
            }
        }),
{
    let b = name.as_bytes();
    let ghost bs = b@;
    let ghost cap: nat = (buf@.len() - start) as nat;
    let mut tlen = b.len();
    proof { lemma_trim_dots_prefix(bs); }
    assert(bs.take(bs.len() as int) =~= bs);
    while tlen > 0 && b[tlen - 1] == 46u8
        invariant
            tlen <= bs.len(),
            b@ == bs,
            trim_dots(bs) == trim_dots(bs.take(tlen as int)),
        decreases tlen,
    {
        assert(bs.take(tlen as int).drop_last() =~= bs.take(tlen - 1));
        tlen = tlen - 1;
    }
    let ghost t = bs.take(tlen as int);
    assert(trim_dots(bs) == t) by {
        assert(!(t.len() > 0 && t[t.len() - 1] == 46u8));
    }
    if tlen == 0 {
        assert(buf@ =~= splice(buf@, start as int, Seq::<u8>::empty()));
        return None;
    }
    let ghost old_buf = buf@;
    let mut offset: usize = 0;
    let mut pos: usize = 0;
    let ghost mut written: Seq<u8> = Seq::empty();
    assert(t.skip(0) =~= t);
    assert(written + encode_labels(split_dots(t), 0, cap).1 =~= encode_labels(split_dots(t), 0, cap).1);
    assert(buf@ =~= splice(old_buf, start as int, written));
    loop
        invariant_except_break
            encode_labels(split_dots(t), 0, cap)
                == (encode_labels(split_dots(t.skip(pos as int)), offset as nat, cap).0,
                    written + encode_labels(split_dots(t.skip(pos as int)), offset as nat, cap).1),
        invariant
            old(buf)@ == old_buf,
            trim_dots(bs) == t,
            bs == name.spec_bytes(),
            b@ == bs,
            t == bs.take(tlen as int),
            0 < tlen <= bs.len(),
            pos <= tlen,
            start <= old_buf.len(),
            cap == old_buf.len() - start,
            buf@.len() == old_buf.len(),
            offset == written.len(),
            offset <= cap,
            buf.len() == old_buf.len(),
            buf@ == splice(old_buf, start as int, written),
        ensures
            encode_labels(split_dots(t), 0, cap) == (true, written),
        decreases tlen - pos,
    {
        let ghost rest = t.skip(pos as int);
        let ghost w0 = written;
        let ghost off0 = offset as nat;
        let mut j: usize = pos;
        while j < tlen && b[j] != 46u8
            invariant
                b@ == bs,
                pos <= j <= tlen,
                tlen <= bs.len(),
                t == bs.take(tlen as int),
                rest == t.skip(pos as int),
                find_dot(rest, 0) == find_dot(rest, j - pos),
            decreases tlen - j,
        {
            j = j + 1;
        }
        let len = j - pos;
        proof {
            lemma_find_dot_bounds(rest, 0);
        }
        assert(find_dot(rest, 0) == len);
        let ghost label = rest.take(len as int);
        assert(split_dots(rest)[0] =~= label) by {
            if len < rest.len() {
            } else {
                assert(rest.take(len as int) =~= rest);
            }
        }
        let room = buf.len() - start - offset;
        if len == 0 || len > 63 || 1 + len >= room {
            assert(encode_labels(split_dots(rest), off0, cap) == (false, Seq::<u8>::empty()));
            assert(written + Seq::<u8>::empty() =~= written);
            assert(encode_name_spec(bs, cap) == (None::<nat>, written));
            return None;
        }
        buf[start + offset] = len as u8;
        let mut k: usize = 0;
        while k < len
            invariant
                b@ == bs,
                t == bs.take(tlen as int),
                rest == t.skip(pos as int),
                pos + len <= tlen <= bs.len(),
                label == rest.take(len as int),
                start + offset + 1 + len < old_buf.len(),
                buf@.len() == old_buf.len(),
                buf.len() == old_buf.len(),
                offset == written.len(),
                k <= len,
                buf@ == splice(old_buf, start as int, written + seq![len as u8] + label.take(k as int)),
            decreases len - k,
        {
            buf[start + offset + 1 + k] = b[pos + k];
            proof {
                assert(label.take(k + 1) =~= label.take(k as int).push(b@[pos + k]));
            }
            assert(buf@ =~= splice(old_buf, start as int, written + seq![len as u8] + label.take(k + 1)));
            k = k + 1;
        }
        assert(label.take(len as int) =~= label);
        proof {
            written = written + seq![len as u8] + label;
            lemma_encode_labels_len(split_dots(rest), offset as nat, cap);
        }
        offset = offset + 1 + len;
        if j == tlen {
            assert(split_dots(rest) =~= seq![rest]);
            assert(rest =~= label);
            assert(split_dots(rest).drop_first() =~= Seq::<Seq<u8>>::empty());
            assert(encode_labels(split_dots(rest).drop_first(), (off0 + 1 + len) as nat, cap)
                == (true, Seq::<u8>::empty()));
            assert(encode_labels(split_dots(rest), off0, cap)
                == (true, seq![len as u8] + label + Seq::<u8>::empty()));
            assert(seq![len as u8] + label + Seq::<u8>::empty() =~= seq![len as u8] + label);
            break;
        }
        assert(split_dots(rest) =~= seq![label] + split_dots(rest.skip(len + 1)));
        assert(rest.skip(len + 1) =~= t.skip(j + 1));
        let ghost nx = split_dots(t.skip(j + 1));
        assert(split_dots(rest).drop_first() =~= nx);
        let ghost ex = encode_labels(nx, offset as nat, cap);
        assert(encode_labels(split_dots(rest), off0, cap) == (ex.0, seq![len as u8] + label + ex.1));
        assert(w0 + (seq![len as u8] + label + ex.1) =~= written + ex.1);
        pos = j + 1;
    }
    if offset >= 255 || offset >= buf.len() - start {
        return None;
    }
    buf[start + offset] = 0;
    assert(buf@ =~= splice(old_buf, start as int, written.push(0u8)));
    Some(offset + 1)
}

/// Writes `name` in DNS wire format (length-prefixed labels and a final
/// zero byte) at the start of `buf`, and returns the number of bytes written.
pub fn encode_name(name: &str, buf: &mut [u8]) -> (r: Option<usize>)
    ensures
        final(buf)@.len() == old(buf)@.len(),
        ({
            let e = encode_name_spec(name.spec_bytes(), old(buf)@.len());
            &&& final(buf)@ == splice(old(buf)@, 0, e.1)
            &&& match r {
                Some(n) => e.0 == Some(n as nat),
                None => e.0 is None,
            }
        }),
{
    encode_name_at(name, buf, 0)
}


/// Big-endian bytes of a 16-bit value.
pub open spec fn be16(x: u16) -> Seq<u8> {
    seq![(x / 256) as u8, (x % 256) as u8]
}

/// The fixed part of a query header: `id`, flags `0x0100` (recursion
/// desired), one question, no answer, authority or additional records.
pub open spec fn query_header(id: u16) -> Seq<u8> {
    be16(id) + seq![1u8, 0u8, 0u8, 1u8, 0u8, 0u8, 0u8, 0u8, 0u8, 0u8]
}

/// The outcome of building a query into `old`: its length or `None`, and
/// the buffer contents afterwards.
pub open spec fn build_query_spec(old: Seq<u8>, id: u16, name: Seq<u8>, qtype: u16) -> (Option<nat>, Seq<u8>) {
    if old.len() < DNS_HEADER_LEN + 5 {
        (None, old)
    } else {
        let e = encode_name_spec(name, (old.len() - DNS_HEADER_LEN) as nat);
        let named = splice(old, DNS_HEADER_LEN as int, e.1);
        match e.0 {
            None => (None, named),
            Some(n) => {
                let after = DNS_HEADER_LEN + n;
                if after + 4 > old.len() {
                    (None, named)
                } else {
                    (
                        Some((after + 4) as nat),
                        splice(splice(named, 0, query_header(id)), after as int, be16(qtype) + be16(1)),
                    )
                }
            },
        }
    }
}

fn put_be16(buf: &mut [u8], at: usize, x: u16)
    requires
        at + 2 <= old(buf)@.len(),
    ensures
        final(buf)@ == splice(old(buf)@, at as int, be16(x)),
{
    let hi: u8 = (x >> 8u16) as u8;
    let lo: u8 = (x & 0xffu16) as u8;
    assert(hi == (x / 256) as u8 && lo == (x % 256) as u8) by (bit_vector)
        requires
            hi == (x >> 8u16) as u8,
            lo == (x & 0xffu16) as u8,
    ;
    buf[at] = hi;
    buf[at + 1] = lo;
    assert(buf@ =~= splice(old(buf)@, at as int, be16(x)));
}

/// Builds a DNS query for `name` with type `qtype` and transaction `id` in
/// `buf`, and returns the packet length.
pub fn build_query(buf: &mut [u8], id: u16, name: &str, qtype: u16) -> (r: Option<usize>)
    ensures
        ({
            let q = build_query_spec(old(buf)@, id, name.spec_bytes(), qtype);
            &&& final(buf)@ == q.1
            &&& match r {
                Some(n) => q.0 == Some(n as nat),
                None => q.0 is None,
            }
        }),
{
    if buf.len() < DNS_HEADER_LEN + 5 {
        return None;
    }
    let name_len = match encode_name_at(name, buf, DNS_HEADER_LEN) {
        Some(n) => n,
        None => { return None; },
    };
    let ghost named = buf@;
    let after_name = DNS_HEADER_LEN + name_len;
    if after_name > buf.len() || buf.len() - after_name < 4 {
        return None;
    }
    put_be16(buf, 0, id);
    put_be16(buf, 2, 0x0100u16);
    put_be16(buf, 4, 1u16);
    put_be16(buf, 6, 0u16);
    put_be16(buf, 8, 0u16);
    put_be16(buf, 10, 0u16);
    assert(be16(0x0100u16) =~= seq![1u8, 0u8]);
    assert(be16(1u16) =~= seq![0u8, 1u8]);
    assert(be16(0u16) =~= seq![0u8, 0u8]);
    assert(buf@ =~= splice(named, 0, query_header(id)));
    let ghost headed = buf@;
    put_be16(buf, after_name, qtype);
    put_be16(buf, after_name + 2, 1u16);
    assert(buf@ =~= splice(headed, after_name as int, be16(qtype) + be16(1)));
    Some(after_name + 4)
}

/// The header of a DNS response, or `None` when `buf` is too short or is
/// not a response (QR bit clear).
pub open spec fn parse_header_spec(buf: Seq<u8>) -> Option<ResponseHeader> {
    if buf.len() < DNS_HEADER_LEN || (buf[2] & 0x80u8) == 0 {
        None
    } else {
        Some(ResponseHeader {
            id: (buf[0] as int * 256 + buf[1] as int) as u16,
            rcode: buf[3] & 0x0fu8,
            answer_count: (buf[6] as int * 256 + buf[7] as int) as u16,
        })
    }
}

fn read_be16(hi: u8, lo: u8) -> (x: u16)
    ensures
        x == (hi as int * 256 + lo as int) as u16,
        x as int == hi as int * 256 + lo as int,
{
    let x: u16 = ((hi as u16) << 8u16) | (lo as u16);
    assert(x as int == hi as int * 256 + lo as int) by (bit_vector)
        requires
            x == ((hi as u16) << 8u16) | (lo as u16),
    ;
    x
}

/// Reads the transaction id, response code and answer count of a DNS response.
pub fn parse_response_header(buf: &[u8]) -> (r: Option<ResponseHeader>)
    ensures
        r == parse_header_spec(buf@),
{
    if buf.len() < DNS_HEADER_LEN || (buf[2] & 0x80u8) == 0 {
        return None;
    }
    Some(ResponseHeader {
        id: read_be16(buf[0], buf[1]),
        rcode: buf[3] & 0x0fu8,
        answer_count: read_be16(buf[6], buf[7]),
    })
}

/// Reads length-prefixed labels up to and including a final zero byte.
pub open spec fn decode_labels(w: Seq<u8>) -> Option<Seq<Seq<u8>>>
    decreases w.len(),
{
    if w.len() == 0 {
        None
    } else if w[0] == 0 {
        if w.len() == 1 { Some(Seq::<Seq<u8>>::empty()) } else { None }
    } else if 1 + w[0] > w.len() {
        None
    } else {
        match decode_labels(w.skip(1 + w[0])) {
            Some(rest) => Some(seq![w.subrange(1, 1 + w[0])] + rest),
            None => None,
        }
    }
}

proof fn lemma_decode_encoded_labels(labels: Seq<Seq<u8>>, off: nat, cap: nat)
    requires
        encode_labels(labels, off, cap).0,
    ensures
        decode_labels(encode_labels(labels, off, cap).1.push(0u8)) == Some(labels),
    decreases labels.len(),
{
    let w = encode_labels(labels, off, cap).1;
    if labels.len() == 0 {
        assert(w.push(0u8) =~= seq![0u8]);
        assert(labels =~= Seq::<Seq<u8>>::empty());
    } else {
        let l = labels[0];
        let next = encode_labels(labels.drop_first(), off + 1 + l.len(), cap);
        lemma_decode_encoded_labels(labels.drop_first(), off + 1 + l.len(), cap);
        let full = w.push(0u8);
        assert(full =~= seq![l.len() as u8] + l + next.1.push(0u8));
        assert(full[0] == l.len() as u8);
        assert(full.skip(1 + l.len() as int) =~= next.1.push(0u8));
        assert(full.subrange(1, 1 + l.len() as int) =~= l);
        assert(seq![l] + labels.drop_first() =~= labels);
    }
}

/// A successfully encoded name reads back as its labels.
pub proof fn lemma_encode_name_decodes(name: Seq<u8>, cap: nat)
    requires
        encode_name_spec(name, cap).0 is Some,
    ensures
        decode_labels(encode_name_spec(name, cap).1) == Some(name_labels(name)),
{
    lemma_decode_encoded_labels(split_dots(trim_dots(name)), 0, cap);
}

/// A query built by [`build_query`] is never read as a response: its QR bit is clear.
pub proof fn lemma_query_is_not_response(old: Seq<u8>, id: u16, name: Seq<u8>, qtype: u16)
    requires
        build_query_spec(old, id, name, qtype).0 is Some,
    ensures
        ({
            let q = build_query_spec(old, id, name, qtype);
            parse_header_spec(q.1.take(q.0->0 as int)) is None
        }),
{
    let q = build_query_spec(old, id, name, qtype);
    let e = encode_name_spec(name, (old.len() - DNS_HEADER_LEN) as nat);
    let named = splice(old, DNS_HEADER_LEN as int, e.1);
    let n = e.0->0;
    let after = DNS_HEADER_LEN + n;
    let headed = splice(named, 0, query_header(id));
    assert(headed[2] == 1u8);
    assert(q.1[2] == headed[2]);
    assert((1u8 & 0x80u8) == 0) by (bit_vector);
}

} // verus!
