use vstd::prelude::*;
use vstd::seq_lib::group_to_multiset_ensures;
use crate::address::DocAddress;

verus! {

/// Sign bit of an IEEE-754 single-precision bit pattern.
pub const SIGN_BIT: u32 = 0x8000_0000;

/// Maps the bit pattern of a score to an unsigned key whose order is the
/// order of the scores themselves (NaN aside): negative patterns are
/// inverted, non-negative ones get the sign bit set.
pub open spec fn score_key(bits: u32) -> u32 {
    if bits & SIGN_BIT != 0 {
        !bits
    } else {
        bits | SIGN_BIT
    }
}

/// One ranked match: the bit pattern of its relevance score and its address.
#[derive(Clone, Copy, Debug, PartialEq, Eq, Structural)]
pub struct Hit {
    pub score_bits: u32,
    pub address: DocAddress,
}

/// `a` may stand before `b` in a ranked list: higher score first, then
/// lower segment ordinal, then lower segment-local document id.
pub open spec fn hit_le(a: Hit, b: Hit) -> bool {
    let ka = score_key(a.score_bits);
    let kb = score_key(b.score_bits);
    ka > kb || (ka == kb && (a.address.segment_ord < b.address.segment_ord || (
    a.address.segment_ord == b.address.segment_ord && a.address.doc <= b.address.doc)))
}

/// Every hit of `s` may stand before every later one.
pub open spec fn hits_ordered(s: Seq<Hit>) -> bool {
    forall|i: int, j: int| 0 <= i < j < s.len() ==> hit_le(#[trigger] s[i], #[trigger] s[j])
}

/// No two hits of `s` share an address.
pub open spec fn addresses_distinct(s: Seq<Hit>) -> bool {
    forall|i: int, j: int| 0 <= i < j < s.len() ==> (#[trigger] s[i]).address != (#[trigger] s[j]).address
}

/// Of two hits with different addresses, the first strictly precedes the
/// second: higher score, or equal score and lower (segment, doc) pair.
pub open spec fn hit_lt(a: Hit, b: Hit) -> bool {
    hit_le(a, b) && a.address != b.address
}

impl Hit {
    pub fn new(score_bits: u32, segment_ord: u32, doc: u32) -> (r: Hit)
        ensures
            r.score_bits == score_bits,
            r.address.segment_ord == segment_ord,
            r.address.doc == doc,
    {
        Hit { score_bits, address: DocAddress::new(segment_ord, doc) }
    }
}

/// The order key of a score's bit pattern.
pub fn score_order_key(bits: u32) -> (r: u32)
    ensures
        r == score_key(bits),
{
    if bits & SIGN_BIT != 0 {
        !bits
    } else {
        bits | SIGN_BIT
    }
}

/// Whether `a` may stand before `b`.
pub fn precedes(a: &Hit, b: &Hit) -> (r: bool)
    ensures
        r == hit_le(*a, *b),
{
    let ka = score_order_key(a.score_bits);
    let kb = score_order_key(b.score_bits);
    if ka != kb {
        ka > kb
    } else if a.address.segment_ord != b.address.segment_ord {
        a.address.segment_ord < b.address.segment_ord
    } else {
        a.address.doc <= b.address.doc
    }
}

proof fn lemma_hit_le_total(a: Hit, b: Hit)
    ensures
        hit_le(a, b) || hit_le(b, a),
{
}

proof fn lemma_hit_le_transitive(a: Hit, b: Hit, c: Hit)
    requires
        hit_le(a, b),
        hit_le(b, c),
    ensures
        hit_le(a, c),
{
}

/// Puts hits in ranked order: descending score, then ascending segment
/// ordinal, then ascending segment-local document id. The result holds
/// exactly the given hits.
pub fn order_hits(hits: Vec<Hit>) -> (r: Vec<Hit>)
    ensures
        hits_ordered(r@),
        r@.to_multiset() == hits@.to_multiset(),
        r@.len() == hits@.len(),
        forall|k: int| 0 <= k < r@.len() ==> hits@.contains(#[trigger] r@[k]),
        addresses_distinct(hits@) ==> addresses_distinct(r@),
{
    broadcast use group_to_multiset_ensures;

    let mut out: Vec<Hit> = Vec::new();
    let mut i: usize = 0;
    while i < hits.len()
        invariant
            i <= hits.len(),
            hits_ordered(out@),
            out@.to_multiset() == hits@.subrange(0, i as int).to_multiset(),
            out@.len() == i,
            forall|k: int| 0 <= k < out@.len() ==> exists|j: int| 0 <= j < i && hits@[j] == #[trigger] out@[k],
            addresses_distinct(hits@) ==> addresses_distinct(out@),
        decreases hits.len() - i,
    {
        let h = hits[i];
        let mut pos: usize = 0;
        while pos < out.len() && precedes(&out[pos], &h)
            invariant
                pos <= out.len(),
                forall|k: int| 0 <= k < pos ==> hit_le(#[trigger] out@[k], h),
            decreases out.len() - pos,
        {
            pos = pos + 1;
        }
        proof {
            assert forall|k: int| pos <= k < out@.len() implies hit_le(h, #[trigger] out@[k]) by {
                lemma_hit_le_total(out@[pos as int], h);
                if k > pos {
                    lemma_hit_le_transitive(h, out@[pos as int], out@[k]);
                }
            }
        }
        let ghost before = out@;
        out.insert(pos, h);
        proof {
            assert(out@ == before.insert(pos as int, h));
            assert forall|a: int, b: int| 0 <= a < b < out@.len() implies hit_le(
                #[trigger] out@[a],
                #[trigger] out@[b],
            ) by {
                if a < pos && b == pos {
                } else if a < pos && b > pos {
                    assert(out@[b] == before[b - 1]);
                } else if a == pos {
                    assert(out@[b] == before[b - 1]);
                } else if a > pos {
                    assert(out@[a] == before[a - 1]);
                    assert(out@[b] == before[b - 1]);
                }
            }
            assert(hits@.subrange(0, i + 1) == hits@.subrange(0, i as int).push(h));
            vstd::seq_lib::to_multiset_insert(before, pos as int, h);
            vstd::seq_lib::to_multiset_build(hits@.subrange(0, i as int), h);
            assert forall|k: int| 0 <= k < out@.len() implies exists|j: int| 0 <= j < i + 1 && hits@[j] == #[trigger] out@[k] by {
                if k < pos {
                    assert(out@[k] == before[k]);
                } else if k > pos {
                    assert(out@[k] == before[k - 1]);
                } else {
                    assert(hits@[i as int] == out@[k]);
                }
            }
            if addresses_distinct(hits@) {
                assert forall|a: int, b: int| 0 <= a < b < out@.len() implies (#[trigger] out@[a]).address != (#[trigger] out@[b]).address by {
                    let ia = if a < pos { a } else if a == pos { -1 } else { a - 1 };
                    let ib = if b < pos { b } else if b == pos { -1 } else { b - 1 };
                    if a == pos {
                        let jb = choose|j: int| 0 <= j < i && hits@[j] == #[trigger] before[ib];
                        assert(out@[b] == before[ib]);
                    } else if b == pos {
                        let ja = choose|j: int| 0 <= j < i && hits@[j] == #[trigger] before[ia];
                        assert(out@[a] == before[ia]);
                    } else {
                        assert(out@[a] == before[ia] && out@[b] == before[ib]);
                    }
                }
            }
        }
        i = i + 1;
    }
    assert(hits@.subrange(0, hits@.len() as int) == hits@);
    assert forall|k: int| 0 <= k < out@.len() implies hits@.contains(#[trigger] out@[k]) by {
        let j = choose|j: int| 0 <= j < hits@.len() && hits@[j] == out@[k];
    }
    out
}

proof fn lemma_score_key_injective(a: u32, b: u32)
    requires
        score_key(a) == score_key(b),
    ensures
        a == b,
{
    assert(((if a & 0x8000_0000u32 != 0 { !a } else { a | 0x8000_0000u32 }) == (if b & 0x8000_0000u32
        != 0 { !b } else { b | 0x8000_0000u32 })) ==> a == b) by (bit_vector);
}

proof fn lemma_hit_le_antisymmetric(x: Hit, y: Hit)
    requires
        hit_le(x, y),
        hit_le(y, x),
    ensures
        x == y,
{
    lemma_score_key_injective(x.score_bits, y.score_bits);
    assert(x.address == y.address);
}

/// In a ranked list whose addresses are distinct, hits of equal score
/// stand in strictly increasing (segment, doc) order.
pub proof fn lemma_ranked_ties_strict(s: Seq<Hit>, i: int, j: int)
    requires
        hits_ordered(s),
        addresses_distinct(s),
        0 <= i < j < s.len(),
    ensures
        hit_lt(s[i], s[j]),
        s[i].score_bits == s[j].score_bits ==> (s[i].address.segment_ord < s[j].address.segment_ord || (
        s[i].address.segment_ord == s[j].address.segment_ord && s[i].address.doc < s[j].address.doc)),
{
    if s[i].score_bits == s[j].score_bits {
        assert(s[i].address != s[j].address);
    }
}

/// The ranked order is a total order on hits: two ranked lists that hold
/// the same hits are the same list. So ranking the same hits twice gives
/// the same list, ties included.
pub proof fn lemma_ranked_order_unique(a: Seq<Hit>, b: Seq<Hit>)
    requires
        hits_ordered(a),
        hits_ordered(b),
        a.to_multiset() == b.to_multiset(),
    ensures
        a == b,
    decreases a.len(),
{
    broadcast use group_to_multiset_ensures;

    vstd::seq_lib::to_multiset_len(a);
    vstd::seq_lib::to_multiset_len(b);
    if a.len() == 0 {
        assert(a =~= b);
    } else {
        assert(a.to_multiset().count(a[0]) > 0);
        assert(b.contains(a[0]));
        let j = choose|j: int| 0 <= j < b.len() && b[j] == a[0];
        assert(b.to_multiset().count(b[0]) > 0);
        assert(a.contains(b[0]));
        let i = choose|i: int| 0 <= i < a.len() && a[i] == b[0];
        if i > 0 {
            assert(hit_le(a[0], a[i]));
        }
        if j > 0 {
            assert(hit_le(b[0], b[j]));
        }
        lemma_hit_le_antisymmetric(a[0], b[0]);
        vstd::seq_lib::to_multiset_remove(a, 0);
        vstd::seq_lib::to_multiset_remove(b, 0);
        assert(a.remove(0) =~= a.drop_first());
        assert(b.remove(0) =~= b.drop_first());
        let a1 = a.drop_first();
        let b1 = b.drop_first();
        assert(hits_ordered(a1)) by {
            assert forall|p: int, q: int| 0 <= p < q < a1.len() implies hit_le(#[trigger] a1[p], #[trigger] a1[q]) by {
                assert(a1[p] == a[p + 1] && a1[q] == a[q + 1]);
            }
        }
        assert(hits_ordered(b1)) by {
            assert forall|p: int, q: int| 0 <= p < q < b1.len() implies hit_le(#[trigger] b1[p], #[trigger] b1[q]) by {
                assert(b1[p] == b[p + 1] && b1[q] == b[q + 1]);
            }
        }
        lemma_ranked_order_unique(a1, b1);
        assert(a =~= b) by {
            assert forall|k: int| 0 <= k < a.len() implies a[k] == b[k] by {
                if k > 0 {
                    assert(a[k] == a1[k - 1] && b[k] == b1[k - 1]);
                }
            }
        }
    }
}

} // verus!
