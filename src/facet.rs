use vstd::prelude::*;
use vstd::string::StrSliceExecFns;
use tantivy::collector::FacetCounts;

verus! {

/// Separator between the steps of a facet path in tantivy's encoded form.
pub const FACET_SEP: char = '\0';

/// The encoded form of a facet given by its text (`/a/b`): the steps joined
/// by `FACET_SEP`, escapes removed; `None` where the text is not a facet.
pub uninterp spec fn facet_encoding(text: Seq<char>) -> Option<Seq<char>>;

/// The text form of a facet given by its encoded form.
pub uninterp spec fn facet_display(encoded: Seq<char>) -> Seq<char>;

/// A facet text parses exactly when it starts with `/`.
pub open spec fn is_facet_text(text: Seq<char>) -> bool {
    text.len() > 0 && text[0] == '/'
}

/// Encoded facet `a` is a strict ancestor of encoded facet `b`. The root
/// (empty encoding) is an ancestor of every other facet.
pub open spec fn is_facet_ancestor(a: Seq<char>, b: Seq<char>) -> bool {
    b.len() > a.len() && (a.len() == 0 || (a.is_prefix_of(b) && b[a.len() as int] == FACET_SEP))
}

/// One of the two encoded facets is an ancestor of the other.
pub open spec fn facets_overlap(a: Seq<char>, b: Seq<char>) -> bool {
    is_facet_ancestor(a, b) || is_facet_ancestor(b, a)
}

/// A requested facet prefix: its text as given and its encoded form.
#[derive(Clone, Debug)]
pub struct FacetPrefix {
    pub text: String,
    pub encoded: String,
}

/// One facet term in a result: its text form, its encoded form and the
/// number of matching documents counted under it.
#[derive(Clone, Debug)]
pub struct FacetEntry {
    pub path: String,
    pub encoded: String,
    pub count: u64,
}

/// One encoded facet equals, is an ancestor of, or descends from the other.
pub open spec fn facets_clash(a: Seq<char>, b: Seq<char>) -> bool {
    a == b || facets_overlap(a, b)
}

/// The encoded facet `e` clashes with none of the prefixes already kept.
pub open spec fn overlaps_none(kept: Seq<(Seq<char>, Seq<char>)>, e: Seq<char>) -> bool {
    forall|j: int| 0 <= j < kept.len() ==> !facets_clash(#[trigger] kept[j].1, e)
}

/// The prefixes kept from the first `n` requested texts, as (text, encoding)
/// pairs in request order: a text is kept when it parses and its facet is
/// neither the same as, nor an ancestor nor a descendant of, one kept
/// before it.
pub open spec fn kept_prefixes(req: Seq<Seq<char>>, n: nat) -> Seq<(Seq<char>, Seq<char>)>
    decreases n,
{
    if n == 0 || n > req.len() {
        Seq::empty()
    } else {
        let prev = kept_prefixes(req, (n - 1) as nat);
        let t = req[n - 1];
        match facet_encoding(t) {
            Some(e) => if overlaps_none(prev, e) {
                prev.push((t, e))
            } else {
                prev
            },
            None => prev,
        }
    }
}

/// Each kept prefix is one of the requested texts together with its
/// encoding.
pub proof fn lemma_kept_from_request(req: Seq<Seq<char>>, n: nat, k: int)
    requires
        n <= req.len(),
        0 <= k < kept_prefixes(req, n).len(),
    ensures
        exists|t: int|
            0 <= t < n && #[trigger] req[t] == kept_prefixes(req, n)[k].0 && facet_encoding(req[t]) == Some(
                kept_prefixes(req, n)[k].1,
            ),
    decreases n,
{
    if n > 0 {
        let prev = kept_prefixes(req, (n - 1) as nat);
        if k < prev.len() {
            lemma_kept_from_request(req, (n - 1) as nat, k);
            let t = choose|t: int|
                0 <= t < n - 1 && #[trigger] req[t] == prev[k].0 && facet_encoding(req[t]) == Some(prev[k].1);
            assert(kept_prefixes(req, n)[k] == prev[k]);
            assert(0 <= t < n && req[t] == kept_prefixes(req, n)[k].0);
        } else {
            let t = n - 1;
            assert(req[t] == kept_prefixes(req, n)[k].0);
        }
    }
}

pub open spec fn prefix_view(p: FacetPrefix) -> (Seq<char>, Seq<char>) {
    (p.text@, p.encoded@)
}

pub open spec fn prefixes_view(ps: Seq<FacetPrefix>) -> Seq<(Seq<char>, Seq<char>)> {
    ps.map_values(|p: FacetPrefix| prefix_view(p))
}

pub open spec fn strings_view(ss: Seq<String>) -> Seq<Seq<char>> {
    ss.map_values(|s: String| s@)
}

/// Relies on `Facet::from_text` and `Facet::encoded_str`: the text parses
/// exactly when it starts with `/`, and the facet is held in encoded form.
#[verifier::external_body]
fn parse_facet(text: &str) -> (r: Option<String>)
    ensures
        r is Some <==> is_facet_text(text@),
        r is Some <==> facet_encoding(text@) is Some,
        r is Some ==> facet_encoding(text@) == Some(r->0@),
{
    tantivy::schema::Facet::from_text(text).ok().map(|f| f.encoded_str().to_string())
}

/// Whether the encoded facet `a` is a strict ancestor of `b`.
pub fn facet_ancestor(a: &str, b: &str) -> (r: bool)
    ensures
        r == is_facet_ancestor(a@, b@),
{
    let la = a.unicode_len();
    let lb = b.unicode_len();
    if lb <= la {
        return false;
    }
    if la == 0 {
        return true;
    }
    let mut i: usize = 0;
    while i < la
        invariant
            i <= la,
            la == a@.len(),
            lb == b@.len(),
            la < lb,
            forall|k: int| 0 <= k < i ==> a@[k] == b@[k],
        decreases la - i,
    {
        if a.get_char(i) != b.get_char(i) {
            assert(!a@.is_prefix_of(b@)) by {
                if a@.is_prefix_of(b@) {
                    assert(b@.subrange(0, la as int)[i as int] == b@[i as int]);
                }
            }
            return false;
        }
        i = i + 1;
    }
    assert(a@ =~= b@.subrange(0, la as int));
    b.get_char(la) == FACET_SEP
}

/// Whether either of two encoded facets is an ancestor of the other.
pub fn facets_conflict(a: &str, b: &str) -> (r: bool)
    ensures
        r == facets_overlap(a@, b@),
{
    facet_ancestor(a, b) || facet_ancestor(b, a)
}

/// Tantivy's table of facet counts gathered by one facet collector.
#[verifier::external_type_specification]
#[verifier::external_body]
pub struct ExFacetCounts(FacetCounts);

/// What a facet-count table holds: each counted facet, in encoded form,
/// with its count.
pub uninterp spec fn facet_count_map(c: FacetCounts) -> Map<Seq<char>, u64>;

/// Strict lexicographic order of encoded facets by character code, which
/// is the byte order of their UTF-8 strings.
pub open spec fn encoded_less(a: Seq<char>, b: Seq<char>) -> bool {
    ||| (a.is_prefix_of(b) && a.len() < b.len())
    ||| exists|i: int|
        0 <= i < a.len() && i < b.len() && a.subrange(0, i) == b.subrange(0, i) && (a[i] as u32) < (
        b[i] as u32)
}

/// `entries` lists, in increasing encoded order, exactly the counted facets
/// of `m` that descend from the encoded facet `p`, each with its count and
/// its text form.
pub open spec fn lists_children(entries: Seq<FacetEntry>, m: Map<Seq<char>, u64>, p: Seq<char>) -> bool {
    &&& forall|k: int|
        0 <= k < entries.len() ==> {
            &&& is_facet_ancestor(p, (#[trigger] entries[k]).encoded@)
            &&& m.contains_key(entries[k].encoded@)
            &&& m[entries[k].encoded@] == entries[k].count
            &&& entries[k].path@ == facet_display(entries[k].encoded@)
        }
    &&& forall|e: Seq<char>|
        #[trigger] m.contains_key(e) && is_facet_ancestor(p, e) ==> exists|k: int|
            0 <= k < entries.len() && (#[trigger] entries[k]).encoded@ == e
    &&& forall|i: int, j: int|
        0 <= i < j < entries.len() ==> encoded_less((#[trigger] entries[i]).encoded@, (#[trigger] entries[j]).encoded@)
}

proof fn lemma_encoded_less_irreflexive(a: Seq<char>)
    ensures
        !encoded_less(a, a),
{
}

proof fn lemma_encoded_less_asymmetric(a: Seq<char>, b: Seq<char>)
    requires
        encoded_less(a, b),
    ensures
        !encoded_less(b, a),
{
    if encoded_less(b, a) {
        if a.is_prefix_of(b) && a.len() < b.len() {
            if !(b.is_prefix_of(a) && b.len() < a.len()) {
                let j = choose|j: int|
                    0 <= j < b.len() && j < a.len() && b.subrange(0, j) == a.subrange(0, j) && (b[j] as u32) < (a[j] as u32);
                assert(a[j] == b.subrange(0, a.len() as int)[j]);
            }
        } else {
            let i = choose|i: int|
                0 <= i < a.len() && i < b.len() && a.subrange(0, i) == b.subrange(0, i) && (a[i] as u32) < (b[i] as u32);
            if b.is_prefix_of(a) && b.len() < a.len() {
                assert(b[i] == a.subrange(0, b.len() as int)[i]);
            } else {
                let j = choose|j: int|
                    0 <= j < b.len() && j < a.len() && b.subrange(0, j) == a.subrange(0, j) && (b[j] as u32) < (a[j] as u32);
                if i < j {
                    assert(a.subrange(0, j)[i] == b.subrange(0, j)[i]);
                } else if j < i {
                    assert(a.subrange(0, i)[j] == b.subrange(0, i)[j]);
                }
            }
        }
    }
}

/// Facet tables are determined by the counts: two lists of the counted
/// children of the same prefix in the same table are the same list, so
/// repeating a search over the same snapshot repeats its facet tables.
pub proof fn lemma_children_list_unique(a: Seq<FacetEntry>, b: Seq<FacetEntry>, m: Map<Seq<char>, u64>, p: Seq<char>)
    requires
        lists_children(a, m, p),
        lists_children(b, m, p),
    ensures
        a.len() == b.len(),
        forall|k: int|
            0 <= k < a.len() ==> (#[trigger] a[k]).encoded@ == b[k].encoded@ && a[k].path@ == b[k].path@
                && a[k].count == b[k].count,
    decreases a.len() + b.len(),
{
    if a.len() == 0 {
        if b.len() > 0 {
            assert(m.contains_key(b[0].encoded@) && is_facet_ancestor(p, b[0].encoded@));
        }
    } else if b.len() == 0 {
        assert(m.contains_key(a[0].encoded@) && is_facet_ancestor(p, a[0].encoded@));
    } else {
        let e0 = a[0].encoded@;
        assert(m.contains_key(e0) && is_facet_ancestor(p, e0));
        let j = choose|j: int| 0 <= j < b.len() && (#[trigger] b[j]).encoded@ == e0;
        assert(m.contains_key(b[0].encoded@) && is_facet_ancestor(p, b[0].encoded@));
        let i = choose|i: int| 0 <= i < a.len() && (#[trigger] a[i]).encoded@ == b[0].encoded@;
        if j > 0 {
            assert(encoded_less(b[0].encoded@, b[j].encoded@));
            if i > 0 {
                assert(encoded_less(a[0].encoded@, a[i].encoded@));
                lemma_encoded_less_asymmetric(a[0].encoded@, a[i].encoded@);
            } else {
                lemma_encoded_less_irreflexive(e0);
            }
        }
        assert(b[0].encoded@ == e0);
        let m1 = m.remove(e0);
        let a1 = a.drop_first();
        let b1 = b.drop_first();
        assert forall|k: int| 0 <= k < a1.len() implies (#[trigger] a1[k]).encoded@ != e0 by {
            assert(encoded_less(a[0].encoded@, a[k + 1].encoded@));
            lemma_encoded_less_irreflexive(e0);
        }
        assert forall|k: int| 0 <= k < b1.len() implies (#[trigger] b1[k]).encoded@ != e0 by {
            assert(encoded_less(b[0].encoded@, b[k + 1].encoded@));
            lemma_encoded_less_irreflexive(e0);
        }
        assert(lists_children(a1, m1, p)) by {
            assert forall|e: Seq<char>| #[trigger] m1.contains_key(e) && is_facet_ancestor(p, e) implies exists|k: int|
                0 <= k < a1.len() && (#[trigger] a1[k]).encoded@ == e by {
                let k = choose|k: int| 0 <= k < a.len() && (#[trigger] a[k]).encoded@ == e;
                assert(a1[k - 1] == a[k]);
            }
            assert forall|x: int, y: int| 0 <= x < y < a1.len() implies encoded_less((#[trigger] a1[x]).encoded@, (#[trigger] a1[y]).encoded@) by {
                assert(a1[x] == a[x + 1] && a1[y] == a[y + 1]);
            }
        }
        assert(lists_children(b1, m1, p)) by {
            assert forall|e: Seq<char>| #[trigger] m1.contains_key(e) && is_facet_ancestor(p, e) implies exists|k: int|
                0 <= k < b1.len() && (#[trigger] b1[k]).encoded@ == e by {
                let k = choose|k: int| 0 <= k < b.len() && (#[trigger] b[k]).encoded@ == e;
                assert(b1[k - 1] == b[k]);
            }
            assert forall|x: int, y: int| 0 <= x < y < b1.len() implies encoded_less((#[trigger] b1[x]).encoded@, (#[trigger] b1[y]).encoded@) by {
                assert(b1[x] == b[x + 1] && b1[y] == b[y + 1]);
            }
        }
        lemma_children_list_unique(a1, b1, m1, p);
        assert forall|k: int| 0 <= k < a.len() implies (#[trigger] a[k]).encoded@ == b[k].encoded@ && a[k].path@ == b[k].path@
            && a[k].count == b[k].count by {
            if k > 0 {
                assert(a[k] == a1[k - 1] && b[k] == b1[k - 1]);
            }
        }
    }
}

/// `entries` is, prefix by prefix in order, the list of the counted facets
/// of `c` that descend from that prefix.
pub open spec fn facets_from_counts(entries: Seq<FacetEntry>, c: FacetCounts, ps: Seq<FacetPrefix>) -> bool {
    exists|parts: Seq<Seq<FacetEntry>>|
        parts.len() == ps.len() && entries == parts.flatten() && forall|i: int|
            0 <= i < ps.len() ==> lists_children(#[trigger] parts[i], facet_count_map(c), ps[i].encoded@)
}

/// Relies on `FacetCounts::get`: over its `BTreeMap<Facet, u64>`, keyed by
/// encoded facet, it walks in key order the range strictly between the
/// given facet and that facet followed by `\u{1}` (unbounded for the root),
/// that is the counted facets that descend from it, each with its count.
/// Each is handed out in text form (`Display` of `Facet`) and in encoded
/// form.
#[verifier::external_body]
fn facet_children(counts: &FacetCounts, text: &str) -> (r: Vec<FacetEntry>)
    requires
        is_facet_text(text@),
    ensures
        lists_children(r@, facet_count_map(*counts), facet_encoding(text@)->0),
        forall|k: int|
            0 <= k < r@.len() ==> (#[trigger] r@[k]).path@ == facet_display(r@[k].encoded@)
                && facet_count_map(*counts)[r@[k].encoded@] == r@[k].count,
{
    counts.get(text).map(
        |(f, c)| FacetEntry { path: f.to_string(), encoded: f.encoded_str().to_string(), count: c },
    ).collect()
}

/// Every prefix holds a facet text and its encoded form.
pub open spec fn prefixes_wf(ps: Seq<FacetPrefix>) -> bool {
    forall|i: int|
        0 <= i < ps.len() ==> is_facet_text((#[trigger] ps[i]).text@) && facet_encoding(ps[i].text@)
            == Some(ps[i].encoded@)
}

/// No prefix is an ancestor or a descendant of another.
pub open spec fn prefixes_disjoint(ps: Seq<FacetPrefix>) -> bool {
    forall|a: int, b: int|
        0 <= a < b < ps.len() ==> !facets_overlap((#[trigger] ps[a]).encoded@, (#[trigger] ps[b]).encoded@)
}

/// The encoded facet `e` descends from one of the prefixes.
pub open spec fn under_some_prefix(ps: Seq<FacetPrefix>, e: Seq<char>) -> bool {
    exists|i: int| 0 <= i < ps.len() && is_facet_ancestor((#[trigger] ps[i]).encoded@, e)
}

/// Keeps, in request order, the requested facet texts that parse and whose
/// facet is neither the same as, nor an ancestor nor a descendant of, one
/// kept before; the others are dropped, so that no facet is counted twice.
pub fn select_prefixes(requested: &Vec<String>) -> (r: Vec<FacetPrefix>)
    ensures
        prefixes_view(r@) == kept_prefixes(strings_view(requested@), requested@.len()),
        prefixes_wf(r@),
        prefixes_disjoint(r@),
{
    let ghost req = strings_view(requested@);
    let mut out: Vec<FacetPrefix> = Vec::new();
    let mut i: usize = 0;
    while i < requested.len()
        invariant
            i <= requested.len(),
            req == strings_view(requested@),
            prefixes_view(out@) == kept_prefixes(req, i as nat),
            prefixes_wf(out@),
            prefixes_disjoint(out@),
        decreases requested.len() - i,
    {
        let text = &requested[i];
        assert(req[i as int] == text@);
        match parse_facet(text.as_str()) {
            Some(encoded) => {
                let mut clash = false;
                let mut j: usize = 0;
                while j < out.len()
                    invariant
                        j <= out.len(),
                        clash == exists|k: int| 0 <= k < j && facets_clash(#[trigger] out@[k].encoded@, encoded@),
                    decreases out.len() - j,
                {
                    if out[j].encoded == encoded || facets_conflict(out[j].encoded.as_str(), encoded.as_str()) {
                        clash = true;
                    }
                    j = j + 1;
                }
                proof {
                    let pv = prefixes_view(out@);
                    assert(clash == !overlaps_none(pv, encoded@)) by {
                        if clash {
                            let k = choose|k: int| 0 <= k < out@.len() && facets_clash(#[trigger] out@[k].encoded@, encoded@);
                            assert(pv[k].1 == out@[k].encoded@);
                        } else {
                            assert forall|k: int| 0 <= k < pv.len() implies !facets_clash(#[trigger] pv[k].1, encoded@) by {
                                assert(pv[k].1 == out@[k].encoded@);
                            }
                        }
                    }
                }
                if !clash {
                    let ghost before = out@;
                    out.push(FacetPrefix { text: text.clone(), encoded });
                    proof {
                        assert(prefixes_view(out@) =~= prefixes_view(before).push((req[i as int], out@[before.len() as int].encoded@)));
                        assert forall|a: int, b: int| 0 <= a < b < out@.len() implies !facets_overlap(
                            (#[trigger] out@[a]).encoded@,
                            (#[trigger] out@[b]).encoded@,
                        ) by {
                            if b == before.len() {
                                assert(prefixes_view(before)[a].1 == before[a].encoded@);
                            } else {
                                assert(out@[a] == before[a] && out@[b] == before[b]);
                            }
                        }
                    }
                }
            },
            None => {},
        }
        i = i + 1;
    }
    out
}

/// The counted facets of one field under the given prefixes, in prefix
/// order: for each prefix, the counted facets that strictly descend from
/// it, in increasing encoded order, with their counts. A prefix contributes
/// its children (and their descendants, where counted), never itself: a
/// document filed exactly under `/cat/books` is counted for prefix `/cat`
/// as `/cat/books`, and contributes nothing to prefix `/cat/books`. No
/// prefix gives no entry.
pub fn field_facets(counts: &FacetCounts, prefixes: &Vec<FacetPrefix>) -> (r: Vec<FacetEntry>)
    requires
        prefixes_wf(prefixes@),
    ensures
        facets_from_counts(r@, *counts, prefixes@),
        forall|k: int| 0 <= k < r@.len() ==> under_some_prefix(prefixes@, #[trigger] r@[k].encoded@),
        forall|k: int| 0 <= k < r@.len() ==> (#[trigger] r@[k]).path@ == facet_display(r@[k].encoded@),
        prefixes@.len() == 0 ==> r@.len() == 0,
{
    let mut out: Vec<FacetEntry> = Vec::new();
    let ghost mut parts: Seq<Seq<FacetEntry>> = Seq::empty();
    let mut i: usize = 0;
    assert(parts.flatten() =~= Seq::<FacetEntry>::empty());
    while i < prefixes.len()
        invariant
            i <= prefixes.len(),
            prefixes_wf(prefixes@),
            parts.len() == i,
            out@ == parts.flatten(),
            forall|j: int| 0 <= j < i ==> lists_children(#[trigger] parts[j], facet_count_map(*counts), prefixes@[j].encoded@),
            forall|k: int| 0 <= k < out@.len() ==> under_some_prefix(prefixes@, #[trigger] out@[k].encoded@),
            forall|k: int| 0 <= k < out@.len() ==> (#[trigger] out@[k]).path@ == facet_display(out@[k].encoded@),
            i == 0 ==> out@.len() == 0,
        decreases prefixes.len() - i,
    {
        let p = &prefixes[i];
        assert(is_facet_text(prefixes@[i as int].text@));
        let children = facet_children(counts, p.text.as_str());
        let ghost before = out@;
        let ghost got = children@;
        let mut children = children;
        out.append(&mut children);
        proof {
            assert forall|k: int| 0 <= k < out@.len() implies under_some_prefix(prefixes@, #[trigger] out@[k].encoded@)
                && out@[k].path@ == facet_display(out@[k].encoded@) by {
                if k < before.len() {
                    assert(out@[k] == before[k]);
                } else {
                    assert(out@[k] == got[k - before.len()]);
                    assert(is_facet_ancestor(prefixes@[i as int].encoded@, out@[k].encoded@));
                }
            }
            parts.lemma_flatten_push(got);
            parts = parts.push(got);
        }
        i = i + 1;
    }
    assert(parts.len() == prefixes@.len() && out@ == parts.flatten());
    out
}

} // verus!
