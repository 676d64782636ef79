//! The view builder: turns one node's children into an ordered, display-ready
//! list of bundles under a chosen sort mode and an optional glob filter.
//! The list holds exactly the matching direct children, each exactly once;
//! ties on the sort key fall back to name order, and full ties keep the
//! children's discovery order.

use vstd::prelude::*;

use crate::glob::{glob_match, glob_matches};
use crate::tree::Tree;

verus! {

/// How the children of the viewed node are ordered.
#[derive(Clone, Copy, PartialEq, Eq, Structural, Debug)]
pub enum SortMode {
    SizeDescending,
    NameAscending,
    CountDescending,
}

impl Default for SortMode {
    /// The default ordering puts the largest entries first.
    fn default() -> (d: Self)
        ensures
            d is SizeDescending,
    {
        SortMode::SizeDescending
    }
}

/// A display-time snapshot of one entry, decoupled from the live arena so a
/// render pass is never invalidated by a concurrent mutation.
pub struct EntryDataBundle {
    pub index: usize,
    pub name: Vec<u8>,
    pub size: u64,
    pub entry_count: u64,
    pub is_dir: bool,
    pub is_error: bool,
    /// Share of the parent's aggregated size, as a whole percentage.
    pub percent_of_parent: u64,
}

/// Byte-wise lexicographic order; a proper prefix comes first.
pub open spec fn lex_lt(a: Seq<u8>, b: Seq<u8>) -> bool
    decreases a.len(),
{
    if b.len() == 0 {
        false
    } else if a.len() == 0 {
        true
    } else if a[0] < b[0] {
        true
    } else if a[0] > b[0] {
        false
    } else {
        lex_lt(a.skip(1), b.skip(1))
    }
}

pub proof fn lemma_lex_irrefl(a: Seq<u8>)
    ensures
        !lex_lt(a, a),
    decreases a.len(),
{
    if a.len() > 0 {
        lemma_lex_irrefl(a.skip(1));
    }
}

/// Two sequences neither of which comes first are equal.
pub proof fn lemma_lex_total(a: Seq<u8>, b: Seq<u8>)
    ensures
        lex_lt(a, b) || lex_lt(b, a) || a == b,
    decreases a.len(),
{
    if a.len() == 0 && b.len() == 0 {
        assert(a =~= b);
    } else if a.len() > 0 && b.len() > 0 && a[0] == b[0] {
        lemma_lex_total(a.skip(1), b.skip(1));
        if !lex_lt(a, b) && !lex_lt(b, a) {
            assert(a.skip(1) == b.skip(1));
            assert(a.skip(1).len() == b.skip(1).len());
            assert(a.len() == b.len());
            assert forall|m: int| 0 <= m < a.len() implies a[m] == b[m] by {
                if m >= 1 {
                    assert(a[m] == a.skip(1)[m - 1]);
                    assert(b[m] == b.skip(1)[m - 1]);
                }
            }
            assert(a =~= b);
        }
    }
}

pub proof fn lemma_lex_trans(a: Seq<u8>, b: Seq<u8>, c: Seq<u8>)
    requires
        lex_lt(a, b),
        lex_lt(b, c),
    ensures
        lex_lt(a, c),
    decreases a.len() + b.len() + c.len(),
{
    if a.len() > 0 && b.len() > 0 && c.len() > 0 && a[0] == b[0] && b[0] == c[0] {
        lemma_lex_trans(a.skip(1), b.skip(1), c.skip(1));
    }
}

/// The strict sort order on bundles: the mode's key first, name order on ties.
pub open spec fn key_lt(mode: SortMode, a: EntryDataBundle, b: EntryDataBundle) -> bool {
    match mode {
        SortMode::SizeDescending => a.size > b.size || (a.size == b.size && lex_lt(
            a.name@,
            b.name@,
        )),
        SortMode::NameAscending => lex_lt(a.name@, b.name@),
        SortMode::CountDescending => a.entry_count > b.entry_count || (a.entry_count
            == b.entry_count && lex_lt(a.name@, b.name@)),
    }
}

/// Bundles the order cannot tell apart: equal key and equal name.
pub open spec fn key_eq(mode: SortMode, a: EntryDataBundle, b: EntryDataBundle) -> bool {
    !key_lt(mode, a, b) && !key_lt(mode, b, a)
}

pub proof fn lemma_key_asym(mode: SortMode, a: EntryDataBundle, b: EntryDataBundle)
    requires
        key_lt(mode, a, b),
    ensures
        !key_lt(mode, b, a),
{
    if key_lt(mode, b, a) {
        lemma_lex_trans(a.name@, b.name@, a.name@);
        lemma_lex_irrefl(a.name@);
    }
}

/// `a <= b <= c` gives `a <= c` in the non-strict order.
pub proof fn lemma_key_le_trans(
    mode: SortMode,
    a: EntryDataBundle,
    b: EntryDataBundle,
    c: EntryDataBundle,
)
    requires
        !key_lt(mode, b, a),
        !key_lt(mode, c, b),
    ensures
        !key_lt(mode, c, a),
{
    lemma_lex_total(a.name@, b.name@);
    lemma_lex_total(b.name@, c.name@);
    lemma_lex_total(a.name@, c.name@);
    if key_lt(mode, c, a) {
        if lex_lt(c.name@, a.name@) && lex_lt(a.name@, b.name@) {
            lemma_lex_trans(c.name@, a.name@, b.name@);
        }
        if lex_lt(b.name@, c.name@) && lex_lt(c.name@, a.name@) {
            lemma_lex_trans(b.name@, c.name@, a.name@);
        }
        lemma_lex_irrefl(a.name@);
        lemma_lex_irrefl(b.name@);
        lemma_lex_irrefl(c.name@);
    }
}

/// Integer share of `part` in `whole`, in percent; zero for an empty whole.
pub open spec fn percent_spec(part: u64, whole: u64) -> u64 {
    if whole == 0 {
        0u64
    } else {
        ((part as int * 100) / whole as int) as u64
    }
}

/// The bundle that stands for child `c` of the viewed node `r`.
pub open spec fn bundle_matches(t: Tree, r: usize, b: EntryDataBundle, c: usize) -> bool {
    &&& b.index == c
    &&& b.name@ == t.ent(c as int).name@
    &&& b.size == t.ent(c as int).aggregated
    &&& b.entry_count == t.ent(c as int).entry_count
    &&& b.is_dir == (t.ent(c as int).kind is Directory)
    &&& b.is_error == t.ent(c as int).is_error
    &&& b.percent_of_parent == percent_spec(
        t.ent(c as int).aggregated,
        t.ent(r as int).aggregated,
    )
}

/// The optional glob filter, as a sequence of pattern bytes.
pub open spec fn pat_of(g: Option<&Vec<u8>>) -> Option<Seq<u8>> {
    match g {
        Some(v) => Some(v@),
        None => None,
    }
}

/// Whether a child passes the filter: always, without one; with one, when the
/// pattern matches the child's full path.
pub open spec fn child_passes(t: Tree, c: usize, po: Option<Seq<u8>>) -> bool {
    match po {
        None => true,
        Some(ps) => glob_match(ps, t.path_spec(c)),
    }
}

fn copy_bytes(src: &Vec<u8>) -> (r: Vec<u8>)
    ensures
        r@ == src@,
{
    let mut r: Vec<u8> = Vec::new();
    let mut m: usize = 0;
    while m < src.len()
        invariant
            m <= src@.len(),
            r@ == src@.take(m as int),
        decreases src@.len() - m,
    {
        r.push(src[m]);
        proof {
            assert(src@.take(m as int + 1) =~= src@.take(m as int).push(src@[m as int]));
        }
        m = m + 1;
    }
    proof {
        assert(src@.take(src@.len() as int) =~= src@);
    }
    r
}

fn lex_less(a: &Vec<u8>, b: &Vec<u8>) -> (r: bool)
    ensures
        r == lex_lt(a@, b@),
{
    let mut i: usize = 0;
    proof {
        assert(a@.skip(0) =~= a@);
        assert(b@.skip(0) =~= b@);
    }
    while i < a.len() && i < b.len() && *a.get(i).unwrap() == *b.get(i).unwrap()
        invariant
            i <= a@.len(),
            i <= b@.len(),
            lex_lt(a@, b@) == lex_lt(a@.skip(i as int), b@.skip(i as int)),
        decreases a@.len() - i,
    {
        proof {
            assert(a@.skip(i as int)[0] == a@[i as int]);
            assert(b@.skip(i as int)[0] == b@[i as int]);
            assert(a@.skip(i as int).skip(1) =~= a@.skip(i as int + 1));
            assert(b@.skip(i as int).skip(1) =~= b@.skip(i as int + 1));
        }
        i = i + 1;
    }
    proof {
        if i < a@.len() && i < b@.len() {
            assert(a@.skip(i as int)[0] == a@[i as int]);
            assert(b@.skip(i as int)[0] == b@[i as int]);
        }
    }
    if i == a.len() {
        i < b.len()
    } else if i == b.len() {
        false
    } else {
        a[i] < b[i]
    }
}

fn bundle_before(mode: SortMode, a: &EntryDataBundle, b: &EntryDataBundle) -> (r: bool)
    ensures
        r == key_lt(mode, *a, *b),
{
    match mode {
        SortMode::SizeDescending => {
            if a.size > b.size {
                true
            } else if a.size == b.size {
                lex_less(&a.name, &b.name)
            } else {
                false
            }
        },
        SortMode::NameAscending => lex_less(&a.name, &b.name),
        SortMode::CountDescending => {
            if a.entry_count > b.entry_count {
                true
            } else if a.entry_count == b.entry_count {
                lex_less(&a.name, &b.name)
            } else {
                false
            }
        },
    }
}

/// The view builder's guarantee: `entries` holds exactly the children of
/// `view_root` that pass the filter, each exactly once, in the mode's order
/// with name-order tie-break; full ties keep the children's discovery order.
pub open spec fn view_ok(
    t: Tree,
    view_root: usize,
    po: Option<Seq<u8>>,
    sorting: SortMode,
    entries: Seq<EntryDataBundle>,
) -> bool {
    &&& forall|m: int|
        0 <= m < entries.len() ==> {
            let b = #[trigger] entries[m];
            &&& t.ent(view_root as int).children@.contains(b.index)
            &&& bundle_matches(t, view_root, b, b.index)
            &&& child_passes(t, b.index, po)
        }
    &&& forall|m1: int, m2: int|
        #![trigger entries[m1], entries[m2]]
        0 <= m1 < m2 < entries.len() ==> entries[m1].index != entries[m2].index
    &&& forall|kk: int|
        0 <= kk < t.ent(view_root as int).children@.len() && child_passes(
            t,
            #[trigger] t.ent(view_root as int).children@[kk],
            po,
        ) ==> exists|m: int|
            0 <= m < entries.len() && entries[m].index == t.ent(view_root as int).children@[kk]
    &&& forall|m1: int, m2: int|
        0 <= m1 < m2 < entries.len() ==> !key_lt(sorting, #[trigger] entries[m2], #[trigger] entries[m1])
    &&& forall|m1: int, m2: int|
        0 <= m1 < m2 < entries.len() && key_eq(sorting, #[trigger] entries[m1], #[trigger] entries[m2])
            ==> t.ent(view_root as int).children@.index_of(entries[m1].index) < t.ent(
            view_root as int,
        ).children@.index_of(entries[m2].index)
}

/// Builds the ordered, display-ready list for the direct children of
/// `view_root`: exactly the children that pass the filter, each exactly once,
/// sorted by the mode with name-order tie-break; full ties keep the
/// children's discovery order.
#[verifier::rlimit(60)]
pub fn sorted_entries(
    tree: &Tree,
    view_root: usize,
    sorting: SortMode,
    glob_filter: Option<&Vec<u8>>,
) -> (r: Vec<EntryDataBundle>)
    requires
        tree.wf(),
        tree.occupied(view_root as int),
    ensures
        view_ok(*tree, view_root, pat_of(glob_filter), sorting, r@),
{
    let parent_agg = tree.entry_at(view_root).aggregated;
    let nch = tree.children_of(view_root).len();
    let ghost ch = tree.ent(view_root as int).children@;
    let ghost po = pat_of(glob_filter);
    let mut out: Vec<EntryDataBundle> = Vec::new();
    let mut k: usize = 0;
    while k < nch
        invariant
            tree.wf(),
            tree.occupied(view_root as int),
            parent_agg == tree.ent(view_root as int).aggregated,
            nch == ch.len(),
            ch == tree.ent(view_root as int).children@,
            po == pat_of(glob_filter),
            k <= nch,
            forall|m: int|
                0 <= m < out@.len() ==> {
                    let b = #[trigger] out@[m];
                    &&& ch.contains(b.index)
                    &&& 0 <= ch.index_of(b.index) < k
                    &&& bundle_matches(*tree, view_root, b, b.index)
                    &&& child_passes(*tree, b.index, po)
                },
            forall|m1: int, m2: int|
                #![trigger out@[m1], out@[m2]]
                0 <= m1 < m2 < out@.len() ==> out@[m1].index != out@[m2].index,
            forall|kk: int|
                0 <= kk < k && child_passes(*tree, #[trigger] ch[kk], po) ==> exists|m: int|
                    0 <= m < out@.len() && out@[m].index == ch[kk],
            forall|m1: int, m2: int|
                0 <= m1 < m2 < out@.len() ==> !key_lt(
                    sorting,
                    #[trigger] out@[m2],
                    #[trigger] out@[m1],
                ),
            forall|m1: int, m2: int|
                0 <= m1 < m2 < out@.len() && key_eq(sorting, #[trigger] out@[m1], #[trigger] out@[m2])
                    ==> ch.index_of(out@[m1].index) < ch.index_of(out@[m2].index),
        decreases nch - k,
    {
        let c = *tree.children_of(view_root).get(k).unwrap();
        proof {
            assert(tree.children_ok(view_root as int));
            assert(tree.child_link_ok(view_root as int, ch[k as int]));
            assert(tree.occupied(c as int));
        }
        let passes: bool = match glob_filter {
            Some(pat) => {
                let path = tree.path_of(c);
                glob_matches(pat, &path)
            },
            None => true,
        };
        if passes {
            let e = tree.entry_at(c);
            proof {
                // a child's aggregated size never exceeds the parent's
                assert(tree.node_ok(view_root as int));
                if tree.ent(view_root as int).kind is File {
                    assert(false);
                }
                crate::tree::lemma_sum_member(tree.entries@, ch, crate::tree::agg_field(), c);
                assert(crate::tree::val_of(tree.entries@, c, crate::tree::agg_field())
                    == e.aggregated as int);
                assert(e.aggregated <= parent_agg);
            }
            let pct: u64 = if parent_agg == 0 {
                0
            } else {
                (((e.aggregated as u128) * 100) / (parent_agg as u128)) as u64
            };
            let b = EntryDataBundle {
                index: c,
                name: copy_bytes(&e.name),
                size: e.aggregated,
                entry_count: e.entry_count,
                is_dir: match e.kind {
                    crate::tree::EntryKind::Directory => true,
                    crate::tree::EntryKind::File => false,
                },
                is_error: e.is_error,
                percent_of_parent: pct,
            };
            proof {
                assert(bundle_matches(*tree, view_root, b, c));
                // the discovery position of `c` is exactly `k`
                assert(ch.contains(c)) by {
                    assert(ch[k as int] == c);
                }
                let io = ch.index_of(c);
                assert(ch[io] == c && 0 <= io < ch.len());
                assert(io == k as int) by {
                    if io < k as int {
                        assert(ch[io] == ch[k as int]);
                        assert(false);
                    }
                    if io > k as int {
                        assert(ch[k as int] == ch[io]);
                        assert(false);
                    }
                }
            }
            let ghost out_before = out@;
            let mut pos: usize = out.len();
            while pos > 0 && bundle_before(sorting, &b, &out[pos - 1])
                invariant
                    pos <= out@.len(),
                    out@ == out_before,
                    forall|m: int| pos <= m < out@.len() ==> key_lt(sorting, b, #[trigger] out@[m]),
                decreases pos,
            {
                pos = pos - 1;
            }
            proof {
                // everything left of `pos` stays at or before `b`
                assert forall|m: int| 0 <= m < pos implies !key_lt(sorting, b, #[trigger] out@[m]) by {
                    if m < pos - 1 {
                        lemma_key_le_trans(sorting, out@[m], out@[pos - 1], b);
                    }
                }
            }
            out.insert(pos, b);
            proof {
                let ov = out_before;
                let nv = out@;
                assert(nv == ov.insert(pos as int, b));
                assert(nv.len() == ov.len() + 1);
                assert forall|m: int| 0 <= m < nv.len() implies #[trigger] nv[m] == (if m < pos as int {
                    ov[m]
                } else if m == pos as int {
                    b
                } else {
                    ov[m - 1]
                }) by {}
                // every pre-existing witness survives, one slot later at most
                assert forall|kk: int|
                    0 <= kk < k + 1 && child_passes(*tree, #[trigger] ch[kk], po) implies exists|m: int|
                    0 <= m < nv.len() && nv[m].index == ch[kk] by {
                    if kk == k as int {
                        assert(nv[pos as int].index == c);
                    } else {
                        let w = choose|w: int| 0 <= w < ov.len() && ov[w].index == ch[kk];
                        if w < pos as int {
                            assert(nv[w].index == ch[kk]);
                        } else {
                            assert(nv[w + 1].index == ch[kk]);
                        }
                    }
                }
                // order among the new neighbours
                assert forall|m1: int, m2: int|
                    0 <= m1 < m2 < nv.len() implies !key_lt(
                    sorting,
                    #[trigger] nv[m2],
                    #[trigger] nv[m1],
                ) by {
                    if m2 == pos as int {
                        assert(!key_lt(sorting, b, ov[m1]));
                    } else if m1 == pos as int {
                        assert(key_lt(sorting, b, ov[m2 - 1]));
                        lemma_key_asym(sorting, b, ov[m2 - 1]);
                    }
                }
                assert forall|m1: int, m2: int|
                    0 <= m1 < m2 < nv.len() && key_eq(sorting, #[trigger] nv[m1], #[trigger] nv[m2])
                    implies ch.index_of(nv[m1].index) < ch.index_of(nv[m2].index) by {
                    if m1 == pos as int {
                        assert(key_lt(sorting, b, ov[m2 - 1]));
                        assert(!key_eq(sorting, nv[m1], nv[m2]));
                    } else if m2 == pos as int {
                        assert(ch.index_of(nv[m1].index) < k as int);
                        assert(ch.index_of(b.index) == k as int);
                    }
                }
            }
        }
        k = k + 1;
    }
    out
}

} // verus!
