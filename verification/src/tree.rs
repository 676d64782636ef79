//! Arena of discovered filesystem entries with parent/child structure and
//! aggregated sizes. Every non-root node has exactly one parent whose child
//! list contains it; a directory's aggregated size is the sum of its
//! children's aggregated sizes, and its entry count the sum of theirs.
//! Indices are stable: a slot is never reused once freed.

use vstd::prelude::*;

verus! {

/// The kind of filesystem object an entry stands for.
#[derive(Clone, Copy, PartialEq, Eq, Structural, Debug)]
pub enum EntryKind {
    File,
    Directory,
}

/// The measured facts about one entry, handed to `Tree::add_node`.
/// An unreadable entry is recorded with `is_error` set and size zero
/// rather than aborting the walk.
pub struct EntryData {
    pub name: Vec<u8>,
    pub kind: EntryKind,
    pub size: u64,
    pub is_error: bool,
}

/// One node of the arena.
pub struct Entry {
    pub name: Vec<u8>,
    pub kind: EntryKind,
    pub size: u64,
    pub is_error: bool,
    /// For a file: its own size. For a directory: the sum of the children's
    /// aggregated sizes.
    pub aggregated: u64,
    /// For a file: one. For a directory: the sum of the children's counts.
    pub entry_count: u64,
    pub children: Vec<usize>,
    pub parent: Option<usize>,
}

/// The arena. The root lives at index zero and is the only node without a
/// parent; freed slots hold `None` and are never reused.
pub struct Tree {
    pub entries: Vec<Option<Entry>>,
}

/// The aggregated-size field, as a summable view of a node.
pub open spec fn agg_field() -> spec_fn(Entry) -> u64 {
    |e: Entry| e.aggregated
}

/// The entry-count field, as a summable view of a node.
pub open spec fn cnt_field() -> spec_fn(Entry) -> u64 {
    |e: Entry| e.entry_count
}

/// The value of field `f` at slot `c`, or zero for a freed or out-of-range slot.
pub open spec fn val_of(es: Seq<Option<Entry>>, c: usize, f: spec_fn(Entry) -> u64) -> int {
    if c < es.len() && es[c as int] is Some {
        f(es[c as int].unwrap()) as int
    } else {
        0
    }
}

/// Sum of field `f` over the slots listed in `cs`.
pub open spec fn sum_of(es: Seq<Option<Entry>>, cs: Seq<usize>, f: spec_fn(Entry) -> u64) -> int
    decreases cs.len(),
{
    if cs.len() == 0 {
        0
    } else {
        val_of(es, cs[0], f) + sum_of(es, cs.drop_first(), f)
    }
}

/// What `add_node` will store as the new node's aggregated size.
pub open spec fn node_agg(kind: EntryKind, size: u64) -> int {
    if kind is File {
        size as int
    } else {
        0
    }
}

/// What `add_node` will store as the new node's entry count.
pub open spec fn node_cnt(kind: EntryKind) -> int {
    if kind is File {
        1int
    } else {
        0
    }
}

/// Two nodes equal but for the aggregate fields, which differ by the deltas.
pub open spec fn bumped(e2: Entry, e1: Entry, d_agg: int, d_cnt: int) -> bool {
    &&& e2.name == e1.name
    &&& e2.kind == e1.kind
    &&& e2.size == e1.size
    &&& e2.is_error == e1.is_error
    &&& e2.children == e1.children
    &&& e2.parent == e1.parent
    &&& e2.aggregated as int == e1.aggregated as int + d_agg
    &&& e2.entry_count as int == e1.entry_count as int + d_cnt
}

/// How every slot stands after node `i` was unlinked from its parent `p`
/// (child at position `k` dropped) and the deltas propagated up the chain.
pub open spec fn unlink_classified(
    oldt: Tree,
    t3: Tree,
    i: usize,
    p: usize,
    k: int,
    da: int,
    dc: int,
) -> bool {
    forall|j: int|
        #[trigger] oldt.occupied(j) ==> {
            if j == p as int {
                let e2 = t3.ent(j);
                let e1 = oldt.ent(j);
                &&& e2.name == e1.name
                &&& e2.kind == e1.kind
                &&& e2.size == e1.size
                &&& e2.is_error == e1.is_error
                &&& e2.parent == e1.parent
                &&& e2.children@ == e1.children@.remove(k)
                &&& e2.aggregated as int == e1.aggregated as int - da
                &&& e2.entry_count as int == e1.entry_count as int - dc
            } else if oldt.in_subtree(j as usize, p) {
                bumped(t3.ent(j), oldt.ent(j), -da, -dc)
            } else {
                t3.ent(j) == oldt.ent(j)
            }
        }
}

/// Everything `remove_subtree(i)` leaves behind: occupancy loses exactly the
/// subtree of `i`, the parent's child list drops `i`, ancestors' aggregates
/// fall by the subtree's totals, and every other surviving node is untouched.
pub open spec fn removed_frame(oldt: Tree, nt: Tree, i: usize) -> bool {
    &&& nt.entries@.len() == oldt.entries@.len()
    &&& forall|m: int|
        0 <= m < oldt.entries@.len() ==> (#[trigger] nt.occupied(m) <==> (oldt.occupied(m)
            && !oldt.in_subtree(i, m as usize)))
    &&& forall|j: int|
        #[trigger] oldt.occupied(j) && !oldt.in_subtree(i, j as usize) ==> {
            let p = oldt.ent(i as int).parent.unwrap();
            let da = oldt.ent(i as int).aggregated as int;
            let dc = oldt.ent(i as int).entry_count as int;
            if j == p as int {
                let e2 = nt.ent(j);
                let e1 = oldt.ent(j);
                let k = e1.children@.index_of(i);
                &&& e2.name == e1.name
                &&& e2.kind == e1.kind
                &&& e2.size == e1.size
                &&& e2.is_error == e1.is_error
                &&& e2.parent == e1.parent
                &&& 0 <= k < e1.children@.len() && e1.children@[k] == i
                &&& e2.children@ == e1.children@.remove(k)
                &&& e2.aggregated as int == e1.aggregated as int - da
                &&& e2.entry_count as int == e1.entry_count as int - dc
            } else if oldt.in_subtree(j as usize, i) {
                bumped(nt.ent(j), oldt.ent(j), -da, -dc)
            } else {
                nt.ent(j) == oldt.ent(j)
            }
        }
}

pub proof fn lemma_sum_frame(
    es1: Seq<Option<Entry>>,
    es2: Seq<Option<Entry>>,
    cs: Seq<usize>,
    f: spec_fn(Entry) -> u64,
)
    requires
        forall|k: int| 0 <= k < cs.len() ==> val_of(es1, #[trigger] cs[k], f) == val_of(es2, cs[k], f),
    ensures
        sum_of(es1, cs, f) == sum_of(es2, cs, f),
    decreases cs.len(),
{
    if cs.len() > 0 {
        assert(val_of(es1, cs[0], f) == val_of(es2, cs[0], f));
        assert forall|k: int| 0 <= k < cs.drop_first().len() implies val_of(
            es1,
            #[trigger] cs.drop_first()[k],
            f,
        ) == val_of(es2, cs.drop_first()[k], f) by {
            assert(cs.drop_first()[k] == cs[k + 1]);
        }
        lemma_sum_frame(es1, es2, cs.drop_first(), f);
    }
}

pub proof fn lemma_sum_nonneg(es: Seq<Option<Entry>>, cs: Seq<usize>, f: spec_fn(Entry) -> u64)
    ensures
        sum_of(es, cs, f) >= 0,
    decreases cs.len(),
{
    if cs.len() > 0 {
        lemma_sum_nonneg(es, cs.drop_first(), f);
    }
}

/// A listed slot's value is at most the whole sum.
pub proof fn lemma_sum_member(
    es: Seq<Option<Entry>>,
    cs: Seq<usize>,
    f: spec_fn(Entry) -> u64,
    tgt: usize,
)
    requires
        cs.contains(tgt),
    ensures
        val_of(es, tgt, f) <= sum_of(es, cs, f),
    decreases cs.len(),
{
    if cs[0] == tgt {
        lemma_sum_nonneg(es, cs.drop_first(), f);
    } else {
        let idx = choose|idx: int| 0 <= idx < cs.len() && cs[idx] == tgt;
        assert(cs.drop_first()[idx - 1] == tgt);
        lemma_sum_member(es, cs.drop_first(), f, tgt);
        assert(val_of(es, cs[0], f) >= 0);
    }
}

/// When exactly one listed slot's value changed by `d`, the sum changed by `d`.
pub proof fn lemma_sum_update(
    es1: Seq<Option<Entry>>,
    es2: Seq<Option<Entry>>,
    cs: Seq<usize>,
    f: spec_fn(Entry) -> u64,
    tgt: usize,
    d: int,
)
    requires
        forall|k1: int, k2: int|
            #![trigger cs[k1], cs[k2]]
            0 <= k1 < k2 < cs.len() ==> cs[k1] != cs[k2],
        cs.contains(tgt),
        forall|k: int|
            0 <= k < cs.len() && cs[k] != tgt ==> val_of(es1, #[trigger] cs[k], f) == val_of(
                es2,
                cs[k],
                f,
            ),
        val_of(es2, tgt, f) == val_of(es1, tgt, f) + d,
    ensures
        sum_of(es2, cs, f) == sum_of(es1, cs, f) + d,
    decreases cs.len(),
{
    if cs[0] == tgt {
        assert forall|k: int| 0 <= k < cs.drop_first().len() implies val_of(
            es1,
            #[trigger] cs.drop_first()[k],
            f,
        ) == val_of(es2, cs.drop_first()[k], f) by {
            assert(cs.drop_first()[k] == cs[k + 1]);
            assert(cs[k + 1] != tgt);
        }
        lemma_sum_frame(es1, es2, cs.drop_first(), f);
    } else {
        let idx = choose|idx: int| 0 <= idx < cs.len() && cs[idx] == tgt;
        assert(cs.drop_first()[idx - 1] == tgt);
        assert forall|k1: int, k2: int|
            #![trigger cs.drop_first()[k1], cs.drop_first()[k2]]
            0 <= k1 < k2 < cs.drop_first().len() implies cs.drop_first()[k1]
            != cs.drop_first()[k2] by {
            assert(cs.drop_first()[k1] == cs[k1 + 1]);
            assert(cs.drop_first()[k2] == cs[k2 + 1]);
        }
        lemma_sum_update(es1, es2, cs.drop_first(), f, tgt, d);
    }
}

/// Appending a slot to the list adds its value to the sum.
pub proof fn lemma_sum_push(
    es: Seq<Option<Entry>>,
    cs: Seq<usize>,
    f: spec_fn(Entry) -> u64,
    c: usize,
)
    ensures
        sum_of(es, cs.push(c), f) == sum_of(es, cs, f) + val_of(es, c, f),
    decreases cs.len(),
{
    if cs.len() == 0 {
        assert(cs.push(c).drop_first() =~= cs);
    } else {
        assert(cs.push(c)[0] == cs[0]);
        assert(cs.push(c).drop_first() =~= cs.drop_first().push(c));
        lemma_sum_push(es, cs.drop_first(), f, c);
    }
}

/// Removing the listed slot at `k` subtracts its value from the sum.
pub proof fn lemma_sum_remove(
    es: Seq<Option<Entry>>,
    cs: Seq<usize>,
    f: spec_fn(Entry) -> u64,
    k: int,
)
    requires
        0 <= k < cs.len(),
    ensures
        sum_of(es, cs.remove(k), f) == sum_of(es, cs, f) - val_of(es, cs[k], f),
    decreases cs.len(),
{
    if k == 0 {
        assert(cs.remove(0) =~= cs.drop_first());
    } else {
        assert(cs.remove(k)[0] == cs[0]);
        assert(cs.remove(k).drop_first() =~= cs.drop_first().remove(k - 1));
        lemma_sum_remove(es, cs.drop_first(), f, k - 1);
    }
}

impl Tree {
    /// A slot that currently holds a node.
    pub open spec fn occupied(self, j: int) -> bool {
        0 <= j < self.entries@.len() && self.entries@[j] is Some
    }

    /// The node at an occupied slot.
    pub open spec fn ent(self, j: int) -> Entry {
        self.entries@[j].unwrap()
    }

    /// A non-root node's parent link points below it at an occupied slot.
    pub open spec fn parent_shape_ok(self, j: int) -> bool {
        &&& (j == 0 ==> self.ent(j).parent is None)
        &&& (j != 0 ==> {
            let e = self.ent(j);
            &&& e.parent is Some
            &&& (e.parent.unwrap() as int) < j
            &&& self.occupied(e.parent.unwrap() as int)
        })
    }

    /// A non-root node is listed among its parent's children.
    pub open spec fn parent_contains_ok(self, j: int) -> bool {
        j != 0 ==> self.ent(self.ent(j).parent.unwrap() as int).children@.contains(j as usize)
    }

    /// One child link: in range, occupied, and pointing back at `j`.
    pub open spec fn child_link_ok(self, j: int, c: usize) -> bool {
        &&& j < c as int
        &&& (c as int) < self.entries@.len()
        &&& self.occupied(c as int)
        &&& self.ent(c as int).parent == Some(j as usize)
    }

    /// All child links of `j` are sound, listed once each, and only
    /// directories have children.
    pub open spec fn children_ok(self, j: int) -> bool {
        let e = self.ent(j);
        &&& forall|k: int|
            0 <= k < e.children@.len() ==> self.child_link_ok(j, #[trigger] e.children@[k])
        &&& forall|k1: int, k2: int|
            #![trigger e.children@[k1], e.children@[k2]]
            0 <= k1 < k2 < e.children@.len() ==> e.children@[k1] != e.children@[k2]
        &&& (e.kind is File ==> e.children@.len() == 0)
    }

    /// Parent links point downward at occupied slots everywhere.
    pub open spec fn shapes_ok(self) -> bool {
        forall|j: int| #[trigger] self.occupied(j) ==> self.parent_shape_ok(j)
    }

    /// The structural half of well-formedness, with the
    /// child-list-membership clause waived at slot `exc` alone.
    pub open spec fn wf_links_except(self, exc: int) -> bool {
        &&& 0 < self.entries@.len()
        &&& self.occupied(0)
        &&& self.ent(0).kind is Directory
        &&& self.shapes_ok()
        &&& forall|j: int| #[trigger] self.occupied(j) && j != exc ==> self.parent_contains_ok(j)
        &&& forall|j: int| #[trigger] self.occupied(j) ==> self.children_ok(j)
    }

    /// Bidirectional parent/child consistency for every occupied slot.
    pub open spec fn wf_links(self) -> bool {
        self.wf_links_except(-1)
    }

    /// The stored aggregates at `j` match what the children's say.
    pub open spec fn node_ok(self, j: int) -> bool {
        let e = self.ent(j);
        &&& e.aggregated as int == (if e.kind is File {
            e.size as int
        } else {
            sum_of(self.entries@, e.children@, agg_field())
        })
        &&& e.entry_count as int == (if e.kind is File {
            1int
        } else {
            sum_of(self.entries@, e.children@, cnt_field())
        })
    }

    /// Well-formedness: sound links and correct aggregates throughout.
    pub open spec fn wf(self) -> bool {
        &&& self.wf_links()
        &&& forall|j: int| #[trigger] self.occupied(j) ==> self.node_ok(j)
    }

    /// `j` lies in the subtree rooted at `i`: the parent chain of `j`
    /// reaches `i`.
    pub open spec fn in_subtree(self, i: usize, j: usize) -> bool
        decreases j,
    {
        if j == i {
            true
        } else if self.occupied(j as int) && self.ent(j as int).parent is Some {
            let p = self.ent(j as int).parent.unwrap();
            if p < j {
                self.in_subtree(i, p)
            } else {
                false
            }
        } else {
            false
        }
    }

    /// An ancestor's index never exceeds a descendant's.
    pub proof fn lemma_ancestor_le(self, i: usize, j: usize)
        requires
            self.in_subtree(i, j),
        ensures
            i <= j,
        decreases j,
    {
        if j != i {
            let p = self.ent(j as int).parent.unwrap();
            self.lemma_ancestor_le(i, p);
        }
    }

    /// Every occupied slot lies in the root's subtree.
    pub proof fn lemma_all_in_root(self, j: usize)
        requires
            self.shapes_ok(),
            self.occupied(j as int),
            self.occupied(0),
        ensures
            self.in_subtree(0, j),
        decreases j,
    {
        if j != 0 {
            let p = self.ent(j as int).parent.unwrap();
            self.lemma_all_in_root(p);
        }
    }

    /// Subtree membership depends only on the occupancy and parent links at
    /// or below `j`.
    pub proof fn lemma_subtree_frame(self, other: Tree, i: usize, j: usize)
        requires
            forall|m: int| 0 <= m <= j ==> (#[trigger] self.occupied(m) <==> other.occupied(m)),
            forall|m: int|
                0 <= m <= j && #[trigger] self.occupied(m) ==> self.ent(m).parent == other.ent(
                    m,
                ).parent,
        ensures
            self.in_subtree(i, j) == other.in_subtree(i, j),
        decreases j,
    {
        if j != i {
            assert(self.occupied(j as int) <==> other.occupied(j as int));
            if self.occupied(j as int) && self.ent(j as int).parent is Some {
                let p = self.ent(j as int).parent.unwrap();
                if p < j {
                    self.lemma_subtree_frame(other, i, p);
                }
            }
        }
    }

    /// Subtree containment is transitive.
    pub proof fn lemma_subtree_trans(self, a: usize, b: usize, j: usize)
        requires
            self.in_subtree(a, b),
            self.in_subtree(b, j),
        ensures
            self.in_subtree(a, j),
        decreases j,
    {
        if j != b {
            let p = self.ent(j as int).parent.unwrap();
            self.lemma_subtree_trans(a, b, p);
        }
    }

    /// Two ancestors of one node are comparable: one contains the other.
    pub proof fn lemma_ancestors_linear(self, a: usize, b: usize, j: usize)
        requires
            self.in_subtree(a, j),
            self.in_subtree(b, j),
        ensures
            self.in_subtree(a, b) || self.in_subtree(b, a),
        decreases j,
    {
        if j == a || j == b {
        } else {
            let p = self.ent(j as int).parent.unwrap();
            self.lemma_ancestors_linear(a, b, p);
        }
    }

    /// For a strict ancestor `a` of `j`, the child of `a` through which the
    /// chain from `j` passes.
    pub proof fn chain_child(self, a: usize, j: usize) -> (c: usize)
        requires
            self.shapes_ok(),
            forall|m: int| #[trigger] self.occupied(m) && m != a ==> self.parent_contains_ok(m),
            self.occupied(j as int),
            self.in_subtree(a, j),
            a != j,
        ensures
            self.occupied(c as int),
            self.ent(c as int).parent == Some(a),
            self.in_subtree(c, j),
            c != a,
            self.occupied(a as int) && self.ent(a as int).children@.contains(c),
        decreases j,
    {
        let p = self.ent(j as int).parent.unwrap();
        if p == a {
            assert(self.in_subtree(j, j));
            j
        } else {
            let c = self.chain_child(a, p);
            c
        }
    }

    /// The chain from `j` up to an ancestor passes through at most one child
    /// of any one node.
    pub proof fn lemma_chain_child_unique(self, a: usize, j: usize, c1: usize, c2: usize)
        requires
            self.occupied(c1 as int),
            self.occupied(c2 as int),
            self.ent(c1 as int).parent == Some(a),
            self.ent(c2 as int).parent == Some(a),
            a < c1,
            a < c2,
            self.in_subtree(c1, j),
            self.in_subtree(c2, j),
        ensures
            c1 == c2,
    {
        self.lemma_ancestors_linear(c1, c2, j);
        if c1 != c2 {
            if self.in_subtree(c1, c2) {
                assert(self.in_subtree(c1, a));
                self.lemma_ancestor_le(c1, a);
            } else {
                assert(self.in_subtree(c2, c1));
                assert(self.in_subtree(c2, a));
                self.lemma_ancestor_le(c2, a);
            }
            assert(false);
        }
    }

    /// A node's stored field value is bounded by any ancestor's, as long as
    /// directories store the sum of their children for that field.
    pub proof fn lemma_val_le_ancestor(self, a: usize, j: usize, f: spec_fn(Entry) -> u64)
        requires
            self.wf_links(),
            forall|m: int|
                #[trigger] self.occupied(m) && self.ent(m).kind is Directory ==> f(self.ent(m)) as int
                    == sum_of(self.entries@, self.ent(m).children@, f),
            self.occupied(j as int),
            self.in_subtree(a, j),
        ensures
            self.occupied(a as int),
            val_of(self.entries@, j, f) <= val_of(self.entries@, a, f),
        decreases j,
    {
        if j != a {
            let p = self.ent(j as int).parent.unwrap();
            assert(self.occupied(p as int));
            assert(self.parent_contains_ok(j as int));
            assert(self.ent(p as int).children@.contains(j));
            assert(self.children_ok(p as int));
            if self.ent(p as int).kind is File {
                assert(false);
            }
            lemma_sum_member(self.entries@, self.ent(p as int).children@, f, j);
            self.lemma_val_le_ancestor(a, p, f);
        }
    }

    /// A fresh tree: a single root directory with empty name and zero sizes.
    pub fn new() -> (t: Tree)
        ensures
            t.wf(),
            t.entries@.len() == 1,
            t.occupied(0),
            t.ent(0).name@.len() == 0,
            t.ent(0).kind is Directory,
            t.ent(0).size == 0,
            !t.ent(0).is_error,
            t.ent(0).aggregated == 0,
            t.ent(0).entry_count == 0,
            t.ent(0).children@.len() == 0,
            t.ent(0).parent is None,
    {
        let root = Entry {
            name: Vec::new(),
            kind: EntryKind::Directory,
            size: 0,
            is_error: false,
            aggregated: 0,
            entry_count: 0,
            children: Vec::new(),
            parent: None,
        };
        let mut entries: Vec<Option<Entry>> = Vec::new();
        entries.push(Some(root));
        let t = Tree { entries };
        proof {
            assert forall|j: int| #[trigger] t.occupied(j) implies t.parent_shape_ok(j)
                && t.parent_contains_ok(j) && t.children_ok(j) && t.node_ok(j) by {
                assert(j == 0);
                assert(t.ent(0).children@.len() == 0);
            }
        }
        t
    }

    /// The index of the root node.
    pub fn root_index(&self) -> (r: usize)
        ensures
            r == 0,
    {
        0
    }

    /// How many slots the arena holds, freed ones included.
    pub fn slot_count(&self) -> (r: usize)
        ensures
            r == self.entries@.len(),
    {
        self.entries.len()
    }

    /// Whether slot `i` currently holds a node.
    pub fn is_occupied(&self, i: usize) -> (r: bool)
        ensures
            r == self.occupied(i as int),
    {
        i < self.entries.len() && self.entries[i].is_some()
    }

    /// The node at an occupied slot.
    pub fn entry_at(&self, i: usize) -> (e: &Entry)
        requires
            self.occupied(i as int),
        ensures
            *e == self.ent(i as int),
    {
        self.entries[i].as_ref().unwrap()
    }

    /// The current child index list of an occupied node.
    pub fn children_of(&self, i: usize) -> (r: &Vec<usize>)
        requires
            self.occupied(i as int),
        ensures
            r@ == self.ent(i as int).children@,
    {
        &self.entries[i].as_ref().unwrap().children
    }

    /// The full path of node `j`: the names along the chain from the root,
    /// joined by `/`.
    pub open spec fn path_spec(self, j: usize) -> Seq<u8>
        decreases j,
    {
        if !self.occupied(j as int) {
            Seq::empty()
        } else if self.ent(j as int).parent is Some {
            let p = self.ent(j as int).parent.unwrap();
            if p < j {
                self.path_spec(p) + seq![47u8] + self.ent(j as int).name@
            } else {
                self.ent(j as int).name@
            }
        } else {
            self.ent(j as int).name@
        }
    }

    /// Resolves the full path of an occupied node.
    pub fn path_of(&self, j: usize) -> (r: Vec<u8>)
        requires
            self.shapes_ok(),
            self.occupied(j as int),
        ensures
            r@ == self.path_spec(j),
        decreases j,
    {
        let e = self.entry_at(j);
        let mut r: Vec<u8> = match e.parent {
            Some(p) => {
                proof {
                    assert(self.parent_shape_ok(j as int));
                }
                let mut base = self.path_of(p);
                base.push(47u8);
                base
            },
            None => Vec::new(),
        };
        let mut m: usize = 0;
        let ghost prefix = r@;
        while m < e.name.len()
            invariant
                m <= e.name@.len(),
                *e == self.ent(j as int),
                r@ == prefix + e.name@.take(m as int),
            decreases e.name@.len() - m,
        {
            r.push(e.name[m]);
            proof {
                assert(prefix + e.name@.take(m as int + 1) =~= (prefix + e.name@.take(m as int)).push(
                    e.name@[m as int],
                ));
            }
            m = m + 1;
        }
        proof {
            assert(e.name@.take(e.name@.len() as int) =~= e.name@);
            if e.parent is Some {
                assert(r@ =~= self.path_spec(j));
            } else {
                assert(r@ =~= self.ent(j as int).name@);
            }
        }
        r
    }

    /// Adds the deltas to the stored aggregates of every strict ancestor of
    /// `cur`, leaving everything else untouched.
    fn propagate_add(&mut self, cur: usize, d_agg: u64, d_cnt: u64)
        requires
            old(self).shapes_ok(),
            old(self).occupied(cur as int),
            forall|a: usize|
                #[trigger] old(self).in_subtree(a, cur) && a != cur ==> old(self).ent(
                    a as int,
                ).aggregated as int + d_agg <= u64::MAX && old(self).ent(a as int).entry_count as int
                    + d_cnt <= u64::MAX,
        ensures
            final(self).entries@.len() == old(self).entries@.len(),
            forall|m: int| #[trigger] final(self).occupied(m) <==> old(self).occupied(m),
            forall|j: int|
                #[trigger] old(self).occupied(j) ==> if old(self).in_subtree(j as usize, cur) && j
                    != cur as int {
                    bumped(final(self).ent(j), old(self).ent(j), d_agg as int, d_cnt as int)
                } else {
                    final(self).ent(j) == old(self).ent(j)
                },
        decreases cur,
    {
        let n = self.entries.len();
        let parent_opt = match &self.entries[cur] {
            Some(e) => e.parent,
            None => None,
        };
        proof {
            assert(n == old(self).entries@.len());
            assert(parent_opt == old(self).ent(cur as int).parent);
        }
        if let Some(p) = parent_opt {
            proof {
                assert(old(self).parent_shape_ok(cur as int));
                assert(p < cur);
                assert(old(self).in_subtree(p, p));
                assert(old(self).in_subtree(p, cur) && p != cur);
            }
            match &mut self.entries[p] {
                Some(pe) => {
                    pe.aggregated = pe.aggregated + d_agg;
                    pe.entry_count = pe.entry_count + d_cnt;
                },
                None => {},
            }
            let ghost mid = *self;
            proof {
                assert forall|m: int|
                    0 <= m < mid.entries@.len() && m != p as int implies mid.entries@[m] == old(
                    self,
                ).entries@[m] by {}
                assert(mid.entries@.len() == old(self).entries@.len());
                assert forall|m: int| #[trigger] mid.occupied(m) <==> old(self).occupied(m) by {}
                assert forall|m: int| #[trigger] mid.occupied(m) implies mid.ent(m).parent == old(
                    self,
                ).ent(m).parent by {}
                assert(mid.shapes_ok());
                assert(bumped(mid.ent(p as int), old(self).ent(p as int), d_agg as int, d_cnt as int));
                // subtree relations agree between mid and old
                assert forall|a: usize, j: usize| #![trigger mid.in_subtree(a, j)]
                    mid.in_subtree(a, j) == old(self).in_subtree(a, j) by {
                    mid.lemma_subtree_frame(*old(self), a, j);
                }
                // bounds for the recursive call
                assert forall|a: usize| #[trigger] mid.in_subtree(a, p) && a != p implies mid.ent(
                    a as int,
                ).aggregated as int + d_agg <= u64::MAX && mid.ent(a as int).entry_count as int
                    + d_cnt <= u64::MAX by {
                    mid.lemma_ancestor_le(a, p);
                    old(self).lemma_subtree_trans(a, p, cur);
                    assert(old(self).in_subtree(a, cur) && a != cur);
                    assert(mid.ent(a as int) == old(self).ent(a as int));
                }
            }
            self.propagate_add(p, d_agg, d_cnt);
            proof {
                // strict ancestors of cur are p together with strict ancestors of p
                assert forall|j: int| #[trigger] old(self).occupied(j) implies if old(
                    self,
                ).in_subtree(j as usize, cur) && j != cur as int {
                    bumped(self.ent(j), old(self).ent(j), d_agg as int, d_cnt as int)
                } else {
                    self.ent(j) == old(self).ent(j)
                } by {
                    assert(mid.occupied(j));
                    if old(self).in_subtree(j as usize, cur) && j != cur as int {
                        if j == p as int {
                            if mid.in_subtree(p, p) && p as int != p as int {
                                assert(false);
                            }
                            assert(self.ent(j) == mid.ent(j));
                        } else {
                            assert(j as usize != cur);
                            assert(old(self).ent(cur as int).parent == Some(p));
                            assert(old(self).in_subtree(j as usize, p));
                            assert(bumped(self.ent(j), mid.ent(j), d_agg as int, d_cnt as int));
                            assert(mid.ent(j) == old(self).ent(j));
                        }
                    } else {
                        if j == cur as int {
                            if mid.in_subtree(cur, p) {
                                mid.lemma_ancestor_le(cur, p);
                                assert(false);
                            }
                            assert(self.ent(j) == mid.ent(j));
                            assert(mid.ent(j) == old(self).ent(j));
                        } else {
                            assert(!old(self).in_subtree(j as usize, p));
                            assert(self.ent(j) == mid.ent(j));
                            assert(mid.ent(j) == old(self).ent(j));
                        }
                    }
                }
            }
        } else {
            proof {
                assert forall|j: int| #[trigger] old(self).occupied(j) implies !(old(
                    self,
                ).in_subtree(j as usize, cur) && j != cur as int) by {
                    assert(old(self).ent(cur as int).parent is None);
                }
            }
        }
    }

    /// Inserts a node under `parent`, adds it to the parent's child list, and
    /// raises the aggregated size and entry count of every node on the parent
    /// chain. Returns the new node's stable index.
    #[verifier::rlimit(60)]
    pub fn add_node(&mut self, data: EntryData, parent: usize) -> (idx: usize)
        requires
            old(self).wf(),
            old(self).occupied(parent as int),
            old(self).ent(parent as int).kind is Directory,
            old(self).entries@.len() < usize::MAX,
            old(self).ent(0).aggregated as int + node_agg(data.kind, data.size) <= u64::MAX,
            old(self).ent(0).entry_count as int + node_cnt(data.kind) <= u64::MAX,
        ensures
            final(self).wf(),
            idx == old(self).entries@.len(),
            final(self).entries@.len() == old(self).entries@.len() + 1,
            final(self).occupied(idx as int),
            final(self).ent(idx as int).name == data.name,
            final(self).ent(idx as int).kind == data.kind,
            final(self).ent(idx as int).size == data.size,
            final(self).ent(idx as int).is_error == data.is_error,
            final(self).ent(idx as int).aggregated as int == node_agg(data.kind, data.size),
            final(self).ent(idx as int).entry_count as int == node_cnt(data.kind),
            final(self).ent(idx as int).children@.len() == 0,
            final(self).ent(idx as int).parent == Some(parent),
            forall|j: int|
                0 <= j < old(self).entries@.len() ==> (#[trigger] final(self).occupied(j) <==> old(
                    self,
                ).occupied(j)),
            forall|j: int|
                #[trigger] old(self).occupied(j) ==> {
                    if j == parent as int {
                        let e2 = final(self).ent(j);
                        let e1 = old(self).ent(j);
                        &&& e2.name == e1.name
                        &&& e2.kind == e1.kind
                        &&& e2.size == e1.size
                        &&& e2.is_error == e1.is_error
                        &&& e2.parent == e1.parent
                        &&& e2.children@ == e1.children@.push(idx)
                        &&& e2.aggregated as int == e1.aggregated as int + node_agg(
                            data.kind,
                            data.size,
                        )
                        &&& e2.entry_count as int == e1.entry_count as int + node_cnt(data.kind)
                    } else if old(self).in_subtree(j as usize, parent) {
                        bumped(
                            final(self).ent(j),
                            old(self).ent(j),
                            node_agg(data.kind, data.size),
                            node_cnt(data.kind),
                        )
                    } else {
                        final(self).ent(j) == old(self).ent(j)
                    }
                },
    {
        let idx = self.entries.len();
        let (agg0, cnt0): (u64, u64) = match data.kind {
            EntryKind::File => (data.size, 1),
            EntryKind::Directory => (0, 0),
        };
        let ghost da = node_agg(data.kind, data.size);
        let ghost dc = node_cnt(data.kind);
        proof {
            assert(agg0 as int == da && cnt0 as int == dc);
            // directories store the sum of their children, for both fields
            assert forall|m: int|
                #[trigger] old(self).occupied(m) && old(self).ent(m).kind is Directory implies (
            agg_field()(old(self).ent(m)) as int == sum_of(
                old(self).entries@,
                old(self).ent(m).children@,
                agg_field(),
            ) && cnt_field()(old(self).ent(m)) as int == sum_of(
                old(self).entries@,
                old(self).ent(m).children@,
                cnt_field(),
            )) by {
                assert(old(self).node_ok(m));
            }
            // every ancestor of `parent` can absorb the deltas
            assert forall|a: usize| #[trigger] old(self).in_subtree(a, parent) implies old(
                self,
            ).ent(a as int).aggregated as int + da <= u64::MAX && old(self).ent(
                a as int,
            ).entry_count as int + dc <= u64::MAX by {
                old(self).lemma_val_le_ancestor(a, parent, agg_field());
                old(self).lemma_all_in_root(a);
                old(self).lemma_val_le_ancestor(0, a, agg_field());
                old(self).lemma_val_le_ancestor(0, a, cnt_field());
                assert(val_of(old(self).entries@, a, agg_field()) == old(self).ent(
                    a as int,
                ).aggregated as int);
                assert(val_of(old(self).entries@, 0, agg_field()) == old(self).ent(
                    0,
                ).aggregated as int);
            }
            assert(old(self).in_subtree(parent, parent));
        }
        self.entries.push(
            Some(
                Entry {
                    name: data.name,
                    kind: data.kind,
                    size: data.size,
                    is_error: data.is_error,
                    aggregated: agg0,
                    entry_count: cnt0,
                    children: Vec::new(),
                    parent: Some(parent),
                },
            ),
        );
        match &mut self.entries[parent] {
            Some(pe) => {
                pe.children.push(idx);
                pe.aggregated = pe.aggregated + agg0;
                pe.entry_count = pe.entry_count + cnt0;
            },
            None => {},
        }
        let ghost t2 = *self;
        proof {
            // slots other than `parent` and `idx` are exactly as before
            assert forall|m: int|
                0 <= m < old(self).entries@.len() && m != parent as int implies t2.entries@[m]
                == old(self).entries@[m] by {}
            assert(t2.entries@.len() == old(self).entries@.len() + 1);
            assert forall|m: int| 0 <= m < old(self).entries@.len() implies (#[trigger] t2.occupied(
                m,
            ) <==> old(self).occupied(m)) by {}
            assert(t2.occupied(idx as int));
            assert forall|m: int| #[trigger] t2.occupied(m) implies t2.parent_shape_ok(m) by {
                if m < idx as int {
                    assert(t2.ent(m).parent == old(self).ent(m).parent);
                    assert(old(self).parent_shape_ok(m));
                } else {
                    assert(m == idx as int);
                    assert(t2.ent(m).parent == Some(parent));
                }
            }
            assert(t2.shapes_ok());
            // subtree membership below idx is as in the old tree
            assert forall|a: usize, jj: usize| #![trigger t2.in_subtree(a, jj)] jj < idx
                ==> t2.in_subtree(a, jj) == old(self).in_subtree(a, jj) by {
                if jj < idx {
                    t2.lemma_subtree_frame(*old(self), a, jj);
                }
            }
            // bounds for propagation
            assert forall|a: usize| #[trigger] t2.in_subtree(a, parent) && a != parent implies t2.ent(
                a as int,
            ).aggregated as int + agg0 <= u64::MAX && t2.ent(a as int).entry_count as int + cnt0
                <= u64::MAX by {
                t2.lemma_ancestor_le(a, parent);
                assert(old(self).in_subtree(a, parent));
                assert(t2.ent(a as int) == old(self).ent(a as int));
            }
        }
        self.propagate_add(parent, agg0, cnt0);
        proof {
            let t3 = *self;
            let oldt = *old(self);
            // idx is not an ancestor of parent, so propagation left it alone
            assert(t3.entries@.len() == t2.entries@.len());
            if t2.in_subtree(idx, parent) {
                t2.lemma_ancestor_le(idx, parent);
                assert(false);
            }
            assert(t2.occupied(idx as int));
            assert(t3.ent(idx as int) == t2.ent(idx as int));
            assert(t3.occupied(idx as int));
            // classify every old slot
            assert forall|j: int| #[trigger] oldt.occupied(j) implies {
                if j == parent as int {
                    let e2 = t3.ent(j);
                    let e1 = oldt.ent(j);
                    &&& e2.name == e1.name
                    &&& e2.kind == e1.kind
                    &&& e2.size == e1.size
                    &&& e2.is_error == e1.is_error
                    &&& e2.parent == e1.parent
                    &&& e2.children@ == e1.children@.push(idx)
                    &&& e2.aggregated as int == e1.aggregated as int + da
                    &&& e2.entry_count as int == e1.entry_count as int + dc
                } else if oldt.in_subtree(j as usize, parent) {
                    bumped(t3.ent(j), oldt.ent(j), da, dc)
                } else {
                    t3.ent(j) == oldt.ent(j)
                }
            } by {
                assert(t2.occupied(j));
                assert(0 <= j < idx as int);
                if j == parent as int {
                    if t2.in_subtree(parent, parent) && j != parent as int {
                        assert(false);
                    }
                    assert(t3.ent(j) == t2.ent(j));
                } else if oldt.in_subtree(j as usize, parent) {
                    assert(t2.in_subtree(j as usize, parent));
                    assert(t2.ent(j) == oldt.ent(j));
                    assert(bumped(t3.ent(j), t2.ent(j), da, dc));
                } else {
                    assert(!t2.in_subtree(j as usize, parent));
                    assert(t3.ent(j) == t2.ent(j));
                    assert(t2.ent(j) == oldt.ent(j));
                }
            }
            assert forall|m: int| 0 <= m < oldt.entries@.len() implies (#[trigger] t3.occupied(m)
                <==> oldt.occupied(m)) by {
                assert(t3.occupied(m) <==> t2.occupied(m));
            }
            // final well-formedness
            assert(t3.occupied(0) && t3.ent(0).kind is Directory) by {
                assert(oldt.occupied(0));
            }
            assert forall|j: int| #[trigger] t3.occupied(j) implies t3.parent_shape_ok(j)
                && t3.parent_contains_ok(j) && t3.children_ok(j) by {
                if j == idx as int {
                    assert(t3.ent(j).parent == Some(parent));
                    assert(t3.occupied(parent as int));
                    assert(t3.ent(parent as int).children@ == oldt.ent(
                        parent as int,
                    ).children@.push(idx));
                    assert(t3.ent(parent as int).children@.last() == idx);
                    assert(t3.ent(parent as int).children@.contains(idx));
                    assert(t3.ent(j).children@.len() == 0);
                } else {
                    assert(oldt.occupied(j));
                    assert(t3.ent(j).parent == oldt.ent(j).parent);
                    assert(oldt.parent_shape_ok(j));
                    assert(t3.parent_shape_ok(j));
                    if j != 0 {
                        let pj = oldt.ent(j).parent.unwrap();
                        assert(oldt.parent_contains_ok(j));
                        assert(oldt.ent(pj as int).children@.contains(j as usize));
                        if pj == parent {
                            let k = choose|k: int|
                                0 <= k < oldt.ent(pj as int).children@.len() && oldt.ent(
                                    pj as int,
                                ).children@[k] == j as usize;
                            assert(t3.ent(pj as int).children@[k] == j as usize);
                            assert(t3.ent(pj as int).children@.contains(j as usize));
                        } else {
                            assert(t3.ent(pj as int).children@ == oldt.ent(pj as int).children@);
                        }
                    }
                    // children links
                    let ch3 = t3.ent(j).children@;
                    let ch1 = oldt.ent(j).children@;
                    assert(oldt.children_ok(j));
                    if j == parent as int {
                        assert(ch3 == ch1.push(idx));
                        assert forall|k: int| 0 <= k < ch3.len() implies t3.child_link_ok(
                            j,
                            #[trigger] ch3[k],
                        ) by {
                            if k < ch1.len() {
                                assert(ch3[k] == ch1[k]);
                                assert(oldt.child_link_ok(j, ch1[k]));
                                assert(t3.occupied(ch1[k] as int));
                                assert(t3.ent(ch1[k] as int).parent == oldt.ent(
                                    ch1[k] as int,
                                ).parent);
                            } else {
                                assert(ch3[k] == idx);
                            }
                        }
                        assert forall|k1: int, k2: int|
                            #![trigger ch3[k1], ch3[k2]]
                            0 <= k1 < k2 < ch3.len() implies ch3[k1] != ch3[k2] by {
                            if k2 < ch1.len() {
                            } else {
                                assert(ch3[k2] == idx);
                                assert(oldt.child_link_ok(j, ch1[k1]));
                            }
                        }
                        assert(t3.ent(j).kind is Directory);
                    } else {
                        assert(ch3 == ch1);
                        assert forall|k: int| 0 <= k < ch3.len() implies t3.child_link_ok(
                            j,
                            #[trigger] ch3[k],
                        ) by {
                            assert(oldt.child_link_ok(j, ch1[k]));
                            assert(t3.occupied(ch1[k] as int));
                            assert(t3.ent(ch1[k] as int).parent == oldt.ent(ch1[k] as int).parent);
                        }
                        assert(t3.ent(j).kind == oldt.ent(j).kind);
                    }
                }
            }
            // aggregates everywhere
            assert forall|j: int| #[trigger] t3.occupied(j) implies t3.node_ok(j) by {
                if j == idx as int {
                    assert(t3.ent(j).children@.len() == 0);
                    assert(sum_of(t3.entries@, t3.ent(j).children@, agg_field()) == 0);
                    assert(sum_of(t3.entries@, t3.ent(j).children@, cnt_field()) == 0);
                } else {
                    assert(oldt.occupied(j));
                    assert(oldt.node_ok(j));
                    let ch1 = oldt.ent(j).children@;
                    if j == parent as int {
                        // old children keep their values; the new child adds the delta
                        assert forall|k: int| 0 <= k < ch1.len() implies val_of(
                            oldt.entries@,
                            #[trigger] ch1[k],
                            agg_field(),
                        ) == val_of(t3.entries@, ch1[k], agg_field()) && val_of(
                            oldt.entries@,
                            ch1[k],
                            cnt_field(),
                        ) == val_of(t3.entries@, ch1[k], cnt_field()) by {
                            let c = ch1[k];
                            assert(oldt.children_ok(j));
                            assert(oldt.child_link_ok(j, c));
                            assert(oldt.occupied(c as int));
                            assert(c as int != parent as int);
                            if oldt.in_subtree(c, parent) {
                                oldt.lemma_ancestor_le(c, parent);
                                assert(false);
                            }
                            assert(t3.occupied(c as int));
                            assert(t3.ent(c as int) == oldt.ent(c as int));
                        }
                        lemma_sum_frame(oldt.entries@, t3.entries@, ch1, agg_field());
                        lemma_sum_frame(oldt.entries@, t3.entries@, ch1, cnt_field());
                        lemma_sum_push(t3.entries@, ch1, agg_field(), idx);
                        lemma_sum_push(t3.entries@, ch1, cnt_field(), idx);
                        assert(val_of(t3.entries@, idx, agg_field()) == da);
                        assert(val_of(t3.entries@, idx, cnt_field()) == dc);
                        assert(t3.ent(j).kind is Directory);
                    } else if oldt.in_subtree(j as usize, parent) {
                        // exactly one child lies on the chain to `parent`
                        let cstar = oldt.chain_child(j as usize, parent);
                        assert(oldt.ent(j).children@.contains(cstar));
                        assert forall|k: int| 0 <= k < ch1.len() && ch1[k] != cstar implies val_of(
                            oldt.entries@,
                            #[trigger] ch1[k],
                            agg_field(),
                        ) == val_of(t3.entries@, ch1[k], agg_field()) && val_of(
                            oldt.entries@,
                            ch1[k],
                            cnt_field(),
                        ) == val_of(t3.entries@, ch1[k], cnt_field()) by {
                            let c = ch1[k];
                            assert(oldt.child_link_ok(j, c));
                            if oldt.in_subtree(c, parent) {
                                // c would be a second chain child of j
                                assert(oldt.ent(c as int).parent == Some(j as usize));
                                oldt.lemma_chain_child_unique(j as usize, parent, c, cstar);
                                assert(false);
                            }
                            assert(c != parent) by {
                                if c == parent {
                                    assert(oldt.in_subtree(c, parent));
                                }
                            }
                            assert(t3.occupied(c as int));
                            assert(t3.ent(c as int) == oldt.ent(c as int));
                        }
                        // the chain child gained exactly the delta
                        assert(val_of(t3.entries@, cstar, agg_field()) == val_of(
                            oldt.entries@,
                            cstar,
                            agg_field(),
                        ) + da && val_of(t3.entries@, cstar, cnt_field()) == val_of(
                            oldt.entries@,
                            cstar,
                            cnt_field(),
                        ) + dc) by {
                            assert(oldt.occupied(cstar as int));
                            if cstar == parent {
                            } else {
                                assert(oldt.in_subtree(cstar, parent));
                                assert(bumped(t3.ent(cstar as int), oldt.ent(cstar as int), da, dc));
                            }
                        }
                        lemma_sum_update(
                            oldt.entries@,
                            t3.entries@,
                            ch1,
                            agg_field(),
                            cstar,
                            da,
                        );
                        lemma_sum_update(
                            oldt.entries@,
                            t3.entries@,
                            ch1,
                            cnt_field(),
                            cstar,
                            dc,
                        );
                        assert(t3.ent(j).kind is Directory) by {
                            assert(oldt.children_ok(j));
                            assert(ch1.contains(cstar));
                            if oldt.ent(j).kind is File {
                                assert(false);
                            }
                        }
                        assert(bumped(t3.ent(j), oldt.ent(j), da, dc));
                    } else {
                        assert forall|k: int| 0 <= k < ch1.len() implies val_of(
                            oldt.entries@,
                            #[trigger] ch1[k],
                            agg_field(),
                        ) == val_of(t3.entries@, ch1[k], agg_field()) && val_of(
                            oldt.entries@,
                            ch1[k],
                            cnt_field(),
                        ) == val_of(t3.entries@, ch1[k], cnt_field()) by {
                            let c = ch1[k];
                            assert(oldt.children_ok(j));
                            assert(oldt.child_link_ok(j, c));
                            assert(oldt.occupied(c as int));
                            if c == parent || oldt.in_subtree(c, parent) {
                                assert(c != j as usize);
                                assert(oldt.ent(c as int).parent == Some(j as usize));
                                assert(oldt.in_subtree(j as usize, j as usize));
                                assert(oldt.in_subtree(j as usize, c));
                                if c == parent {
                                    assert(oldt.in_subtree(j as usize, parent));
                                } else {
                                    oldt.lemma_subtree_trans(j as usize, c, parent);
                                }
                                assert(false);
                            }
                            assert(t3.occupied(c as int));
                            assert(t3.ent(c as int) == oldt.ent(c as int));
                        }
                        lemma_sum_frame(oldt.entries@, t3.entries@, ch1, agg_field());
                        lemma_sum_frame(oldt.entries@, t3.entries@, ch1, cnt_field());
                        assert(t3.ent(j) == oldt.ent(j));
                    }
                }
            }
            assert(t3.wf());
        }
        idx
    }

    /// Subtracts the deltas from the stored aggregates of every strict
    /// ancestor of `cur`, leaving everything else untouched.
    fn propagate_sub(&mut self, cur: usize, d_agg: u64, d_cnt: u64)
        requires
            old(self).shapes_ok(),
            old(self).occupied(cur as int),
            forall|a: usize|
                #[trigger] old(self).in_subtree(a, cur) && a != cur ==> old(self).ent(
                    a as int,
                ).aggregated as int - d_agg >= 0 && old(self).ent(a as int).entry_count as int
                    - d_cnt >= 0,
        ensures
            final(self).entries@.len() == old(self).entries@.len(),
            forall|m: int| #[trigger] final(self).occupied(m) <==> old(self).occupied(m),
            forall|j: int|
                #[trigger] old(self).occupied(j) ==> if old(self).in_subtree(j as usize, cur) && j
                    != cur as int {
                    bumped(final(self).ent(j), old(self).ent(j), -(d_agg as int), -(d_cnt as int))
                } else {
                    final(self).ent(j) == old(self).ent(j)
                },
        decreases cur,
    {
        let n = self.entries.len();
        let parent_opt = match &self.entries[cur] {
            Some(e) => e.parent,
            None => None,
        };
        proof {
            assert(n == old(self).entries@.len());
            assert(parent_opt == old(self).ent(cur as int).parent);
        }
        if let Some(p) = parent_opt {
            proof {
                assert(old(self).parent_shape_ok(cur as int));
                assert(p < cur);
                assert(old(self).in_subtree(p, p));
                assert(old(self).in_subtree(p, cur) && p != cur);
            }
            match &mut self.entries[p] {
                Some(pe) => {
                    pe.aggregated = pe.aggregated - d_agg;
                    pe.entry_count = pe.entry_count - d_cnt;
                },
                None => {},
            }
            let ghost mid = *self;
            proof {
                assert forall|m: int|
                    0 <= m < mid.entries@.len() && m != p as int implies mid.entries@[m] == old(
                    self,
                ).entries@[m] by {}
                assert(mid.entries@.len() == old(self).entries@.len());
                assert forall|m: int| #[trigger] mid.occupied(m) <==> old(self).occupied(m) by {}
                assert forall|m: int| #[trigger] mid.occupied(m) implies mid.ent(m).parent == old(
                    self,
                ).ent(m).parent by {}
                assert(mid.shapes_ok());
                assert(bumped(
                    mid.ent(p as int),
                    old(self).ent(p as int),
                    -(d_agg as int),
                    -(d_cnt as int),
                ));
                assert forall|a: usize, j: usize| #![trigger mid.in_subtree(a, j)]
                    mid.in_subtree(a, j) == old(self).in_subtree(a, j) by {
                    mid.lemma_subtree_frame(*old(self), a, j);
                }
                assert forall|a: usize| #[trigger] mid.in_subtree(a, p) && a != p implies mid.ent(
                    a as int,
                ).aggregated as int - d_agg >= 0 && mid.ent(a as int).entry_count as int - d_cnt
                    >= 0 by {
                    mid.lemma_ancestor_le(a, p);
                    old(self).lemma_subtree_trans(a, p, cur);
                    assert(old(self).in_subtree(a, cur) && a != cur);
                    assert(mid.ent(a as int) == old(self).ent(a as int));
                }
            }
            self.propagate_sub(p, d_agg, d_cnt);
            proof {
                assert forall|j: int| #[trigger] old(self).occupied(j) implies if old(
                    self,
                ).in_subtree(j as usize, cur) && j != cur as int {
                    bumped(self.ent(j), old(self).ent(j), -(d_agg as int), -(d_cnt as int))
                } else {
                    self.ent(j) == old(self).ent(j)
                } by {
                    assert(mid.occupied(j));
                    if old(self).in_subtree(j as usize, cur) && j != cur as int {
                        if j == p as int {
                            if mid.in_subtree(p, p) && p as int != p as int {
                                assert(false);
                            }
                            assert(self.ent(j) == mid.ent(j));
                        } else {
                            assert(j as usize != cur);
                            assert(old(self).ent(cur as int).parent == Some(p));
                            assert(old(self).in_subtree(j as usize, p));
                            assert(bumped(self.ent(j), mid.ent(j), -(d_agg as int), -(d_cnt as int)));
                            assert(mid.ent(j) == old(self).ent(j));
                        }
                    } else {
                        if j == cur as int {
                            if mid.in_subtree(cur, p) {
                                mid.lemma_ancestor_le(cur, p);
                                assert(false);
                            }
                            assert(self.ent(j) == mid.ent(j));
                            assert(mid.ent(j) == old(self).ent(j));
                        } else {
                            assert(!old(self).in_subtree(j as usize, p));
                            assert(self.ent(j) == mid.ent(j));
                            assert(mid.ent(j) == old(self).ent(j));
                        }
                    }
                }
            }
        } else {
            proof {
                assert forall|j: int| #[trigger] old(self).occupied(j) implies !(old(
                    self,
                ).in_subtree(j as usize, cur) && j != cur as int) by {
                    assert(old(self).ent(cur as int).parent is None);
                }
            }
        }
    }

    /// After unlinking, every stored aggregate again matches its children.
    #[verifier::rlimit(60)]
    pub proof fn lemma_unlink_node_ok(oldt: Tree, t3: Tree, i: usize, p: usize, k: int, da: int, dc: int)
        requires
            oldt.entries@.len() <= usize::MAX,
            oldt.wf(),
            oldt.occupied(i as int),
            i != 0,
            oldt.ent(i as int).parent == Some(p),
            da == oldt.ent(i as int).aggregated as int,
            dc == oldt.ent(i as int).entry_count as int,
            0 <= k < oldt.ent(p as int).children@.len(),
            oldt.ent(p as int).children@[k] == i,
            t3.entries@.len() == oldt.entries@.len(),
            forall|m: int| #[trigger] t3.occupied(m) <==> oldt.occupied(m),
            unlink_classified(oldt, t3, i, p, k, da, dc),
        ensures
            forall|jj: int| #[trigger] t3.occupied(jj) ==> t3.node_ok(jj),
    {
        assert(oldt.parent_shape_ok(i as int));
        assert(oldt.occupied(p as int));
        assert forall|jj: int| #[trigger] t3.occupied(jj) implies t3.node_ok(jj) by {
            assert(oldt.occupied(jj));
            assert(oldt.node_ok(jj));
            assert(oldt.children_ok(jj));
            let ch1 = oldt.ent(jj).children@;
            if jj == p as int {
                let ch3 = t3.ent(jj).children@;
                assert(ch3 == ch1.remove(k));
                assert forall|m1: int| 0 <= m1 < ch3.len() implies val_of(
                    oldt.entries@,
                    #[trigger] ch3[m1],
                    agg_field(),
                ) == val_of(t3.entries@, ch3[m1], agg_field()) && val_of(
                    oldt.entries@,
                    ch3[m1],
                    cnt_field(),
                ) == val_of(t3.entries@, ch3[m1], cnt_field()) by {
                    let a1: int = if m1 < k {
                        m1
                    } else {
                        m1 + 1
                    };
                    assert(ch3[m1] == ch1[a1]);
                    let c = ch1[a1];
                    assert(oldt.child_link_ok(jj, c));
                    assert(oldt.occupied(c as int));
                    if oldt.in_subtree(c, p) {
                        oldt.lemma_ancestor_le(c, p);
                        assert(false);
                    }
                    assert(c as int != p as int);
                    assert(t3.ent(c as int) == oldt.ent(c as int));
                    assert(t3.occupied(c as int));
                }
                lemma_sum_frame(oldt.entries@, t3.entries@, ch3, agg_field());
                lemma_sum_frame(oldt.entries@, t3.entries@, ch3, cnt_field());
                lemma_sum_remove(oldt.entries@, ch1, agg_field(), k);
                lemma_sum_remove(oldt.entries@, ch1, cnt_field(), k);
                assert(val_of(oldt.entries@, i, agg_field()) == da);
                assert(val_of(oldt.entries@, i, cnt_field()) == dc);
                assert(ch1.contains(i));
                if oldt.ent(jj).kind is File {
                    assert(false);
                }
                assert(t3.ent(jj).kind is Directory);
                assert(t3.node_ok(jj));
            } else if oldt.in_subtree(jj as usize, p) {
                assert(0 <= jj < oldt.entries@.len());
                assert(jj as usize != p);
                let cstar = oldt.chain_child(jj as usize, p);
                assert(ch1.contains(cstar));
                assert forall|m1: int| 0 <= m1 < ch1.len() && ch1[m1] != cstar implies val_of(
                    oldt.entries@,
                    #[trigger] ch1[m1],
                    agg_field(),
                ) == val_of(t3.entries@, ch1[m1], agg_field()) && val_of(
                    oldt.entries@,
                    ch1[m1],
                    cnt_field(),
                ) == val_of(t3.entries@, ch1[m1], cnt_field()) by {
                    let c = ch1[m1];
                    assert(oldt.child_link_ok(jj, c));
                    assert(oldt.occupied(c as int));
                    if c == p || oldt.in_subtree(c, p) {
                        assert(oldt.in_subtree(c, p)) by {
                            if c == p {
                                assert(oldt.in_subtree(p, p));
                            }
                        }
                        assert(oldt.ent(c as int).parent == Some(jj as usize));
                        oldt.lemma_chain_child_unique(jj as usize, p, c, cstar);
                        assert(false);
                    }
                    assert(t3.ent(c as int) == oldt.ent(c as int));
                    assert(t3.occupied(c as int));
                }
                assert(val_of(t3.entries@, cstar, agg_field()) == val_of(
                    oldt.entries@,
                    cstar,
                    agg_field(),
                ) - da && val_of(t3.entries@, cstar, cnt_field()) == val_of(
                    oldt.entries@,
                    cstar,
                    cnt_field(),
                ) - dc) by {
                    assert(oldt.occupied(cstar as int));
                    assert(t3.occupied(cstar as int));
                    if cstar == p {
                    } else {
                        assert(bumped(t3.ent(cstar as int), oldt.ent(cstar as int), -da, -dc));
                    }
                }
                lemma_sum_update(oldt.entries@, t3.entries@, ch1, agg_field(), cstar, -da);
                lemma_sum_update(oldt.entries@, t3.entries@, ch1, cnt_field(), cstar, -dc);
                if oldt.ent(jj).kind is File {
                    assert(false);
                }
                assert(bumped(t3.ent(jj), oldt.ent(jj), -da, -dc));
                assert(t3.node_ok(jj));
            } else {
                assert forall|m1: int| 0 <= m1 < ch1.len() implies val_of(
                    oldt.entries@,
                    #[trigger] ch1[m1],
                    agg_field(),
                ) == val_of(t3.entries@, ch1[m1], agg_field()) && val_of(
                    oldt.entries@,
                    ch1[m1],
                    cnt_field(),
                ) == val_of(t3.entries@, ch1[m1], cnt_field()) by {
                    let c = ch1[m1];
                    assert(oldt.child_link_ok(jj, c));
                    assert(oldt.occupied(c as int));
                    if c == p || oldt.in_subtree(c, p) {
                        assert(c != jj as usize);
                        assert(oldt.ent(c as int).parent == Some(jj as usize));
                        assert(oldt.in_subtree(jj as usize, jj as usize));
                        assert(oldt.in_subtree(jj as usize, c));
                        if c == p {
                            assert(oldt.in_subtree(jj as usize, p));
                        } else {
                            oldt.lemma_subtree_trans(jj as usize, c, p);
                        }
                        assert(false);
                    }
                    assert(t3.ent(c as int) == oldt.ent(c as int));
                    assert(t3.occupied(c as int));
                }
                lemma_sum_frame(oldt.entries@, t3.entries@, ch1, agg_field());
                lemma_sum_frame(oldt.entries@, t3.entries@, ch1, cnt_field());
                assert(t3.ent(jj) == oldt.ent(jj));
                assert(t3.node_ok(jj));
            }
        }
    }

    /// After the subtree's slots are freed, the tree is well-formed again.
    #[verifier::rlimit(60)]
    pub proof fn lemma_free_wf(oldt: Tree, t3: Tree, nt: Tree, i: usize, p: usize, k: int, da: int, dc: int)
        requires
            oldt.entries@.len() <= usize::MAX,
            oldt.wf(),
            oldt.occupied(i as int),
            i != 0,
            oldt.ent(i as int).parent == Some(p),
            0 <= k < oldt.ent(p as int).children@.len(),
            oldt.ent(p as int).children@[k] == i,
            t3.entries@.len() == oldt.entries@.len(),
            forall|m: int| #[trigger] t3.occupied(m) <==> oldt.occupied(m),
            unlink_classified(oldt, t3, i, p, k, da, dc),
            forall|jj: int| #[trigger] t3.occupied(jj) ==> t3.node_ok(jj),
            nt.entries@.len() == oldt.entries@.len(),
            forall|m: int|
                0 <= m < nt.entries@.len() ==> #[trigger] nt.entries@[m] == (
                if oldt.in_subtree(i, m as usize) {
                    None
                } else {
                    t3.entries@[m]
                }),
        ensures
            nt.wf(),
            forall|m: int|
                0 <= m < oldt.entries@.len() ==> (#[trigger] nt.occupied(m) <==> (oldt.occupied(m)
                    && !oldt.in_subtree(i, m as usize))),
            forall|m: int| #[trigger] nt.occupied(m) ==> nt.ent(m) == t3.ent(m),
    {
        assert(oldt.parent_shape_ok(i as int));
        assert(oldt.occupied(p as int));
        assert(oldt.children_ok(p as int));
        assert forall|m: int|
            0 <= m < oldt.entries@.len() implies (#[trigger] nt.occupied(m) <==> (oldt.occupied(m)
                && !oldt.in_subtree(i, m as usize))) by {
            if oldt.in_subtree(i, m as usize) {
                assert(nt.entries@[m] is None);
                assert(!nt.occupied(m));
            } else {
                assert(nt.entries@[m] == t3.entries@[m]);
                assert(t3.occupied(m) <==> oldt.occupied(m));
                assert(nt.occupied(m) <==> t3.occupied(m));
            }
        }
        assert forall|m: int| #[trigger] nt.occupied(m) implies nt.ent(m) == t3.ent(m)
            && t3.occupied(m) && oldt.occupied(m) && !oldt.in_subtree(i, m as usize) by {}
        assert(oldt.in_subtree(i, i));
        assert(!oldt.in_subtree(i, 0)) by {
            assert(oldt.ent(0).parent is None);
        }
        assert(nt.occupied(0));
        assert(nt.ent(0).kind is Directory) by {
            if 0 == p as int {
            } else if oldt.in_subtree(0, p) {
            } else {
            }
        }
        assert(nt.ent(0).parent is None) by {
            if 0 == p as int {
            } else if oldt.in_subtree(0, p) {
            } else {
            }
        }
        assert forall|jj: int| #[trigger] nt.occupied(jj) implies nt.parent_shape_ok(jj)
            && nt.parent_contains_ok(jj) && nt.children_ok(jj) && nt.node_ok(jj) by {
            assert(jj != i as int);
            assert(nt.ent(jj) == t3.ent(jj));
            assert(t3.ent(jj).parent == oldt.ent(jj).parent) by {
                if jj == p as int {
                } else if oldt.in_subtree(jj as usize, p) {
                } else {
                }
            }
            if jj != 0 {
                let pj = oldt.ent(jj).parent.unwrap();
                assert(oldt.parent_shape_ok(jj));
                if oldt.in_subtree(i, pj) {
                    assert(oldt.in_subtree(i, jj as usize));
                    assert(false);
                }
                assert(nt.occupied(pj as int));
                assert(nt.parent_shape_ok(jj));
                assert(oldt.parent_contains_ok(jj));
                let chp_old = oldt.ent(pj as int).children@;
                assert(chp_old.contains(jj as usize));
                assert(nt.ent(pj as int) == t3.ent(pj as int));
                if pj == p {
                    let w = choose|w: int| 0 <= w < chp_old.len() && chp_old[w] == jj as usize;
                    assert(jj as usize != i);
                    assert(w != k);
                    assert(nt.ent(pj as int).children@ == chp_old.remove(k));
                    if w < k {
                        assert(chp_old.remove(k)[w] == jj as usize);
                    } else {
                        assert(chp_old.remove(k)[w - 1] == jj as usize);
                    }
                    assert(nt.ent(pj as int).children@.contains(jj as usize));
                } else {
                    assert(nt.ent(pj as int).children@ == chp_old) by {
                        if oldt.in_subtree(pj, p) {
                        } else {
                        }
                    }
                }
                assert(nt.parent_contains_ok(jj));
            }
            // children of a kept node were all kept
            let ch3 = nt.ent(jj).children@;
            let ch1 = oldt.ent(jj).children@;
            assert(oldt.children_ok(jj));
            if jj == p as int {
                assert(ch3 == ch1.remove(k));
                assert forall|m1: int, m2: int|
                    #![trigger ch3[m1], ch3[m2]]
                    0 <= m1 < m2 < ch3.len() implies ch3[m1] != ch3[m2] by {
                    let a1: int = if m1 < k {
                        m1
                    } else {
                        m1 + 1
                    };
                    let a2: int = if m2 < k {
                        m2
                    } else {
                        m2 + 1
                    };
                    assert(ch3[m1] == ch1[a1] && ch3[m2] == ch1[a2]);
                }
                assert forall|m1: int| 0 <= m1 < ch3.len() implies nt.child_link_ok(
                    jj,
                    #[trigger] ch3[m1],
                ) by {
                    let a1: int = if m1 < k {
                        m1
                    } else {
                        m1 + 1
                    };
                    assert(ch3[m1] == ch1[a1]);
                    let c = ch1[a1];
                    assert(oldt.child_link_ok(jj, c));
                    assert(c != i) by {
                        if a1 != k && c == i {
                            assert(ch1[k] == i);
                            assert(false);
                        }
                    }
                    assert(oldt.ent(c as int).parent == Some(p));
                    if oldt.in_subtree(i, c) {
                        assert(c != i);
                        assert(oldt.in_subtree(i, p));
                        assert(oldt.in_subtree(i, jj as usize));
                        assert(false);
                    }
                    assert(nt.occupied(c as int));
                    assert(nt.ent(c as int) == t3.ent(c as int));
                    assert(t3.ent(c as int).parent == oldt.ent(c as int).parent) by {
                        if c == p {
                        } else if oldt.in_subtree(c, p) {
                        } else {
                        }
                    }
                }
                assert(nt.ent(jj).kind == oldt.ent(jj).kind);
                assert(nt.children_ok(jj));
            } else {
                assert(ch3 == ch1) by {
                    if oldt.in_subtree(jj as usize, p) {
                    } else {
                    }
                }
                assert forall|m1: int| 0 <= m1 < ch3.len() implies nt.child_link_ok(
                    jj,
                    #[trigger] ch3[m1],
                ) by {
                    let c = ch1[m1];
                    assert(oldt.child_link_ok(jj, c));
                    assert(c != i) by {
                        if c == i {
                            assert(oldt.ent(i as int).parent == Some(jj as usize));
                            assert(jj == p as int);
                            assert(false);
                        }
                    }
                    if oldt.in_subtree(i, c) {
                        assert(c != i);
                        assert(oldt.ent(c as int).parent == Some(jj as usize));
                        assert(oldt.in_subtree(i, jj as usize));
                        assert(false);
                    }
                    assert(nt.occupied(c as int));
                    assert(nt.ent(c as int) == t3.ent(c as int));
                    assert(t3.ent(c as int).parent == oldt.ent(c as int).parent) by {
                        if c == p {
                        } else if oldt.in_subtree(c, p) {
                        } else {
                        }
                    }
                }
                assert(nt.ent(jj).kind == oldt.ent(jj).kind) by {
                    if oldt.in_subtree(jj as usize, p) {
                    } else {
                    }
                }
                assert(nt.children_ok(jj));
            }
            // aggregates carry over from the unlinked tree
            assert forall|m1: int| 0 <= m1 < ch3.len() implies val_of(
                t3.entries@,
                #[trigger] ch3[m1],
                agg_field(),
            ) == val_of(nt.entries@, ch3[m1], agg_field()) && val_of(
                t3.entries@,
                ch3[m1],
                cnt_field(),
            ) == val_of(nt.entries@, ch3[m1], cnt_field()) by {
                assert(nt.child_link_ok(jj, ch3[m1]));
                let c = ch3[m1];
                assert(nt.occupied(c as int));
                assert(t3.occupied(c as int));
                assert(nt.ent(c as int) == t3.ent(c as int));
            }
            lemma_sum_frame(t3.entries@, nt.entries@, ch3, agg_field());
            lemma_sum_frame(t3.entries@, nt.entries@, ch3, cnt_field());
            assert(t3.occupied(jj));
            assert(t3.node_ok(jj));
            assert(nt.node_ok(jj));
        }
        assert(nt.wf());
    }

    /// Detaches node `i` and its whole subtree: the parent's child list drops
    /// `i`, every ancestor's aggregates fall by the subtree's size and count,
    /// and each slot of the subtree is freed, never to be reused.
    #[verifier::rlimit(60)]
    pub fn remove_subtree(&mut self, i: usize)
        requires
            old(self).wf(),
            old(self).occupied(i as int),
            i != 0,
        ensures
            final(self).wf(),
            removed_frame(*old(self), *final(self), i),
    {
        let n = self.entries.len();
        let (d_agg, d_cnt): (u64, u64) = {
            let e = self.entries[i].as_ref().unwrap();
            (e.aggregated, e.entry_count)
        };
        let p = self.entries[i].as_ref().unwrap().parent.unwrap();
        proof {
            assert(old(self).parent_shape_ok(i as int));
            assert(old(self).parent_contains_ok(i as int));
            assert(old(self).ent(p as int).children@.contains(i));
            assert(old(self).children_ok(p as int));
            if old(self).ent(p as int).kind is File {
                assert(false);
            }
            assert(old(self).node_ok(p as int));
            lemma_sum_member(old(self).entries@, old(self).ent(p as int).children@, agg_field(), i);
            lemma_sum_member(old(self).entries@, old(self).ent(p as int).children@, cnt_field(), i);
            assert(old(self).ent(p as int).aggregated as int >= d_agg);
            assert(old(self).ent(p as int).entry_count as int >= d_cnt);
        }
        // find the (unique) position of `i` in the parent's child list
        let pc: usize = self.entries[p].as_ref().unwrap().children.len();
        let mut k: usize = 0;
        while k < pc && *self.entries[p].as_ref().unwrap().children.get(k).unwrap() != i
            invariant
                *self == *old(self),
                pc == old(self).ent(p as int).children@.len(),
                k <= pc,
                forall|m: int| 0 <= m < k ==> old(self).ent(p as int).children@[m] != i,
                old(self).ent(p as int).children@.contains(i),
                old(self).occupied(p as int),
            decreases pc - k,
        {
            k = k + 1;
        }
        proof {
            if k == pc {
                let w = choose|w: int|
                    0 <= w < old(self).ent(p as int).children@.len() && old(self).ent(
                        p as int,
                    ).children@[w] == i;
                assert(false);
            }
            assert(old(self).ent(p as int).children@[k as int] == i);
        }
        match &mut self.entries[p] {
            Some(pe) => {
                pe.children.remove(k);
                pe.aggregated = pe.aggregated - d_agg;
                pe.entry_count = pe.entry_count - d_cnt;
            },
            None => {},
        }
        let ghost t2 = *self;
        proof {
            assert forall|m: int|
                0 <= m < old(self).entries@.len() && m != p as int implies t2.entries@[m] == old(
                self,
            ).entries@[m] by {}
            assert(t2.entries@.len() == old(self).entries@.len());
            assert forall|m: int| #[trigger] t2.occupied(m) <==> old(self).occupied(m) by {}
            assert forall|m: int| #[trigger] t2.occupied(m) implies t2.ent(m).parent == old(
                self,
            ).ent(m).parent by {}
            assert(t2.shapes_ok());
            assert forall|a: usize, jj: usize| #![trigger t2.in_subtree(a, jj)]
                t2.in_subtree(a, jj) == old(self).in_subtree(a, jj) by {
                t2.lemma_subtree_frame(*old(self), a, jj);
            }
            // directories store sums, for the bound lemma
            assert forall|m: int|
                #[trigger] old(self).occupied(m) && old(self).ent(m).kind is Directory implies (
            agg_field()(old(self).ent(m)) as int == sum_of(
                old(self).entries@,
                old(self).ent(m).children@,
                agg_field(),
            ) && cnt_field()(old(self).ent(m)) as int == sum_of(
                old(self).entries@,
                old(self).ent(m).children@,
                cnt_field(),
            )) by {
                assert(old(self).node_ok(m));
            }
            assert forall|a: usize| #[trigger] t2.in_subtree(a, p) && a != p implies t2.ent(
                a as int,
            ).aggregated as int - d_agg >= 0 && t2.ent(a as int).entry_count as int - d_cnt
                >= 0 by {
                t2.lemma_ancestor_le(a, p);
                assert(old(self).in_subtree(a, p));
                assert(old(self).in_subtree(p, i)) by {
                    assert(old(self).in_subtree(p, p));
                }
                old(self).lemma_subtree_trans(a, p, i);
                old(self).lemma_val_le_ancestor(a, i, agg_field());
                old(self).lemma_val_le_ancestor(a, i, cnt_field());
                assert(t2.ent(a as int) == old(self).ent(a as int));
            }
        }
        self.propagate_sub(p, d_agg, d_cnt);
        let ghost t3 = *self;
        let ghost da = d_agg as int;
        let ghost dc = d_cnt as int;
        proof {
            assert(t3.entries@.len() == old(self).entries@.len());
            assert forall|m: int| #[trigger] t3.occupied(m) <==> old(self).occupied(m) by {
                assert(t3.occupied(m) <==> t2.occupied(m));
            }
            assert forall|j: int| #[trigger] old(self).occupied(j) implies {
                if j == p as int {
                    let e2 = t3.ent(j);
                    let e1 = old(self).ent(j);
                    &&& e2.name == e1.name
                    &&& e2.kind == e1.kind
                    &&& e2.size == e1.size
                    &&& e2.is_error == e1.is_error
                    &&& e2.parent == e1.parent
                    &&& e2.children@ == e1.children@.remove(k as int)
                    &&& e2.aggregated as int == e1.aggregated as int - da
                    &&& e2.entry_count as int == e1.entry_count as int - dc
                } else if old(self).in_subtree(j as usize, p) {
                    bumped(t3.ent(j), old(self).ent(j), -da, -dc)
                } else {
                    t3.ent(j) == old(self).ent(j)
                }
            } by {
                assert(t2.occupied(j));
                if j == p as int {
                    if t2.in_subtree(p, p) && j != p as int {
                        assert(false);
                    }
                    assert(t3.ent(j) == t2.ent(j));
                } else if old(self).in_subtree(j as usize, p) {
                    assert(t2.in_subtree(j as usize, p));
                    assert(t2.ent(j) == old(self).ent(j));
                    assert(bumped(t3.ent(j), t2.ent(j), -da, -dc));
                } else {
                    assert(!t2.in_subtree(j as usize, p));
                    assert(t3.ent(j) == t2.ent(j));
                    assert(t2.ent(j) == old(self).ent(j));
                }
            }
            assert(unlink_classified(*old(self), t3, i, p, k as int, da, dc));
            Tree::lemma_unlink_node_ok(*old(self), t3, i, p, k as int, da, dc);
            assert(t3.shapes_ok()) by {
                assert forall|m: int| #[trigger] t3.occupied(m) implies t3.parent_shape_ok(m) by {
                    assert(old(self).occupied(m));
                    assert(t3.ent(m).parent == old(self).ent(m).parent) by {
                        if m == p as int {
                        } else if old(self).in_subtree(m as usize, p) {
                        } else {
                        }
                    }
                    assert(old(self).parent_shape_ok(m));
                }
            }
            assert forall|a: usize, jj: usize| #![trigger t3.in_subtree(a, jj)]
                t3.in_subtree(a, jj) == old(self).in_subtree(a, jj) by {
                t3.lemma_subtree_frame(*old(self), a, jj);
            }
        }
        // mark the subtree of `i`
        let mut mark: Vec<bool> = Vec::new();
        let mut j: usize = 0;
        while j < n
            invariant
                *self == t3,
                n == t3.entries@.len(),
                j <= n,
                mark@.len() == j as int,
                t3.shapes_ok(),
                forall|m: int| 0 <= m < j ==> (#[trigger] mark@[m] == t3.in_subtree(i, m as usize)),
            decreases n - j,
        {
            let is_sub: bool = if j == i {
                true
            } else {
                match &self.entries[j] {
                    Some(e) => match e.parent {
                        Some(pp) => {
                            proof {
                                assert(t3.occupied(j as int));
                                assert(t3.parent_shape_ok(j as int));
                            }
                            if pp < j {
                                mark[pp]
                            } else {
                                false
                            }
                        },
                        None => false,
                    },
                    None => false,
                }
            };
            mark.push(is_sub);
            j = j + 1;
        }
        // free every marked slot
        let ghost markv = mark@;
        let mut j2: usize = 0;
        while j2 < n
            invariant
                n == self.entries@.len(),
                n == t3.entries@.len(),
                j2 <= n,
                mark@ == markv,
                markv.len() == n as int,
                forall|m: int| 0 <= m < n ==> (#[trigger] markv[m] == t3.in_subtree(i, m as usize)),
                forall|m: int|
                    0 <= m < n ==> #[trigger] self.entries@[m] == (if m < j2 && markv[m] {
                        None
                    } else {
                        t3.entries@[m]
                    }),
            decreases n - j2,
        {
            if mark[j2] {
                let slot = &mut self.entries[j2];
                *slot = None;
            }
            j2 = j2 + 1;
        }
        proof {
            let nt = *self;
            let oldt = *old(self);
            assert(n == oldt.entries@.len());
            assert forall|m: int|
                0 <= m < nt.entries@.len() implies #[trigger] nt.entries@[m] == (
            if oldt.in_subtree(i, m as usize) {
                None
            } else {
                t3.entries@[m]
            }) by {
                assert(markv[m] == t3.in_subtree(i, m as usize));
                assert(t3.in_subtree(i, m as usize) == oldt.in_subtree(i, m as usize));
            }
            Tree::lemma_free_wf(oldt, t3, nt, i, p, k as int, da, dc);
            // tie the parent clause to index_of, and map kept entries back
            let e1 = oldt.ent(p as int);
            let kk = e1.children@.index_of(i);
            assert(e1.children@[k as int] == i);
            assert(e1.children@.contains(i));
            assert(e1.children@[kk] == i);
            assert(oldt.children_ok(p as int));
            assert(kk == k as int);
            assert(!oldt.in_subtree(i, p)) by {
                if oldt.in_subtree(i, p) {
                    oldt.lemma_ancestor_le(i, p);
                    assert(oldt.parent_shape_ok(i as int));
                    assert(false);
                }
            }
            assert forall|jx: int|
                #[trigger] oldt.occupied(jx) && !oldt.in_subtree(i, jx as usize) implies nt.ent(jx)
                == t3.ent(jx) && nt.occupied(jx) by {}
        }
    }
}

} // verus!
