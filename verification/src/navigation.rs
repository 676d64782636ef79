//! Cursor and selection state over one view of the tree: the node whose
//! children are on screen, the selected entry, and a history of prior
//! positions pushed on `enter` and popped on `leave`.

use vstd::prelude::*;

use crate::sorted::EntryDataBundle;
use crate::tree::Tree;

verus! {

/// Cursor/selection state over a view, with enter/leave history.
pub struct Navigation {
    pub view_root: usize,
    pub selected: Option<usize>,
    pub history: Vec<(usize, Option<usize>)>,
}

impl Default for Navigation {
    /// Starts at the root with nothing selected and no history.
    fn default() -> (d: Self)
        ensures
            d.view_root == 0,
            d.selected is None,
            d.history@.len() == 0,
    {
        Navigation { view_root: 0, selected: None, history: Vec::new() }
    }
}

/// What `enter` does: the prior position is pushed, the view moves to
/// `index`, and the first listed entry (if any) is selected.
pub open spec fn entered(
    o: Navigation,
    n: Navigation,
    index: usize,
    entries: Seq<EntryDataBundle>,
) -> bool {
    &&& n.history@ == o.history@.push((o.view_root, o.selected))
    &&& n.view_root == index
    &&& n.selected == (if entries.len() == 0 {
        None::<usize>
    } else {
        Some(entries[0].index)
    })
}

/// What `leave` does: the latest history entry is popped, or nothing happens
/// when there is none.
pub open spec fn left(o: Navigation, n: Navigation, r: bool) -> bool {
    if o.history@.len() == 0 {
        &&& !r
        &&& n.view_root == o.view_root
        &&& n.selected == o.selected
        &&& n.history@ == o.history@
    } else {
        &&& r
        &&& n.view_root == o.history@.last().0
        &&& n.selected == o.history@.last().1
        &&& n.history@ == o.history@.drop_last()
    }
}

/// The first position in `entries` holding the entry `target`, or the length
/// when no position does.
pub open spec fn find_pos(entries: Seq<EntryDataBundle>, target: usize) -> int
    decreases entries.len(),
{
    if entries.len() == 0 {
        0
    } else if entries[0].index == target {
        0
    } else {
        1 + find_pos(entries.drop_first(), target)
    }
}

pub proof fn lemma_find_pos(entries: Seq<EntryDataBundle>, target: usize)
    ensures
        0 <= find_pos(entries, target) <= entries.len(),
        find_pos(entries, target) < entries.len() ==> entries[find_pos(entries, target)].index
            == target,
        forall|m: int| 0 <= m < find_pos(entries, target) ==> (#[trigger] entries[m]).index != target,
    decreases entries.len(),
{
    if entries.len() > 0 && entries[0].index != target {
        lemma_find_pos(entries.drop_first(), target);
        assert forall|m: int| 0 <= m < find_pos(entries, target) implies (#[trigger] entries[m]).index
            != target by {
            if m >= 1 {
                assert(entries[m] == entries.drop_first()[m - 1]);
            }
        }
    }
}

/// The first position whose entry's full path is `path`, or the length.
pub open spec fn restore_pos(t: Tree, entries: Seq<EntryDataBundle>, path: Seq<u8>) -> int
    decreases entries.len(),
{
    if entries.len() == 0 {
        0
    } else if t.path_spec(entries[0].index) == path {
        0
    } else {
        1 + restore_pos(t, entries.drop_first(), path)
    }
}

pub proof fn lemma_restore_pos(t: Tree, entries: Seq<EntryDataBundle>, path: Seq<u8>)
    ensures
        0 <= restore_pos(t, entries, path) <= entries.len(),
        restore_pos(t, entries, path) < entries.len() ==> t.path_spec(
            entries[restore_pos(t, entries, path)].index,
        ) == path,
        forall|m: int|
            0 <= m < restore_pos(t, entries, path) ==> t.path_spec((#[trigger] entries[m]).index)
                != path,
    decreases entries.len(),
{
    if entries.len() > 0 && t.path_spec(entries[0].index) != path {
        lemma_restore_pos(t, entries.drop_first(), path);
        assert forall|m: int|
            0 <= m < restore_pos(t, entries, path) implies t.path_spec(
            (#[trigger] entries[m]).index,
        ) != path by {
            if m >= 1 {
                assert(entries[m] == entries.drop_first()[m - 1]);
            }
        }
    }
}

/// The clamped position reached from `cur` by `delta` steps in a list of
/// `len` entries: never past either end, no wraparound.
pub open spec fn moved_pos(cur: int, delta: int, len: int) -> int {
    let raw = cur + delta;
    if raw < 0 {
        0
    } else if raw > len - 1 {
        len - 1
    } else {
        raw
    }
}

impl Navigation {
    /// Descends into `index`: remembers the current position on the history
    /// stack and selects the first of the new entries, if any.
    pub fn enter(&mut self, index: usize, entries: &Vec<EntryDataBundle>)
        ensures
            entered(*old(self), *final(self), index, entries@),
    {
        self.history.push((self.view_root, self.selected));
        self.view_root = index;
        self.selected = if entries.len() == 0 {
            None
        } else {
            Some(entries[0].index)
        };
    }

    /// Returns to the position before the last `enter`; stays put (and
    /// returns false) when the history is empty.
    pub fn leave(&mut self) -> (r: bool)
        ensures
            left(*old(self), *final(self), r),
    {
        match self.history.pop() {
            Some((root, sel)) => {
                self.view_root = root;
                self.selected = sel;
                true
            },
            None => false,
        }
    }

    /// Shifts the selection by `delta` positions within `entries`, clamped at
    /// both ends; an entry not found counts as the first position.
    pub fn move_selection(&mut self, delta: isize, entries: &Vec<EntryDataBundle>)
        ensures
            final(self).view_root == old(self).view_root,
            final(self).history@ == old(self).history@,
            entries@.len() == 0 ==> final(self).selected is None,
            entries@.len() > 0 ==> {
                let cur = match old(self).selected {
                    Some(s) => if find_pos(entries@, s) < entries@.len() {
                        find_pos(entries@, s)
                    } else {
                        0
                    },
                    None => 0,
                };
                final(self).selected == Some(
                    entries@[moved_pos(cur, delta as int, entries@.len() as int)].index,
                )
            },
    {
        if entries.len() == 0 {
            self.selected = None;
            return ;
        }
        let cur: usize = match self.selected {
            Some(s) => {
                let ghost fp = find_pos(entries@, s);
                proof {
                    lemma_find_pos(entries@, s);
                }
                let mut m: usize = 0;
                let mut found: usize = entries.len();
                while m < entries.len() && found == entries.len()
                    invariant
                        m <= entries@.len(),
                        found == entries@.len() || (found < m && entries@[found as int].index == s),
                        forall|q: int|
                            0 <= q < m && q < found as int ==> (#[trigger] entries@[q]).index != s,
                    decreases entries@.len() - m,
                {
                    if entries[m].index == s {
                        found = m;
                    }
                    m = m + 1;
                }
                proof {
                    if found < entries@.len() {
                        assert(found as int == fp) by {
                            if (found as int) < fp {
                                assert(entries@[found as int].index != s);
                            }
                            if (found as int) > fp {
                                assert(entries@[fp].index == s);
                            }
                        }
                    } else {
                        assert(fp == entries@.len()) by {
                            if fp < entries@.len() {
                                assert(entries@[fp].index == s);
                            }
                        }
                    }
                }
                if found < entries.len() {
                    found
                } else {
                    0
                }
            },
            None => 0,
        };
        let len = entries.len();
        let target: usize = if delta >= 0 {
            let d = delta as usize;
            if d >= len - cur {
                // past the end of the list: clamp to the last entry
                len - 1
            } else {
                cur + d
            }
        } else {
            let d = if delta == isize::MIN {
                (isize::MAX as usize) + 1
            } else {
                (-delta) as usize
            };
            if d >= cur + 1 {
                0
            } else {
                cur - d
            }
        };
        proof {
            assert(target as int == moved_pos(cur as int, delta as int, entries@.len() as int));
        }
        self.selected = Some(entries[target].index);
    }

    /// Re-anchors the cursor after a rescan: selects the entry whose full
    /// path matches `path`, else the first entry, else nothing.
    pub fn restore_selection(&mut self, path: &Vec<u8>, tree: &Tree, entries: &Vec<EntryDataBundle>)
        requires
            tree.shapes_ok(),
            forall|m: int| 0 <= m < entries@.len() ==> tree.occupied((#[trigger] entries@[m]).index as int),
        ensures
            final(self).view_root == old(self).view_root,
            final(self).history@ == old(self).history@,
            ({
                let rp = restore_pos(*tree, entries@, path@);
                if rp < entries@.len() {
                    final(self).selected == Some(entries@[rp].index)
                } else if entries@.len() > 0 {
                    final(self).selected == Some(entries@[0].index)
                } else {
                    final(self).selected is None
                }
            }),
    {
        proof {
            lemma_restore_pos(*tree, entries@, path@);
        }
        let ghost rp = restore_pos(*tree, entries@, path@);
        let mut m: usize = 0;
        let mut found: usize = entries.len();
        while m < entries.len() && found == entries.len()
            invariant
                tree.shapes_ok(),
                forall|q: int| 0 <= q < entries@.len() ==> tree.occupied((#[trigger] entries@[q]).index as int),
                m <= entries@.len(),
                found == entries@.len() || (found < m && tree.path_spec(entries@[found as int].index)
                    == path@),
                forall|q: int|
                    0 <= q < m && q < found as int ==> tree.path_spec((#[trigger] entries@[q]).index)
                        != path@,
            decreases entries@.len() - m,
        {
            let p = tree.path_of(entries[m].index);
            let mut same: bool = p.len() == path.len();
            let mut q: usize = 0;
            while q < p.len()
                invariant
                    q <= p@.len(),
                    same ==> p@.len() == path@.len(),
                    same ==> forall|w: int| 0 <= w < q ==> p@[w] == path@[w],
                    !same ==> p@ != path@,
                decreases p@.len() - q,
            {
                if same {
                    if *p.get(q).unwrap() != *path.get(q).unwrap() {
                        proof {
                            assert(p@[q as int] != path@[q as int]);
                        }
                        same = false;
                    }
                }
                q = q + 1;
            }
            proof {
                if same {
                    assert(p@ =~= path@);
                }
            }
            if same {
                found = m;
            }
            m = m + 1;
        }
        proof {
            if found < entries@.len() {
                assert(found as int == rp) by {
                    if (found as int) < rp {
                        assert(tree.path_spec(entries@[found as int].index) != path@);
                    }
                    if (found as int) > rp {
                        assert(tree.path_spec(entries@[rp].index) == path@);
                    }
                }
            } else {
                assert(rp == entries@.len()) by {
                    if rp < entries@.len() {
                        assert(tree.path_spec(entries@[rp].index) == path@);
                    }
                }
            }
        }
        if found < entries.len() {
            self.selected = Some(entries[found].index);
        } else if entries.len() > 0 {
            self.selected = Some(entries[0].index);
        } else {
            self.selected = None;
        }
    }
}

/// Entering a node and then leaving restores the exact prior view root,
/// selection and history.
pub proof fn lemma_enter_leave_restores(
    before: Navigation,
    mid: Navigation,
    after: Navigation,
    index: usize,
    entries: Seq<EntryDataBundle>,
    r: bool,
)
    requires
        entered(before, mid, index, entries),
        left(mid, after, r),
    ensures
        r,
        after.view_root == before.view_root,
        after.selected == before.selected,
        after.history@ == before.history@,
{
    assert(mid.history@.len() > 0);
    assert(mid.history@.last() == (before.view_root, before.selected));
    assert(mid.history@.drop_last() =~= before.history@);
}

} // verus!
