//! The event-driven application state: one or two navigations (main and an
//! optional glob-filtered one), the displayed entry list, sort mode, marks,
//! focused pane, scan lifecycle and transient messages. Input events are
//! dispatched per focused pane; outside work (walking, drawing, deleting) is
//! requested through returned actions and answered through further calls.

use vstd::prelude::*;

use crate::navigation::{entered, find_pos, moved_pos, restore_pos, Navigation};
use crate::sorted::{sorted_entries, view_ok, EntryDataBundle, SortMode};
use crate::tree::Tree;

verus! {

/// The active modal context, governing which keymap applies and which
/// navigation receives movement commands.
#[derive(Clone, Copy, PartialEq, Eq, Structural, Debug)]
pub enum FocussedPane {
    Main,
    Help,
    Mark,
    Glob,
}

impl Default for FocussedPane {
    /// Focus starts on the main pane.
    fn default() -> (d: Self)
        ensures
            d is Main,
    {
        FocussedPane::Main
    }
}

/// Terminal cursor position and visibility, as handed to the renderer.
#[derive(Clone, Copy, PartialEq, Eq, Structural, Debug)]
pub struct Cursor {
    pub show: bool,
    pub x: u16,
    pub y: u16,
}

impl Default for Cursor {
    /// Hidden, at the origin.
    fn default() -> (d: Self)
        ensures
            !d.show,
            d.x == 0,
            d.y == 0,
    {
        Cursor { show: false, x: 0, y: 0 }
    }
}

/// Which optional columns the entry list displays.
#[derive(Clone, Copy, PartialEq, Eq, Structural, Debug)]
pub struct ColumnSet {
    pub count: bool,
    pub percent: bool,
}

/// Opaque traversal configuration, consumed only by the walking collaborator.
#[derive(Clone, Copy, PartialEq, Eq, Structural, Debug)]
pub struct WalkOptions {
    pub follow_symlinks: bool,
    pub cross_filesystems: bool,
}

/// Monotonically increasing counters reported by the traversal worker.
#[derive(Clone, Copy, PartialEq, Eq, Structural, Debug)]
pub struct TraversalStats {
    pub entries_traversed: u64,
    pub io_errors: u64,
    pub total_bytes: u64,
    pub elapsed_millis: u64,
}

impl Default for TraversalStats {
    /// All counters at zero.
    fn default() -> (d: Self)
        ensures
            d.entries_traversed == 0,
            d.io_errors == 0,
            d.total_bytes == 0,
            d.elapsed_millis == 0,
    {
        TraversalStats { entries_traversed: 0, io_errors: 0, total_bytes: 0, elapsed_millis: 0 }
    }
}

/// The saturating sum of two counter snapshots, field by field.
pub open spec fn merged_stats(a: TraversalStats, b: TraversalStats) -> TraversalStats {
    TraversalStats {
        entries_traversed: sat_add(a.entries_traversed, b.entries_traversed),
        io_errors: sat_add(a.io_errors, b.io_errors),
        total_bytes: sat_add(a.total_bytes, b.total_bytes),
        elapsed_millis: sat_add(a.elapsed_millis, b.elapsed_millis),
    }
}

pub open spec fn sat_add(a: u64, b: u64) -> u64 {
    if a + b <= u64::MAX {
        (a + b) as u64
    } else {
        u64::MAX
    }
}

impl TraversalStats {
    /// Adds a delta snapshot onto these counters, saturating at the top.
    pub fn merge(&mut self, delta: &TraversalStats)
        ensures
            *final(self) == merged_stats(*old(self), *delta),
    {
        self.entries_traversed = if self.entries_traversed <= u64::MAX - delta.entries_traversed {
            self.entries_traversed + delta.entries_traversed
        } else {
            u64::MAX
        };
        self.io_errors = if self.io_errors <= u64::MAX - delta.io_errors {
            self.io_errors + delta.io_errors
        } else {
            u64::MAX
        };
        self.total_bytes = if self.total_bytes <= u64::MAX - delta.total_bytes {
            self.total_bytes + delta.total_bytes
        } else {
            u64::MAX
        };
        self.elapsed_millis = if self.elapsed_millis <= u64::MAX - delta.elapsed_millis {
            self.elapsed_millis + delta.elapsed_millis
        } else {
            u64::MAX
        };
    }
}

/// The terminal outcome of the event loop.
#[derive(Clone, Copy, PartialEq, Eq, Structural, Debug)]
pub struct WalkResult {
    pub num_errors: u64,
}

/// Present exactly while a traversal is in flight: remembers the selected
/// entry's path and list position from scan start, to re-anchor the cursor
/// once the rescanned tree is rebuilt.
pub struct FilesystemScan {
    pub previous_selection: Option<(Vec<u8>, usize)>,
}

/// A transient, user-visible note; cleared on the next user action.
#[derive(Clone, Copy, PartialEq, Eq, Structural, Debug)]
pub enum Message {
    /// Deleting the entry at this index failed; its node was left in place.
    DeletionFailed(usize),
}

/// A semantic input key, already decoded from the raw terminal event.
#[derive(Clone, Copy, PartialEq, Eq, Structural, Debug)]
pub enum KeyInput {
    Down,
    Up,
    Enter,
    Leave,
    SortBySize,
    SortByName,
    SortByCount,
    OpenHelp,
    OpenMark,
    OpenGlob,
    ToggleCountColumn,
    TogglePercentColumn,
    ToggleMark,
    Confirm,
    Cancel,
    Edit(u8),
    Backspace,
    Quit,
}

/// One input event, independently dispatchable.
#[derive(Clone, Copy, PartialEq, Eq, Structural, Debug)]
pub enum Event {
    Key(KeyInput),
    Resize,
    Tick,
}

/// What the event loop must do next on the state's behalf.
pub enum Action {
    Nothing,
    /// Attempt the external deletion of each listed entry, then report each
    /// outcome through `delete_result`.
    DeleteMarked(Vec<usize>),
    /// Cancel and join any active traversal, then leave the loop.
    Quit,
}

/// Error returned when a traversal is requested while one is active.
#[derive(Clone, Copy, PartialEq, Eq, Structural, Debug)]
pub enum TraverseError {
    AlreadyRunning,
}

/// The selection is sound for a list: absent only when the list is empty,
/// otherwise one of the listed entries.
pub open spec fn selection_in(entries: Seq<EntryDataBundle>, sel: Option<usize>) -> bool {
    match sel {
        None => entries.len() == 0,
        Some(s) => exists|m: int| 0 <= m < entries.len() && (#[trigger] entries[m]).index == s,
    }
}

/// The application state machine.
pub struct AppState {
    pub navigation: Navigation,
    pub glob_navigation: Option<Navigation>,
    pub glob_pattern: Vec<u8>,
    pub entries: Vec<EntryDataBundle>,
    pub sorting: SortMode,
    pub show_columns: ColumnSet,
    pub message: Option<Message>,
    pub focussed: FocussedPane,
    pub received_events: bool,
    pub scan: Option<FilesystemScan>,
    pub stats: TraversalStats,
    pub walk_options: WalkOptions,
    pub marked: Vec<usize>,
}

/// The navigation that receives movement commands: the glob one while the
/// glob view is active, else the main one.
pub open spec fn active_nav(s: AppState) -> Navigation {
    match s.glob_navigation {
        Some(g) => g,
        None => s.navigation,
    }
}

/// The pattern the displayed list is filtered by, if any.
pub open spec fn active_pat(s: AppState) -> Option<Seq<u8>> {
    if s.glob_navigation is Some {
        Some(s.glob_pattern@)
    } else {
        None
    }
}

/// The displayed list is the view builder's output for the active
/// navigation, and the selection points into it.
pub open spec fn display_ok(s: AppState, t: Tree) -> bool {
    &&& view_ok(t, active_nav(s).view_root, active_pat(s), s.sorting, s.entries@)
    &&& selection_in(s.entries@, active_nav(s).selected)
}

impl AppState {
    /// A fresh state: main navigation at the root, nothing listed, nothing
    /// marked, no scan, default sorting, focus on the main pane.
    pub fn new(walk_options: WalkOptions) -> (s: AppState)
        ensures
            s.navigation.view_root == 0,
            s.navigation.selected is None,
            s.navigation.history@.len() == 0,
            s.glob_navigation is None,
            s.glob_pattern@.len() == 0,
            s.entries@.len() == 0,
            s.sorting is SizeDescending,
            !s.show_columns.count,
            !s.show_columns.percent,
            s.message is None,
            s.focussed is Main,
            !s.received_events,
            s.scan is None,
            s.stats.entries_traversed == 0,
            s.stats.io_errors == 0,
            s.stats.total_bytes == 0,
            s.stats.elapsed_millis == 0,
            s.walk_options == walk_options,
            s.marked@.len() == 0,
    {
        AppState {
            navigation: Navigation::default(),
            glob_navigation: None,
            glob_pattern: Vec::new(),
            entries: Vec::new(),
            sorting: SortMode::default(),
            show_columns: ColumnSet { count: false, percent: false },
            message: None,
            focussed: FocussedPane::default(),
            received_events: false,
            scan: None,
            stats: TraversalStats::default(),
            walk_options,
            marked: Vec::new(),
        }
    }

    /// Recomputes the displayed list from the tree for the active navigation
    /// and re-anchors the selection: kept when still listed, else the first
    /// entry, else none.
    pub fn refresh_entries(&mut self, tree: &Tree)
        requires
            tree.wf(),
            tree.occupied(active_nav(*old(self)).view_root as int),
        ensures
            display_ok(*final(self), *tree),
            active_nav(*final(self)).view_root == active_nav(*old(self)).view_root,
            active_nav(*final(self)).history@ == active_nav(*old(self)).history@,
            final(self).sorting == old(self).sorting,
            final(self).glob_pattern == old(self).glob_pattern,
            final(self).glob_navigation is Some <==> old(self).glob_navigation is Some,
            final(self).navigation.view_root == old(self).navigation.view_root,
            final(self).focussed == old(self).focussed,
            final(self).scan == old(self).scan,
            final(self).stats == old(self).stats,
            final(self).walk_options == old(self).walk_options,
            final(self).marked@ == old(self).marked@,
            final(self).message == old(self).message,
            final(self).received_events == old(self).received_events,
            final(self).show_columns == old(self).show_columns,
            final(self).glob_navigation is Some ==> old(self).glob_navigation is Some
                && final(self).glob_navigation.unwrap().view_root == old(self).glob_navigation.unwrap().view_root && final(self).glob_navigation.unwrap().history@
                == old(self).glob_navigation.unwrap().history@,
            final(self).navigation.history@ == old(self).navigation.history@,
            // the filtered view is independent of the main navigation
            old(self).glob_navigation is Some ==> final(self).navigation == old(self).navigation,
            // a still-listed selection is kept
            forall|s: usize|
                active_nav(*old(self)).selected == Some(s) && (exists|m: int|
                    0 <= m < final(self).entries@.len() && (#[trigger] final(self).entries@[m]).index
                        == s) ==> active_nav(*final(self)).selected == Some(s),
            // a dead or absent selection falls back to the first entry
            ({
                let keepable = match active_nav(*old(self)).selected {
                    Some(s) => exists|m: int|
                        0 <= m < final(self).entries@.len() && (
                        #[trigger] final(self).entries@[m]).index == s,
                    None => false,
                };
                final(self).entries@.len() > 0 && !keepable ==> active_nav(*final(self)).selected
                    == Some(final(self).entries@[0].index)
            }),
    {
        let root = match &self.glob_navigation {
            Some(g) => g.view_root,
            None => self.navigation.view_root,
        };
        let new_entries = match &self.glob_navigation {
            Some(_) => sorted_entries(tree, root, self.sorting, Some(&self.glob_pattern)),
            None => sorted_entries(tree, root, self.sorting, None),
        };
        self.entries = new_entries;
        let cur_sel: Option<usize> = match &self.glob_navigation {
            Some(g) => g.selected,
            None => self.navigation.selected,
        };
        let new_sel: Option<usize> = if self.entries.len() == 0 {
            None
        } else {
            match cur_sel {
                Some(s) => {
                    if Self::listed(&self.entries, s) {
                        Some(s)
                    } else {
                        Some(self.entries[0].index)
                    }
                },
                None => Some(self.entries[0].index),
            }
        };
        match &mut self.glob_navigation {
            Some(g) => g.selected = new_sel,
            None => self.navigation.selected = new_sel,
        }
    }

    /// Whether some listed entry has this arena index.
    fn listed(entries: &Vec<EntryDataBundle>, target: usize) -> (r: bool)
        ensures
            r == exists|m: int|
                0 <= m < entries@.len() && (#[trigger] entries@[m]).index == target,
    {
        let mut m: usize = 0;
        let mut found: bool = false;
        while m < entries.len() && !found
            invariant
                m <= entries@.len(),
                found ==> exists|q: int|
                    0 <= q < entries@.len() && (#[trigger] entries@[q]).index == target,
                !found ==> forall|q: int| 0 <= q < m ==> (#[trigger] entries@[q]).index != target,
            decreases entries@.len() - m,
        {
            if entries[m].index == target {
                found = true;
            }
            m = m + 1;
        }
        found
    }

    /// Requests a traversal: fails with `AlreadyRunning` while one is in
    /// flight, so no two workers can ever be active at once; otherwise
    /// captures the selected entry's path and position for later
    /// re-anchoring and marks the scan as running.
    pub fn traverse(&mut self, tree: &Tree) -> (r: Result<(), TraverseError>)
        requires
            tree.wf(),
            forall|m: int|
                0 <= m < old(self).entries@.len() ==> tree.occupied(
                    (#[trigger] old(self).entries@[m]).index as int,
                ),
        ensures
            old(self).scan is Some ==> r == Result::<(), TraverseError>::Err(
                TraverseError::AlreadyRunning,
            ) && *final(self) == *old(self),
            old(self).scan is None ==> {
                &&& r is Ok
                &&& final(self).scan is Some
                &&& (match active_nav(*old(self)).selected {
                    Some(s) => {
                        let fp = find_pos(old(self).entries@, s);
                        let fs = final(self).scan.unwrap();
                        if fp < old(self).entries@.len() {
                            &&& fs.previous_selection is Some
                            &&& fs.previous_selection.unwrap().0@ == tree.path_spec(s)
                            &&& fs.previous_selection.unwrap().1 as int == fp
                        } else {
                            fs.previous_selection is None
                        }
                    },
                    None => final(self).scan.unwrap().previous_selection is None,
                })
                &&& final(self).navigation == old(self).navigation
                &&& final(self).entries@ == old(self).entries@
                &&& final(self).stats == old(self).stats
                &&& final(self).walk_options == old(self).walk_options
            },
    {
        if self.scan.is_some() {
            return Err(TraverseError::AlreadyRunning);
        }
        let cur_sel: Option<usize> = match &self.glob_navigation {
            Some(g) => g.selected,
            None => self.navigation.selected,
        };
        let previous_selection: Option<(Vec<u8>, usize)> = match cur_sel {
            Some(s) => {
                let mut m: usize = 0;
                let mut found: usize = self.entries.len();
                while m < self.entries.len() && found == self.entries.len()
                    invariant
                        m <= self.entries@.len(),
                        found == self.entries@.len() || (found < m && self.entries@[found as int].index
                            == s),
                        forall|q: int|
                            0 <= q < m && q < found as int ==> (#[trigger] self.entries@[q]).index
                                != s,
                    decreases self.entries@.len() - m,
                {
                    if self.entries[m].index == s {
                        found = m;
                    }
                    m = m + 1;
                }
                proof {
                    crate::navigation::lemma_find_pos(self.entries@, s);
                    let fp = find_pos(self.entries@, s);
                    if found < self.entries.len() {
                        if (found as int) < fp {
                            assert(self.entries@[found as int].index != s);
                        }
                        if (found as int) > fp {
                            assert(self.entries@[fp].index == s);
                        }
                        assert(found as int == fp);
                    } else {
                        if fp < self.entries@.len() {
                            assert(self.entries@[fp].index == s);
                            assert(false);
                        }
                    }
                }
                if found < self.entries.len() {
                    proof {
                        assert(tree.occupied(self.entries@[found as int].index as int));
                    }
                    Some((tree.path_of(s), found))
                } else {
                    None
                }
            },
            None => None,
        };
        self.scan = Some(FilesystemScan { previous_selection });
        Ok(())
    }

    /// Merges a progress snapshot and rebuilds the displayed list while a
    /// scan is running; outside a scan the call changes nothing, so no stats
    /// tick can ever land after the traversal was joined.
    pub fn scan_tick(&mut self, tree: &Tree, delta: &TraversalStats)
        requires
            tree.wf(),
            tree.occupied(active_nav(*old(self)).view_root as int),
        ensures
            old(self).scan is None ==> *final(self) == *old(self),
            old(self).scan is Some ==> {
                &&& final(self).stats == merged_stats(old(self).stats, *delta)
                &&& display_ok(*final(self), *tree)
                &&& final(self).scan == old(self).scan
                &&& final(self).walk_options == old(self).walk_options
                &&& active_nav(*final(self)).view_root == active_nav(*old(self)).view_root
                &&& active_nav(*final(self)).history@ == active_nav(*old(self)).history@
                &&& final(self).navigation.view_root == old(self).navigation.view_root
                &&& final(self).navigation.history@ == old(self).navigation.history@
                &&& (old(self).glob_navigation is Some ==> final(self).navigation == old(self).navigation)
                &&& final(self).sorting == old(self).sorting
                &&& final(self).focussed == old(self).focussed
                &&& final(self).marked@ == old(self).marked@
                &&& final(self).glob_pattern@ == old(self).glob_pattern@
                &&& (final(self).glob_navigation is Some <==> old(self).glob_navigation is Some)
                &&& forall|s: usize|
                    active_nav(*old(self)).selected == Some(s) && (exists|m: int|
                        0 <= m < final(self).entries@.len() && (
                        #[trigger] final(self).entries@[m]).index == s) ==> active_nav(
                        *final(self),
                    ).selected == Some(s)
            },
    {
        if self.scan.is_none() {
            return ;
        }
        self.stats.merge(delta);
        self.refresh_entries(tree);
    }

    /// Finishes a scan after its worker was joined: merges the final stats,
    /// rebuilds the list, re-anchors the cursor on the path captured at scan
    /// start (else the first entry, else nothing), and returns to idle.
    pub fn scan_done(&mut self, tree: &Tree, final_stats: &TraversalStats)
        requires
            tree.wf(),
            tree.occupied(active_nav(*old(self)).view_root as int),
        ensures
            final(self).scan is None,
            old(self).scan is None ==> *final(self) == *old(self),
            old(self).scan is Some ==> {
                &&& final(self).stats == merged_stats(old(self).stats, *final_stats)
                &&& active_nav(*final(self)).view_root == active_nav(*old(self)).view_root
                &&& active_nav(*final(self)).history@ == active_nav(*old(self)).history@
                &&& final(self).navigation.view_root == old(self).navigation.view_root
                &&& final(self).navigation.history@ == old(self).navigation.history@
                &&& (old(self).glob_navigation is Some ==> final(self).navigation == old(self).navigation)
                &&& final(self).sorting == old(self).sorting
                &&& final(self).focussed == old(self).focussed
                &&& final(self).marked@ == old(self).marked@
                &&& final(self).walk_options == old(self).walk_options
                &&& view_ok(
                    *tree,
                    active_nav(*final(self)).view_root,
                    active_pat(*final(self)),
                    final(self).sorting,
                    final(self).entries@,
                )
                &&& (match old(self).scan.unwrap().previous_selection {
                    Some(prev) => {
                        let rp = restore_pos(*tree, final(self).entries@, prev.0@);
                        if rp < final(self).entries@.len() {
                            active_nav(*final(self)).selected == Some(final(self).entries@[rp].index)
                        } else if final(self).entries@.len() > 0 {
                            active_nav(*final(self)).selected == Some(final(self).entries@[0].index)
                        } else {
                            active_nav(*final(self)).selected is None
                        }
                    },
                    None => selection_in(final(self).entries@, active_nav(*final(self)).selected),
                })
            },
    {
        let scan = self.scan.take();
        match scan {
            None => {},
            Some(fs) => {
                self.stats.merge(final_stats);
                self.refresh_entries(tree);
                match fs.previous_selection {
                    Some(prev) => {
                        proof {
                            assert forall|m: int|
                                0 <= m < self.entries@.len() implies tree.occupied(
                                (#[trigger] self.entries@[m]).index as int,
                            ) by {
                                assert(tree.children_ok(active_nav(*self).view_root as int));
                                assert(tree.child_link_ok(
                                    active_nav(*self).view_root as int,
                                    self.entries@[m].index,
                                ));
                            }
                        }
                        match &mut self.glob_navigation {
                            Some(g) => g.restore_selection(&prev.0, tree, &self.entries),
                            None => self.navigation.restore_selection(&prev.0, tree, &self.entries),
                        }
                    },
                    None => {},
                }
            },
        }
    }

    /// The terminal outcome once every worker is joined: exactly the
    /// accumulated I/O error count.
    pub fn quit_result(&self) -> (r: WalkResult)
        requires
            self.scan is None,
        ensures
            r.num_errors == self.stats.io_errors,
    {
        WalkResult { num_errors: self.stats.io_errors }
    }

    /// Toggles whether the entry is in the pending-deletion set.
    pub fn toggle_mark(&mut self, index: usize)
        requires
            forall|k1: int, k2: int|
                #![trigger old(self).marked@[k1], old(self).marked@[k2]]
                0 <= k1 < k2 < old(self).marked@.len() ==> old(self).marked@[k1]
                    != old(self).marked@[k2],
        ensures
            final(self).marked@.contains(index) <==> !old(self).marked@.contains(index),
            forall|x: usize|
                x != index ==> (final(self).marked@.contains(x) <==> old(self).marked@.contains(x)),
            forall|k1: int, k2: int|
                #![trigger final(self).marked@[k1], final(self).marked@[k2]]
                0 <= k1 < k2 < final(self).marked@.len() ==> final(self).marked@[k1]
                    != final(self).marked@[k2],
            final(self).navigation == old(self).navigation,
            final(self).glob_navigation == old(self).glob_navigation,
            final(self).glob_pattern == old(self).glob_pattern,
            final(self).entries@ == old(self).entries@,
            final(self).sorting == old(self).sorting,
            final(self).show_columns == old(self).show_columns,
            final(self).message == old(self).message,
            final(self).focussed == old(self).focussed,
            final(self).received_events == old(self).received_events,
            final(self).scan == old(self).scan,
            final(self).stats == old(self).stats,
            final(self).walk_options == old(self).walk_options,
    {
        let mut m: usize = 0;
        let mut found: usize = self.marked.len();
        while m < self.marked.len() && found == self.marked.len()
            invariant
                m <= self.marked@.len(),
                found == self.marked@.len() || (found < m && self.marked@[found as int] == index),
                forall|q: int| 0 <= q < m && q < found as int ==> self.marked@[q] != index,
            decreases self.marked@.len() - m,
        {
            if self.marked[m] == index {
                found = m;
            }
            m = m + 1;
        }
        if found < self.marked.len() {
            self.marked.remove(found);
            proof {
                let ov = old(self).marked@;
                let nv = self.marked@;
                assert(nv == ov.remove(found as int));
                assert forall|x: usize| nv.contains(x) implies ov.contains(x) by {
                    let w = choose|w: int| 0 <= w < nv.len() && nv[w] == x;
                    if w < found as int {
                        assert(ov[w] == x);
                    } else {
                        assert(ov[w + 1] == x);
                    }
                }
                assert forall|x: usize| x != index && ov.contains(x) implies nv.contains(x) by {
                    let w = choose|w: int| 0 <= w < ov.len() && ov[w] == x;
                    if w < found as int {
                        assert(nv[w] == x);
                    } else {
                        assert(w != found as int);
                        assert(nv[w - 1] == x);
                    }
                }
                if nv.contains(index) {
                    let w = choose|w: int| 0 <= w < nv.len() && nv[w] == index;
                    if w < found as int {
                        assert(ov[w] == index);
                        assert(false);
                    } else {
                        assert(ov[w + 1] == index);
                        assert(ov[found as int] == index);
                        assert(false);
                    }
                }
                assert forall|k1: int, k2: int|
                    #![trigger nv[k1], nv[k2]]
                    0 <= k1 < k2 < nv.len() implies nv[k1] != nv[k2] by {
                    let a1: int = if k1 < found as int {
                        k1
                    } else {
                        k1 + 1
                    };
                    let a2: int = if k2 < found as int {
                        k2
                    } else {
                        k2 + 1
                    };
                    assert(nv[k1] == ov[a1] && nv[k2] == ov[a2]);
                }
            }
        } else {
            proof {
                if old(self).marked@.contains(index) {
                    let w = choose|w: int|
                        0 <= w < old(self).marked@.len() && old(self).marked@[w] == index;
                    assert(false);
                }
            }
            self.marked.push(index);
            proof {
                let ov = old(self).marked@;
                let nv = self.marked@;
                assert(nv.last() == index);
                assert(nv.contains(index));
                assert forall|x: usize| x != index implies (nv.contains(x) <==> ov.contains(x)) by {
                    if nv.contains(x) {
                        let w = choose|w: int| 0 <= w < nv.len() && nv[w] == x;
                        assert(w < ov.len());
                        assert(ov[w] == x);
                    }
                    if ov.contains(x) {
                        let w = choose|w: int| 0 <= w < ov.len() && ov[w] == x;
                        assert(nv[w] == x);
                    }
                }
                assert forall|k1: int, k2: int|
                    #![trigger nv[k1], nv[k2]]
                    0 <= k1 < k2 < nv.len() implies nv[k1] != nv[k2] by {
                    if k2 == ov.len() {
                        if nv[k1] == index {
                            assert(ov[k1] == index);
                            assert(ov.contains(index));
                            assert(false);
                        }
                    } else {
                        assert(nv[k1] == ov[k1] && nv[k2] == ov[k2]);
                    }
                }
            }
        }
    }

    /// Records one external deletion outcome. On success the subtree leaves
    /// the arena and the displayed list is rebuilt without it; on failure the
    /// node stays, the error count rises by one and a message is shown.
    pub fn delete_result(&mut self, tree: &mut Tree, index: usize, deleted: bool)
        requires
            old(tree).wf(),
            old(tree).occupied(index as int),
            index != 0,
            old(tree).occupied(active_nav(*old(self)).view_root as int),
            !old(tree).in_subtree(index, active_nav(*old(self)).view_root),
        ensures
            final(tree).wf(),
            deleted ==> {
                &&& !final(tree).occupied(index as int)
                // every surviving node is pinned: the subtree is gone, the
                // parent chain shrank by its totals, nothing else moved
                &&& crate::tree::removed_frame(*old(tree), *final(tree), index)
                &&& display_ok(*final(self), *final(tree))
                &&& forall|m: int|
                    0 <= m < final(self).entries@.len() ==> (#[trigger] final(self).entries@[m]).index
                        != index
                &&& final(self).stats == old(self).stats
                &&& final(self).navigation.view_root == old(self).navigation.view_root
                &&& final(self).navigation.history@ == old(self).navigation.history@
                &&& (old(self).glob_navigation is Some ==> final(self).navigation == old(self).navigation)
                &&& active_nav(*final(self)).view_root == active_nav(*old(self)).view_root
                &&& active_nav(*final(self)).history@ == active_nav(*old(self)).history@
                &&& (final(self).glob_navigation is Some <==> old(self).glob_navigation is Some)
                &&& final(self).glob_pattern@ == old(self).glob_pattern@
                &&& final(self).sorting == old(self).sorting
                &&& final(self).focussed == old(self).focussed
                &&& final(self).marked@ == old(self).marked@
                &&& final(self).scan == old(self).scan
                &&& final(self).walk_options == old(self).walk_options
                &&& final(self).message == old(self).message
            },
            !deleted ==> {
                &&& *final(tree) == *old(tree)
                &&& final(self).stats.io_errors == sat_add(old(self).stats.io_errors, 1)
                &&& final(self).stats.entries_traversed == old(self).stats.entries_traversed
                &&& final(self).stats.total_bytes == old(self).stats.total_bytes
                &&& final(self).stats.elapsed_millis == old(self).stats.elapsed_millis
                &&& final(self).message == Some(Message::DeletionFailed(index))
                &&& final(self).entries@ == old(self).entries@
                &&& final(self).navigation == old(self).navigation
                &&& final(self).glob_navigation == old(self).glob_navigation
                &&& final(self).glob_pattern == old(self).glob_pattern
                &&& final(self).sorting == old(self).sorting
                &&& final(self).focussed == old(self).focussed
                &&& final(self).marked@ == old(self).marked@
                &&& final(self).scan == old(self).scan
                &&& final(self).walk_options == old(self).walk_options
                &&& final(self).show_columns == old(self).show_columns
                &&& final(self).received_events == old(self).received_events
            },
    {
        if deleted {
            tree.remove_subtree(index);
            proof {
                let vr = active_nav(*old(self)).view_root;
                assert(old(tree).occupied(vr as int));
                assert(!old(tree).in_subtree(index, vr));
                assert(tree.occupied(vr as int));
                assert(old(tree).in_subtree(index, index));
                assert(!tree.occupied(index as int));
            }
            self.refresh_entries(tree);
            proof {
                assert forall|m: int|
                    0 <= m < self.entries@.len() implies (#[trigger] self.entries@[m]).index
                    != index by {
                    assert(tree.ent(active_nav(*self).view_root as int).children@.contains(
                        self.entries@[m].index,
                    ));
                    assert(tree.children_ok(active_nav(*self).view_root as int));
                    assert(tree.child_link_ok(
                        active_nav(*self).view_root as int,
                        self.entries@[m].index,
                    ));
                    assert(tree.occupied(self.entries@[m].index as int));
                }
            }
        } else {
            let one = TraversalStats { entries_traversed: 0, io_errors: 1, total_bytes: 0, elapsed_millis: 0 };
            self.stats.merge(&one);
            self.message = Some(Message::DeletionFailed(index));
        }
    }
}

/// What stays put on a key that only acknowledges input: both navigations,
/// the pattern, the displayed list, the sort mode and the marks.
pub open spec fn same_view(o: AppState, n: AppState) -> bool {
    &&& n.navigation == o.navigation
    &&& n.glob_navigation == o.glob_navigation
    &&& n.glob_pattern == o.glob_pattern
    &&& n.entries@ == o.entries@
    &&& n.sorting == o.sorting
    &&& n.marked@ == o.marked@
}

/// The list position the selection currently occupies; an absent or unlisted
/// selection counts as the first position.
pub open spec fn sel_pos(entries: Seq<EntryDataBundle>, sel: Option<usize>) -> int {
    match sel {
        Some(s) => if find_pos(entries, s) < entries.len() {
            find_pos(entries, s)
        } else {
            0
        },
        None => 0,
    }
}

/// A movement key: the active selection lands on the entry at the clamped
/// position, and nothing else of the view moves.
pub open spec fn selection_moved(o: AppState, n: AppState, delta: int) -> bool {
    &&& n.entries@ == o.entries@
    &&& n.glob_pattern == o.glob_pattern
    &&& n.sorting == o.sorting
    &&& n.marked@ == o.marked@
    &&& n.navigation.view_root == o.navigation.view_root
    &&& n.navigation.history@ == o.navigation.history@
    &&& (o.glob_navigation is Some ==> n.navigation == o.navigation && n.glob_navigation is Some
        && n.glob_navigation.unwrap().view_root == o.glob_navigation.unwrap().view_root
        && n.glob_navigation.unwrap().history@ == o.glob_navigation.unwrap().history@)
    &&& (o.glob_navigation is None ==> n.glob_navigation is None)
    &&& (o.entries@.len() == 0 ==> active_nav(n).selected is None)
    &&& (o.entries@.len() > 0 ==> active_nav(n).selected == Some(
        o.entries@[moved_pos(
            sel_pos(o.entries@, active_nav(o).selected),
            delta,
            o.entries@.len() as int,
        )].index,
    ))
}

/// The selection names a listed directory.
pub open spec fn listed_dir(entries: Seq<EntryDataBundle>, s: usize) -> bool {
    exists|m: int|
        0 <= m < entries.len() && (#[trigger] entries[m]).index == s && entries[m].is_dir
}

/// What Enter does on the main pane: descend into the selected entry when it
/// is a listed directory (history pushed, its children become the view, the
/// first selected); otherwise nothing moves.
pub open spec fn entered_view(o: AppState, n: AppState, t: Tree) -> bool {
    match o.navigation.selected {
        Some(s) => if listed_dir(o.entries@, s) {
            &&& entered(o.navigation, n.navigation, s, n.entries@)
            &&& view_ok(t, s, None, o.sorting, n.entries@)
            &&& n.glob_navigation is None
            &&& n.glob_pattern == o.glob_pattern
            &&& n.sorting == o.sorting
            &&& n.marked@ == o.marked@
        } else {
            same_view(o, n)
        },
        None => same_view(o, n),
    }
}

/// What Leave does on the main pane: pop the history when its saved view
/// root still exists, rebuild that view, and keep the popped selection when
/// still listed; with no usable history nothing moves.
pub open spec fn left_view(o: AppState, n: AppState, t: Tree) -> bool {
    if o.navigation.history@.len() > 0 && t.occupied(o.navigation.history@.last().0 as int) {
        &&& n.navigation.view_root == o.navigation.history@.last().0
        &&& n.navigation.history@ == o.navigation.history@.drop_last()
        &&& view_ok(t, n.navigation.view_root, None, o.sorting, n.entries@)
        &&& selection_in(n.entries@, n.navigation.selected)
        &&& (match o.navigation.history@.last().1 {
            Some(s) => (exists|m: int|
                0 <= m < n.entries@.len() && (#[trigger] n.entries@[m]).index == s)
                ==> n.navigation.selected == Some(s),
            None => true,
        })
        &&& n.glob_navigation is None
        &&& n.glob_pattern == o.glob_pattern
        &&& n.sorting == o.sorting
        &&& n.marked@ == o.marked@
    } else {
        same_view(o, n)
    }
}

/// A sort-mode key: the view is rebuilt in place, nothing else moves.
pub open spec fn resorted_view(o: AppState, n: AppState) -> bool {
    &&& n.navigation.view_root == o.navigation.view_root
    &&& n.navigation.history@ == o.navigation.history@
    &&& n.glob_navigation is None
    &&& n.glob_pattern == o.glob_pattern
    &&& n.marked@ == o.marked@
}

/// A glob-pattern edit: the filtered view is rebuilt, the main navigation
/// and everything else stay put.
pub open spec fn glob_edited(o: AppState, n: AppState) -> bool {
    &&& n.navigation == o.navigation
    &&& n.glob_navigation is Some
    &&& n.glob_navigation.unwrap().view_root == o.glob_navigation.unwrap().view_root
    &&& n.glob_navigation.unwrap().history@ == o.glob_navigation.unwrap().history@
    &&& n.sorting == o.sorting
    &&& n.marked@ == o.marked@
}

/// Which pane has focus after one key, given the pane it lands in.
pub open spec fn pane_after(p: FocussedPane, k: KeyInput) -> FocussedPane {
    match p {
        FocussedPane::Main => match k {
            KeyInput::OpenHelp => FocussedPane::Help,
            KeyInput::OpenGlob => FocussedPane::Glob,
            KeyInput::OpenMark => FocussedPane::Mark,
            _ => FocussedPane::Main,
        },
        FocussedPane::Help => match k {
            KeyInput::Cancel => FocussedPane::Main,
            _ => FocussedPane::Help,
        },
        FocussedPane::Mark => match k {
            KeyInput::Cancel => FocussedPane::Main,
            KeyInput::Confirm => FocussedPane::Main,
            _ => FocussedPane::Mark,
        },
        FocussedPane::Glob => match k {
            KeyInput::Cancel => FocussedPane::Main,
            KeyInput::Confirm => FocussedPane::Main,
            _ => FocussedPane::Glob,
        },
    }
}

/// Which sort mode one key selects on the main pane.
pub open spec fn sort_after(s: SortMode, k: KeyInput) -> SortMode {
    match k {
        KeyInput::SortBySize => SortMode::SizeDescending,
        KeyInput::SortByName => SortMode::NameAscending,
        KeyInput::SortByCount => SortMode::CountDescending,
        _ => s,
    }
}

impl AppState {
    /// Dispatches one input event according to the focused pane: movement
    /// and descent on the main pane, pattern editing on the glob pane, mark
    /// editing on the mark pane, and a quit request from anywhere. Returns
    /// what the event loop must do on the state's behalf.
    #[verifier::rlimit(100)]
    #[verifier::spinoff_prover]
    pub fn process_event(&mut self, tree: &Tree, event: Event) -> (r: Action)
        requires
            tree.wf(),
            tree.occupied(active_nav(*old(self)).view_root as int),
            tree.occupied(old(self).navigation.view_root as int),
            display_ok(*old(self), *tree),
            old(self).glob_navigation is Some <==> old(self).focussed is Glob,
            forall|k1: int, k2: int|
                #![trigger old(self).marked@[k1], old(self).marked@[k2]]
                0 <= k1 < k2 < old(self).marked@.len() ==> old(self).marked@[k1]
                    != old(self).marked@[k2],
        ensures
            final(self).glob_navigation is Some <==> final(self).focussed is Glob,
            final(self).walk_options == old(self).walk_options,
            final(self).scan == old(self).scan,
            final(self).stats == old(self).stats,
            display_ok(*final(self), *tree),
            tree.occupied(active_nav(*final(self)).view_root as int),
            tree.occupied(final(self).navigation.view_root as int),
            forall|k1: int, k2: int|
                #![trigger final(self).marked@[k1], final(self).marked@[k2]]
                0 <= k1 < k2 < final(self).marked@.len() ==> final(self).marked@[k1]
                    != final(self).marked@[k2],
            !(event is Key) ==> *final(self) == *old(self) && r is Nothing,
            event is Key ==> final(self).received_events && final(self).message is None,
            (event == Event::Key(KeyInput::Quit)) <==> r is Quit,
            event == Event::Key(KeyInput::Quit) ==> final(self).entries@ == old(self).entries@,
            (match event {
                Event::Key(k) => final(self).focussed == pane_after(old(self).focussed, k) && (
                final(self).glob_navigation is Some <==> pane_after(old(self).focussed, k) is Glob)
                    && final(self).sorting == (if old(self).focussed is Main {
                    sort_after(old(self).sorting, k)
                } else {
                    old(self).sorting
                }),
                _ => true,
            }),
            (match r {
                Action::DeleteMarked(v) => old(self).focussed is Mark && v@ == old(self).marked@
                    && final(self).marked@.len() == 0,
                _ => true,
            }),
            // the transition each (pane, key) pair performs
            (match event {
                Event::Key(k) => if k is Quit {
                    same_view(*old(self), *final(self))
                } else {
                    match old(self).focussed {
                        FocussedPane::Main => match k {
                            KeyInput::Down => selection_moved(*old(self), *final(self), 1),
                            KeyInput::Up => selection_moved(*old(self), *final(self), -1),
                            KeyInput::Enter => entered_view(*old(self), *final(self), *tree),
                            KeyInput::Leave => left_view(*old(self), *final(self), *tree),
                            KeyInput::SortBySize => resorted_view(*old(self), *final(self)),
                            KeyInput::SortByName => resorted_view(*old(self), *final(self)),
                            KeyInput::SortByCount => resorted_view(*old(self), *final(self)),
                            KeyInput::OpenHelp => same_view(*old(self), *final(self)),
                            KeyInput::OpenMark => same_view(*old(self), *final(self)),
                            KeyInput::OpenGlob => {
                                &&& final(self).navigation == old(self).navigation
                                &&& final(self).glob_pattern@.len() == 0
                                &&& final(self).marked@ == old(self).marked@
                                &&& final(self).sorting == old(self).sorting
                                &&& final(self).glob_navigation is Some
                                &&& final(self).glob_navigation.unwrap().view_root == old(self).navigation.view_root
                                &&& final(self).glob_navigation.unwrap().history@.len() == 0
                            },
                            KeyInput::ToggleCountColumn => same_view(*old(self), *final(self))
                                && final(self).show_columns.count == !old(self).show_columns.count
                                && final(self).show_columns.percent == old(self).show_columns.percent,
                            KeyInput::TogglePercentColumn => same_view(*old(self), *final(self))
                                && final(self).show_columns.percent == !old(self).show_columns.percent && final(self).show_columns.count == old(self).show_columns.count,
                            _ => same_view(*old(self), *final(self)),
                        },
                        FocussedPane::Help => same_view(*old(self), *final(self)),
                        FocussedPane::Mark => match k {
                            KeyInput::Down => selection_moved(*old(self), *final(self), 1),
                            KeyInput::Up => selection_moved(*old(self), *final(self), -1),
                            KeyInput::ToggleMark => {
                                &&& final(self).navigation == old(self).navigation
                                &&& final(self).glob_navigation == old(self).glob_navigation
                                &&& final(self).glob_pattern == old(self).glob_pattern
                                &&& final(self).entries@ == old(self).entries@
                                &&& final(self).sorting == old(self).sorting
                                &&& (match active_nav(*old(self)).selected {
                                    Some(sel) => (final(self).marked@.contains(sel) <==> !old(self).marked@.contains(sel)) && forall|x: usize|
                                        x != sel ==> (final(self).marked@.contains(x) <==> old(self).marked@.contains(x)),
                                    None => final(self).marked@ == old(self).marked@,
                                })
                            },
                            KeyInput::Confirm => {
                                &&& final(self).navigation == old(self).navigation
                                &&& final(self).glob_navigation == old(self).glob_navigation
                                &&& final(self).glob_pattern == old(self).glob_pattern
                                &&& final(self).entries@ == old(self).entries@
                                &&& final(self).sorting == old(self).sorting
                                &&& final(self).marked@.len() == 0
                            },
                            KeyInput::Cancel => {
                                &&& final(self).navigation == old(self).navigation
                                &&& final(self).glob_navigation == old(self).glob_navigation
                                &&& final(self).glob_pattern == old(self).glob_pattern
                                &&& final(self).entries@ == old(self).entries@
                                &&& final(self).sorting == old(self).sorting
                                &&& final(self).marked@.len() == 0
                            },
                            _ => same_view(*old(self), *final(self)),
                        },
                        FocussedPane::Glob => match k {
                            KeyInput::Down => selection_moved(*old(self), *final(self), 1),
                            KeyInput::Up => selection_moved(*old(self), *final(self), -1),
                            KeyInput::Edit(c) => glob_edited(*old(self), *final(self)) && final(self).glob_pattern@ == old(self).glob_pattern@.push(c),
                            KeyInput::Backspace => glob_edited(*old(self), *final(self)) && final(self).glob_pattern@ == (if old(self).glob_pattern@.len() > 0 {
                                old(self).glob_pattern@.drop_last()
                            } else {
                                old(self).glob_pattern@
                            }),
                            KeyInput::Confirm => {
                                &&& final(self).navigation.view_root == old(self).navigation.view_root
                                &&& final(self).navigation.history@ == old(self).navigation.history@
                                &&& final(self).sorting == old(self).sorting
                                &&& final(self).marked@ == old(self).marked@
                                &&& (match old(self).glob_navigation {
                                    Some(g) => match g.selected {
                                        Some(sg) => (exists|m: int|
                                            0 <= m < final(self).entries@.len() && (
                                            #[trigger] final(self).entries@[m]).index == sg)
                                            ==> final(self).navigation.selected == Some(sg),
                                        None => true,
                                    },
                                    None => true,
                                })
                            },
                            KeyInput::Cancel => {
                                &&& final(self).navigation.view_root == old(self).navigation.view_root
                                &&& final(self).navigation.history@ == old(self).navigation.history@
                                &&& final(self).glob_pattern@.len() == 0
                                &&& final(self).sorting == old(self).sorting
                                &&& final(self).marked@ == old(self).marked@
                            },
                            _ => same_view(*old(self), *final(self)),
                        },
                    }
                },
                _ => true,
            }),
    {
        let key: KeyInput = match event {
            Event::Key(k) => k,
            Event::Resize => {
                return Action::Nothing;
            },
            Event::Tick => {
                return Action::Nothing;
            },
        };
        self.received_events = true;
        self.message = None;
        if key == KeyInput::Quit {
            return Action::Quit;
        }
        match self.focussed {
            FocussedPane::Main => {
                match key {
                    KeyInput::Down => {
                        self.navigation.move_selection(1, &self.entries);
                        proof {
                            self.lemma_selection_after_move(*old(self));
                        }
                        Action::Nothing
                    },
                    KeyInput::Up => {
                        self.navigation.move_selection(-1, &self.entries);
                        proof {
                            self.lemma_selection_after_move(*old(self));
                        }
                        Action::Nothing
                    },
                    KeyInput::Enter => {
                        let sel = self.navigation.selected;
                        match sel {
                            Some(s) => {
                                let mut m: usize = 0;
                                let mut is_dir: bool = false;
                                let mut present: bool = false;
                                while m < self.entries.len() && !present
                                    invariant
                                        m <= self.entries@.len(),
                                        present ==> exists|q: int|
                                            0 <= q < self.entries@.len() && (
                                            #[trigger] self.entries@[q]).index == s && (is_dir
                                                == self.entries@[q].is_dir),
                                        !present ==> forall|q: int|
                                            0 <= q < m ==> (#[trigger] self.entries@[q]).index
                                                != s,
                                    decreases self.entries@.len() - m,
                                {
                                    if self.entries[m].index == s {
                                        present = true;
                                        is_dir = self.entries[m].is_dir;
                                    }
                                    m = m + 1;
                                }
                                if present && is_dir {
                                    proof {
                                        assert(self.glob_navigation is None);
                                        assert(active_nav(*old(self)) == old(self).navigation);
                                        let q = choose|q: int|
                                            0 <= q < self.entries@.len() && (
                                            #[trigger] self.entries@[q]).index == s && (is_dir
                                                == self.entries@[q].is_dir);
                                        assert(listed_dir(self.entries@, s));
                                        assert(tree.ent(
                                            self.navigation.view_root as int,
                                        ).children@.contains(s));
                                        assert(tree.children_ok(self.navigation.view_root as int));
                                        assert(tree.child_link_ok(
                                            self.navigation.view_root as int,
                                            s,
                                        ));
                                        assert(tree.occupied(s as int));
                                    }
                                    let entries2 = sorted_entries(tree, s, self.sorting, None);
                                    self.navigation.enter(s, &entries2);
                                    self.entries = entries2;
                                } else {
                                    proof {
                                        // the selection is not a listed directory
                                        if listed_dir(self.entries@, s) {
                                            let q1 = choose|q1: int|
                                                0 <= q1 < self.entries@.len() && (
                                                #[trigger] self.entries@[q1]).index == s
                                                    && self.entries@[q1].is_dir;
                                            if present {
                                                let q0 = choose|q0: int|
                                                    0 <= q0 < self.entries@.len() && (
                                                    #[trigger] self.entries@[q0]).index == s && (
                                                    is_dir == self.entries@[q0].is_dir);
                                                assert(q0 == q1);
                                                assert(false);
                                            } else {
                                                assert(self.entries@[q1].index != s);
                                                assert(false);
                                            }
                                        }
                                    }
                                }
                                Action::Nothing
                            },
                            None => Action::Nothing,
                        }
                    },
                    KeyInput::Leave => {
                        let hl = self.navigation.history.len();
                        if hl > 0 {
                            let prior_root = self.navigation.history[hl - 1].0;
                            if tree.is_occupied(prior_root) {
                                self.navigation.leave();
                                self.refresh_entries(tree);
                            }
                        }
                        Action::Nothing
                    },
                    KeyInput::SortBySize => {
                        self.sorting = SortMode::SizeDescending;
                        self.refresh_entries(tree);
                        Action::Nothing
                    },
                    KeyInput::SortByName => {
                        self.sorting = SortMode::NameAscending;
                        self.refresh_entries(tree);
                        Action::Nothing
                    },
                    KeyInput::SortByCount => {
                        self.sorting = SortMode::CountDescending;
                        self.refresh_entries(tree);
                        Action::Nothing
                    },
                    KeyInput::OpenHelp => {
                        self.focussed = FocussedPane::Help;
                        Action::Nothing
                    },
                    KeyInput::OpenMark => {
                        self.focussed = FocussedPane::Mark;
                        Action::Nothing
                    },
                    KeyInput::OpenGlob => {
                        let mut g = Navigation::default();
                        g.view_root = self.navigation.view_root;
                        self.glob_navigation = Some(g);
                        self.glob_pattern = Vec::new();
                        self.focussed = FocussedPane::Glob;
                        self.refresh_entries(tree);
                        Action::Nothing
                    },
                    KeyInput::ToggleCountColumn => {
                        self.show_columns.count = !self.show_columns.count;
                        Action::Nothing
                    },
                    KeyInput::TogglePercentColumn => {
                        self.show_columns.percent = !self.show_columns.percent;
                        Action::Nothing
                    },
                    _ => Action::Nothing,
                }
            },
            FocussedPane::Help => {
                match key {
                    KeyInput::Cancel => {
                        self.focussed = FocussedPane::Main;
                        Action::Nothing
                    },
                    _ => Action::Nothing,
                }
            },
            FocussedPane::Mark => {
                match key {
                    KeyInput::Down => {
                        self.navigation.move_selection(1, &self.entries);
                        proof {
                            self.lemma_selection_after_move(*old(self));
                        }
                        Action::Nothing
                    },
                    KeyInput::Up => {
                        self.navigation.move_selection(-1, &self.entries);
                        proof {
                            self.lemma_selection_after_move(*old(self));
                        }
                        Action::Nothing
                    },
                    KeyInput::ToggleMark => {
                        let sel = match &self.glob_navigation {
                            Some(g) => g.selected,
                            None => self.navigation.selected,
                        };
                        match sel {
                            Some(s) => {
                                self.toggle_mark(s);
                                Action::Nothing
                            },
                            None => Action::Nothing,
                        }
                    },
                    KeyInput::Confirm => {
                        let mut doomed: Vec<usize> = Vec::new();
                        let mut m: usize = 0;
                        while m < self.marked.len()
                            invariant
                                m <= self.marked@.len(),
                                doomed@ == self.marked@.take(m as int),
                            decreases self.marked@.len() - m,
                        {
                            doomed.push(self.marked[m]);
                            proof {
                                assert(self.marked@.take(m as int + 1) =~= self.marked@.take(
                                    m as int,
                                ).push(self.marked@[m as int]));
                            }
                            m = m + 1;
                        }
                        proof {
                            assert(self.marked@.take(self.marked@.len() as int) =~= self.marked@);
                        }
                        self.marked = Vec::new();
                        self.focussed = FocussedPane::Main;
                        Action::DeleteMarked(doomed)
                    },
                    KeyInput::Cancel => {
                        self.marked = Vec::new();
                        self.focussed = FocussedPane::Main;
                        Action::Nothing
                    },
                    _ => Action::Nothing,
                }
            },
            FocussedPane::Glob => {
                match key {
                    KeyInput::Down => {
                        match &mut self.glob_navigation {
                            Some(g) => g.move_selection(1, &self.entries),
                            None => {},
                        }
                        proof {
                            self.lemma_selection_after_move(*old(self));
                        }
                        Action::Nothing
                    },
                    KeyInput::Up => {
                        match &mut self.glob_navigation {
                            Some(g) => g.move_selection(-1, &self.entries),
                            None => {},
                        }
                        proof {
                            self.lemma_selection_after_move(*old(self));
                        }
                        Action::Nothing
                    },
                    KeyInput::Edit(c) => {
                        self.glob_pattern.push(c);
                        self.refresh_entries(tree);
                        Action::Nothing
                    },
                    KeyInput::Backspace => {
                        if self.glob_pattern.len() > 0 {
                            self.glob_pattern.pop();
                        }
                        self.refresh_entries(tree);
                        Action::Nothing
                    },
                    KeyInput::Confirm => {
                        let target: Option<usize> = match &self.glob_navigation {
                            Some(g) => g.selected,
                            None => None,
                        };
                        self.glob_navigation = None;
                        self.focussed = FocussedPane::Main;
                        self.refresh_entries(tree);
                        match target {
                            Some(s) => {
                                if Self::listed(&self.entries, s) {
                                    self.navigation.selected = Some(s);
                                    proof {
                                        assert(self.glob_navigation is None);
                                        assert(selection_in(self.entries@, active_nav(*self).selected));
                                    }
                                }
                            },
                            None => {},
                        }
                        Action::Nothing
                    },
                    KeyInput::Cancel => {
                        self.glob_navigation = None;
                        self.glob_pattern = Vec::new();
                        self.focussed = FocussedPane::Main;
                        self.refresh_entries(tree);
                        Action::Nothing
                    },
                    _ => Action::Nothing,
                }
            },
        }
    }

    /// After a clamped move the selection still points into the list.
    proof fn lemma_selection_after_move(self, o: AppState)
        requires
            self.entries@ == o.entries@,
            o.entries@.len() > 0 ==> exists|mp: int|
                0 <= mp < self.entries@.len() && active_nav(self).selected == Some(
                    (#[trigger] self.entries@[mp]).index,
                ),
            o.entries@.len() == 0 ==> active_nav(self).selected is None,
        ensures
            selection_in(self.entries@, active_nav(self).selected),
    {
    }
}

} // verus!
