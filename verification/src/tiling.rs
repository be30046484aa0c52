//! The automatic placement engine, kept deliberately simple: every tiled
//! window fills its assigned output, and the entry order is the stacking
//! order, bottom first.  A newly mapped window is attached right after the
//! hinted (most recently focused) window when that window is tiled here,
//! so placement is deterministic relative to recency of focus.

use vstd::prelude::*;
use crate::focus::without;
use crate::seq_util::{
    contains_id, lemma_filter_no_dup, lemma_nodup_remove_is_filter, lemma_without_absent,
    retain_live,
};

verus! {

/// The window handle of a tile entry, as one shared function value.
pub open spec fn tkey() -> spec_fn(TileEntry) -> u64 {
    |e: TileEntry| e.window
}

/// One tiled window and the output it is assigned to.
#[derive(Clone, Copy, PartialEq, Eq, Structural, Debug)]
pub struct TileEntry {
    pub window: u64,
    pub output: u64,
}

/// The tiling layout: entries in stacking order, plus the entry marked as the
/// active one within the layout.
pub struct TilingLayout {
    pub entries: Vec<TileEntry>,
    pub active: Option<u64>,
}

impl TilingLayout {
    /// The mapped windows in stacking order, bottom first.
    pub open spec fn window_seq(self) -> Seq<u64> {
        self.entries@.map_values(tkey())
    }

    pub open spec fn contains_window(self, w: u64) -> bool {
        self.window_seq().contains(w)
    }

    pub open spec fn index_of(self, w: u64) -> int {
        choose|i: int| 0 <= i < self.entries@.len() && self.entries@[i].window == w
    }

    /// The entry of `w`; meaningful only when `contains_window(w)`.
    pub open spec fn entry_of(self, w: u64) -> TileEntry {
        self.entries@[self.index_of(w)]
    }

    /// Well-formed: no window tiled twice.
    pub open spec fn wf(self) -> bool {
        self.window_seq().no_duplicates()
    }

    pub proof fn lemma_index(self, w: u64, j: int)
        requires
            self.wf(),
            0 <= j < self.entries@.len(),
            self.entries@[j].window == w,
        ensures
            self.contains_window(w),
            self.index_of(w) == j,
            self.entry_of(w) == self.entries@[j],
    {
        assert(self.window_seq()[j] == w);
        let i = self.index_of(w);
        assert(0 <= i < self.entries@.len() && self.entries@[i].window == w);
        if i != j {
            assert(self.window_seq()[i] == w);
            assert(false);
        }
    }

    pub proof fn lemma_absent(self, w: u64)
        requires
            forall|i: int| 0 <= i < self.entries@.len() ==> (#[trigger] self.entries@[i].window)
                != w,
        ensures
            !self.contains_window(w),
    {
        if self.contains_window(w) {
            let i = choose|i: int|
                0 <= i < self.window_seq().len() && self.window_seq()[i] == w;
            assert(self.entries@[i].window == w);
        }
    }

    pub fn new() -> (r: TilingLayout)
        ensures
            r.wf(),
            r.entries@ == Seq::<TileEntry>::empty(),
            r.window_seq() == Seq::<u64>::empty(),
            r.active is None,
    {
        let r = TilingLayout { entries: Vec::new(), active: None };
        proof {
            assert(r.window_seq() =~= Seq::<u64>::empty());
        }
        r
    }

    fn find(&self, w: u64) -> (r: Option<usize>)
        requires
            self.wf(),
        ensures
            match r {
                Some(j) => j < self.entries@.len() && self.entries@[j as int].window == w
                    && self.contains_window(w) && self.index_of(w) == j,
                None => !self.contains_window(w),
            },
    {
        let mut j: usize = 0;
        while j < self.entries.len()
            invariant
                self.wf(),
                j <= self.entries@.len(),
                forall|i: int| 0 <= i < j ==> (#[trigger] self.entries@[i].window) != w,
            decreases self.entries@.len() - j,
        {
            if self.entries[j].window == w {
                proof {
                    self.lemma_index(w, j as int);
                }
                return Some(j);
            }
            j += 1;
        }
        proof {
            self.lemma_absent(w);
        }
        None
    }

    /// The entry of `window`, if it is tiled here.
    pub fn find_entry(&self, window: u64) -> (r: Option<TileEntry>)
        requires
            self.wf(),
        ensures
            r == if self.contains_window(window) {
                Some(self.entry_of(window))
            } else {
                Option::<TileEntry>::None
            },
    {
        match self.find(window) {
            Some(j) => Some(self.entries[j]),
            None => None,
        }
    }

    /// Whether `window` is tiled here.
    pub fn has_window(&self, window: u64) -> (r: bool)
        requires
            self.wf(),
        ensures
            r == self.contains_window(window),
    {
        self.find(window).is_some()
    }

    /// Map a new window on `output`, right above the hinted window when that
    /// window is tiled here, else on top of the whole stack.
    pub fn map(&mut self, window: u64, output: u64, near: Option<u64>)
        requires
            old(self).wf(),
            !old(self).contains_window(window),
        ensures
            final (self).wf(),
            final (self).active == old(self).active,
            final (self).entries@ == if near is Some && old(self).contains_window(near->0) {
                old(self).entries@.insert(
                    old(self).index_of(near->0) + 1,
                    (TileEntry { window, output }),
                )
            } else {
                old(self).entries@.push((TileEntry { window, output }))
            },
            final (self).contains_window(window),
            forall|x: u64| x != window ==> #[trigger] final (self).contains_window(x) == old(
                self,
            ).contains_window(x),
    {
        let e = TileEntry { window, output };
        let at: Option<usize> = match near {
            Some(f) => self.find(f),
            None => None,
        };
        let ghost pre = *self;
        match at {
            Some(j) => {
                let n = self.entries.len();
                proof {
                    assert(j < n);
                }
                self.entries.insert(j + 1, e);
                proof {
                    assert(self.window_seq() =~= pre.window_seq().insert(j + 1, window));
                    lemma_insert_keeps(pre.window_seq(), j + 1, window);
                }
            },
            None => {
                self.entries.push(e);
                proof {
                    assert(self.window_seq() =~= pre.window_seq().push(window));
                    lemma_insert_keeps(pre.window_seq(), pre.window_seq().len() as int, window);
                    assert(pre.window_seq().insert(pre.window_seq().len() as int, window)
                        =~= pre.window_seq().push(window));
                }
            },
        }
    }

    /// Unmap `window`, reporting whether it was tiled here.
    pub fn unmap(&mut self, window: u64) -> (r: bool)
        requires
            old(self).wf(),
        ensures
            final (self).wf(),
            final (self).active == old(self).active,
            r == old(self).contains_window(window),
            !r ==> final (self).entries@ == old(self).entries@,
            r ==> final (self).entries@ == old(self).entries@.remove(old(self).index_of(window)),
            final (self).window_seq() == without(old(self).window_seq(), window),
            !final (self).contains_window(window),
    {
        let found = self.find(window);
        match found {
            Some(j) => {
                self.entries.remove(j);
                proof {
                    let pre = *old(self);
                    assert(self.window_seq() =~= pre.window_seq().remove(j as int));
                    lemma_nodup_remove_is_filter(pre.window_seq(), j as int, window);
                    lemma_filter_no_dup(pre.window_seq(), crate::focus::ne(window));
                    lemma_without_absent(pre.window_seq(), window);
                }
                true
            },
            None => {
                proof {
                    let pre = *old(self);
                    crate::seq_util::lemma_filter_all(pre.window_seq(), crate::focus::ne(window));
                }
                false
            },
        }
    }

    /// Mark `window` as the active element of the layout, when it is tiled
    /// here.
    pub fn set_active(&mut self, window: u64)
        requires
            old(self).wf(),
        ensures
            final (self).wf(),
            final (self).entries@ == old(self).entries@,
            final (self).active == if old(self).contains_window(window) {
                Some(window)
            } else {
                old(self).active
            },
    {
        if self.find(window).is_some() {
            self.active = Some(window);
        }
    }

    /// Drop every window in `dead`, keeping the order of the rest; the active
    /// mark is cleared if its window died.
    pub fn retain_alive(&mut self, dead: &Vec<u64>)
        requires
            old(self).wf(),
        ensures
            final (self).wf(),
            final (self).entries@ == retain_live(old(self).entries@, tkey(), dead@),
            forall|x: u64| #[trigger] final (self).contains_window(x) == (old(
                self,
            ).contains_window(x) && !dead@.contains(x)),
            final (self).active == match old(self).active {
                Some(a) => if dead@.contains(a) {
                    None
                } else {
                    Some(a)
                },
                None => Option::<u64>::None,
            },
    {
        let ghost pre = *self;
        let mut kept: Vec<TileEntry> = Vec::new();
        let mut j: usize = 0;
        while j < self.entries.len()
            invariant
                j <= self.entries@.len(),
                self.entries@ == pre.entries@,
                kept@ == retain_live(pre.entries@.take(j as int), tkey(), dead@),
            decreases self.entries@.len() - j,
        {
            let e = self.entries[j];
            let is_dead = contains_id(dead, e.window);
            proof {
                assert(pre.entries@.take(j as int + 1).drop_last() =~= pre.entries@.take(j as int));
                assert(pre.entries@.take(j as int + 1).last() == e);
                assert(tkey()(e) == e.window);
            }
            if !is_dead {
                kept.push(e);
            }
            j += 1;
        }
        proof {
            assert(pre.entries@.take(pre.entries@.len() as int) =~= pre.entries@);
        }
        self.entries = kept;
        match self.active {
            Some(a) => {
                if contains_id(dead, a) {
                    self.active = None;
                }
            },
            None => {},
        }
        proof {
            crate::seq_util::lemma_retain_live(pre.entries@, tkey(), dead@);
        }
    }
}

/// Inserting a fresh window into a duplicate-free sequence keeps it
/// duplicate-free and only adds that window.
proof fn lemma_insert_keeps(s: Seq<u64>, at: int, w: u64)
    requires
        s.no_duplicates(),
        !s.contains(w),
        0 <= at <= s.len(),
    ensures
        s.insert(at, w).no_duplicates(),
        s.insert(at, w).contains(w),
        forall|x: u64| x != w ==> #[trigger] s.insert(at, w).contains(x) == s.contains(x),
{
    let t = s.insert(at, w);
    assert(t[at] == w);
    assert forall|a: int, b: int| 0 <= a < b < t.len() implies t[a] != t[b] by {
        if a == at {
            if t[b] == w {
                assert(s[b - 1] == w);
            }
        } else if b == at {
            if t[a] == w {
                assert(s[a] == w);
            }
        } else {
            let a0: int = if a < at {
                a
            } else {
                a - 1
            };
            let b0: int = if b < at {
                b
            } else {
                b - 1
            };
            assert(t[a] == s[a0] && t[b] == s[b0]);
        }
    }
    assert forall|x: u64| x != w implies #[trigger] t.contains(x) == s.contains(x) by {
        if t.contains(x) {
            let i = choose|i: int| 0 <= i < t.len() && t[i] == x;
            if i < at {
                assert(s[i] == x);
            } else {
                assert(s[i - 1] == x);
            }
        }
        if s.contains(x) {
            let i = choose|i: int| 0 <= i < s.len() && s[i] == x;
            if i < at {
                assert(t[i] == x);
            } else {
                assert(t[i + 1] == x);
            }
        }
    }
}

} // verus!
