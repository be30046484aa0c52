//! The free-form placement engine: windows keep a caller-chosen or default
//! rectangle, stacked bottom to top in entry order, and remember their
//! pre-maximize rectangle for restoration.

use vstd::prelude::*;
use crate::focus::without;
use crate::geometry::{Point, Rect, Size};
use crate::seq_util::{
    contains_id, lemma_filter_no_dup, lemma_nodup_remove_is_filter, lemma_without_absent,
    retain_live,
};

verus! {

/// The window handle of a floating entry, as one shared function value.
pub open spec fn fkey() -> spec_fn(FloatEntry) -> u64 {
    |e: FloatEntry| e.window
}

/// Width given to a newly mapped floating window with no placement hint.
pub const FLOAT_DEFAULT_W: i32 = 640;

/// Height given to a newly mapped floating window with no placement hint.
pub const FLOAT_DEFAULT_H: i32 = 480;

/// One floating window: its rectangle and, while it occupies an output, the
/// rectangle to restore afterwards.
#[derive(Clone, Copy, PartialEq, Eq, Structural, Debug)]
pub struct FloatEntry {
    pub window: u64,
    pub geo: Rect,
    pub restore: Option<Rect>,
}

/// The floating layout: entries in stacking order, bottom first.
pub struct FloatingLayout {
    pub entries: Vec<FloatEntry>,
}

/// The topmost entry whose rectangle holds `p`, scanning from the top of the
/// stack down.
pub open spec fn top_under(s: Seq<FloatEntry>, p: Point) -> Option<FloatEntry>
    decreases s.len(),
{
    if s.len() == 0 {
        None
    } else if s.last().geo.spec_contains(p) {
        Some(s.last())
    } else {
        top_under(s.drop_last(), p)
    }
}

impl FloatingLayout {
    /// The mapped windows in stacking order, bottom first.
    pub open spec fn window_seq(self) -> Seq<u64> {
        self.entries@.map_values(fkey())
    }

    pub open spec fn contains_window(self, w: u64) -> bool {
        self.window_seq().contains(w)
    }

    pub open spec fn index_of(self, w: u64) -> int {
        choose|i: int| 0 <= i < self.entries@.len() && self.entries@[i].window == w
    }

    /// The entry of `w`; meaningful only when `contains_window(w)`.
    pub open spec fn entry_of(self, w: u64) -> FloatEntry {
        self.entries@[self.index_of(w)]
    }

    /// Well-formed: no window mapped twice.
    pub open spec fn wf(self) -> bool {
        self.window_seq().no_duplicates()
    }

    pub proof fn lemma_index(self, w: u64, j: int)
        requires
            self.wf(),
            0 <= j < self.entries@.len(),
            self.entries@[j].window == w,
        ensures
            self.contains_window(w),
            self.index_of(w) == j,
            self.entry_of(w) == self.entries@[j],
    {
        assert(self.window_seq()[j] == w);
        let i = self.index_of(w);
        assert(0 <= i < self.entries@.len() && self.entries@[i].window == w);
        if i != j {
            assert(self.window_seq()[i] == w);
            assert(false);
        }
    }

    pub proof fn lemma_absent(self, w: u64)
        requires
            forall|i: int| 0 <= i < self.entries@.len() ==> (#[trigger] self.entries@[i].window)
                != w,
        ensures
            !self.contains_window(w),
    {
        if self.contains_window(w) {
            let i = choose|i: int|
                0 <= i < self.window_seq().len() && self.window_seq()[i] == w;
            assert(self.entries@[i].window == w);
        }
    }

    pub fn new() -> (r: FloatingLayout)
        ensures
            r.wf(),
            r.entries@ == Seq::<FloatEntry>::empty(),
            r.window_seq() == Seq::<u64>::empty(),
    {
        let r = FloatingLayout { entries: Vec::new() };
        proof {
            assert(r.window_seq() =~= Seq::<u64>::empty());
        }
        r
    }

    fn find(&self, w: u64) -> (r: Option<usize>)
        requires
            self.wf(),
        ensures
            match r {
                Some(j) => j < self.entries@.len() && self.entries@[j as int].window == w
                    && self.contains_window(w) && self.index_of(w) == j,
                None => !self.contains_window(w),
            },
    {
        let mut j: usize = 0;
        while j < self.entries.len()
            invariant
                self.wf(),
                j <= self.entries@.len(),
                forall|i: int| 0 <= i < j ==> (#[trigger] self.entries@[i].window) != w,
            decreases self.entries@.len() - j,
        {
            if self.entries[j].window == w {
                proof {
                    self.lemma_index(w, j as int);
                }
                return Some(j);
            }
            j += 1;
        }
        proof {
            self.lemma_absent(w);
        }
        None
    }

    /// Whether `window` is mapped here.
    pub fn has_window(&self, window: u64) -> (r: bool)
        requires
            self.wf(),
        ensures
            r == self.contains_window(window),
    {
        self.find(window).is_some()
    }

    /// Map a new window at the hinted position, or at the origin with the
    /// default rectangle when the engine is left to choose.
    pub fn map(&mut self, window: u64, hint: Option<Point>)
        requires
            old(self).wf(),
            !old(self).contains_window(window),
        ensures
            final (self).wf(),
            final (self).entries@ == old(self).entries@.push(
                (FloatEntry {
                    window,
                    geo: (Rect {
                        loc: match hint {
                            Some(p) => p,
                            None => Point { x: 0, y: 0 },
                        },
                        size: (Size { w: FLOAT_DEFAULT_W, h: FLOAT_DEFAULT_H }),
                    }),
                    restore: None,
                }),
            ),
            final (self).window_seq() == old(self).window_seq().push(window),
    {
        let loc: Point = match hint {
            Some(p) => p,
            None => Point { x: 0, y: 0 },
        };
        let e = FloatEntry {
            window,
            geo: Rect { loc, size: Size { w: FLOAT_DEFAULT_W, h: FLOAT_DEFAULT_H } },
            restore: None,
        };
        self.entries.push(e);
        proof {
            assert(self.window_seq() =~= old(self).window_seq().push(window));
        }
    }

    /// Unmap `window`, reporting whether it was mapped here.
    pub fn unmap(&mut self, window: u64) -> (r: bool)
        requires
            old(self).wf(),
        ensures
            final (self).wf(),
            r == old(self).contains_window(window),
            !r ==> final (self).entries@ == old(self).entries@,
            r ==> final (self).entries@ == old(self).entries@.remove(old(self).index_of(window)),
            final (self).window_seq() == without(old(self).window_seq(), window),
            !final (self).contains_window(window),
    {
        let found = self.find(window);
        match found {
            Some(j) => {
                self.entries.remove(j);
                proof {
                    let pre = *old(self);
                    assert(self.window_seq() =~= pre.window_seq().remove(j as int));
                    lemma_nodup_remove_is_filter(pre.window_seq(), j as int, window);
                    lemma_filter_no_dup(pre.window_seq(), crate::focus::ne(window));
                    lemma_without_absent(pre.window_seq(), window);
                }
                true
            },
            None => {
                proof {
                    let pre = *old(self);
                    crate::seq_util::lemma_filter_all(pre.window_seq(), crate::focus::ne(window));
                }
                false
            },
        }
    }

    /// Move `window` to the top of the stack; windows not mapped here are
    /// left alone.
    pub fn raise(&mut self, window: u64)
        requires
            old(self).wf(),
        ensures
            final (self).wf(),
            !old(self).contains_window(window) ==> final (self).entries@ == old(self).entries@,
            old(self).contains_window(window) ==> final (self).entries@ == old(
                self,
            ).entries@.remove(old(self).index_of(window)).push(old(self).entry_of(window)),
            final (self).window_seq() == if old(self).contains_window(window) {
                without(old(self).window_seq(), window).push(window)
            } else {
                old(self).window_seq()
            },
            forall|x: u64| final (self).contains_window(x) == old(self).contains_window(x),
            forall|x: u64|
                old(self).contains_window(x) ==> #[trigger] final (self).entry_of(x) == old(
                    self,
                ).entry_of(x),
    {
        let found = self.find(window);
        match found {
            Some(j) => {
                let e = self.entries[j];
                self.entries.remove(j);
                self.entries.push(e);
                proof {
                    let pre = *old(self);
                    assert(self.entries@ =~= pre.entries@.remove(j as int).push(e));
                    assert(self.window_seq() =~= pre.window_seq().remove(j as int).push(window));
                    lemma_nodup_remove_is_filter(pre.window_seq(), j as int, window);
                    lemma_filter_no_dup(pre.window_seq(), crate::focus::ne(window));
                    lemma_without_absent(pre.window_seq(), window);
                    assert forall|x: u64|
                        pre.contains_window(x) implies #[trigger] self.entry_of(x) == pre.entry_of(
                        x,
                    ) by {
                        let k = choose|k: int|
                            0 <= k < pre.window_seq().len() && pre.window_seq()[k] == x;
                        assert(pre.entries@[k].window == x);
                        pre.lemma_index(x, k);
                        if k == j as int {
                            assert(self.entries@[self.entries@.len() - 1] == e);
                            self.lemma_index(x, self.entries@.len() - 1);
                        } else if k < j as int {
                            assert(self.entries@[k] == pre.entries@[k]);
                            self.lemma_index(x, k);
                        } else {
                            assert(self.entries@[k - 1] == pre.entries@[k]);
                            self.lemma_index(x, k - 1);
                        }
                    }
                    assert forall|x: u64| self.contains_window(x) == pre.contains_window(x) by {
                        if x == window {
                            assert(self.window_seq().last() == window);
                            assert(self.contains_window(window));
                        } else {
                            crate::seq_util::lemma_without_keeps(pre.window_seq(), window, x);
                            if without(pre.window_seq(), window).contains(x) {
                                let i = choose|i: int|
                                    0 <= i < without(pre.window_seq(), window).len() && without(
                                        pre.window_seq(),
                                        window,
                                    )[i] == x;
                                assert(self.window_seq()[i] == x);
                            }
                            if self.contains_window(x) {
                                let i = choose|i: int|
                                    0 <= i < self.window_seq().len() && self.window_seq()[i] == x;
                                assert(i < self.window_seq().len() - 1);
                                assert(without(pre.window_seq(), window)[i] == x);
                            }
                        }
                    }
                }
            },
            None => {
            },
        }
    }

    /// Remember the current rectangle of `window` for restoration after it
    /// stops occupying an output.
    pub fn maximize_request(&mut self, window: u64)
        requires
            old(self).wf(),
        ensures
            final (self).wf(),
            final (self).window_seq() == old(self).window_seq(),
            !old(self).contains_window(window) ==> final (self).entries@ == old(self).entries@,
            old(self).contains_window(window) ==> final (self).entries@ == old(
                self,
            ).entries@.update(
                old(self).index_of(window),
                (FloatEntry {
                    restore: Some(old(self).entry_of(window).geo),
                    ..old(self).entry_of(window)
                }),
            ),
            forall|x: u64|
                x != window && old(self).contains_window(x) ==> #[trigger] final (self).entry_of(x)
                    == old(self).entry_of(x),
    {
        let found = self.find(window);
        match found {
            Some(j) => {
                let e = self.entries[j];
                self.entries[j] = FloatEntry { restore: Some(e.geo), ..e };
                proof {
                    assert(self.window_seq() =~= old(self).window_seq());
                    let pre = *old(self);
                    assert forall|x: u64|
                        x != window && pre.contains_window(x) implies #[trigger] self.entry_of(x)
                        == pre.entry_of(x) by {
                        let k = choose|k: int|
                            0 <= k < pre.window_seq().len() && pre.window_seq()[k] == x;
                        assert(pre.entries@[k].window == x);
                        pre.lemma_index(x, k);
                        assert(self.entries@[k] == pre.entries@[k]);
                        self.lemma_index(x, k);
                    }
                }
            },
            None => {
            },
        }
    }

    /// Place `window` at a caller-chosen rectangle; windows not mapped here
    /// are left alone.
    pub fn set_geometry(&mut self, window: u64, geo: Rect)
        requires
            old(self).wf(),
        ensures
            final (self).wf(),
            final (self).window_seq() == old(self).window_seq(),
            !old(self).contains_window(window) ==> final (self).entries@ == old(self).entries@,
            old(self).contains_window(window) ==> final (self).entries@ == old(
                self,
            ).entries@.update(
                old(self).index_of(window),
                (FloatEntry { geo, ..old(self).entry_of(window) }),
            ),
    {
        let found = self.find(window);
        match found {
            Some(j) => {
                let e = self.entries[j];
                self.entries[j] = FloatEntry { geo, ..e };
                proof {
                    assert(self.window_seq() =~= old(self).window_seq());
                }
            },
            None => {
            },
        }
    }

    /// Restore the remembered rectangle of `window`, handing back the size it
    /// was restored to, if there was anything to restore.
    pub fn unmaximize_request(&mut self, window: u64) -> (r: Option<Size>)
        requires
            old(self).wf(),
        ensures
            final (self).wf(),
            final (self).window_seq() == old(self).window_seq(),
            r == if old(self).contains_window(window) && old(self).entry_of(window).restore
                is Some {
                Some(old(self).entry_of(window).restore->0.size)
            } else {
                Option::<Size>::None
            },
            (old(self).contains_window(window) && old(self).entry_of(window).restore is Some)
                ==> final (self).entries@ == old(self).entries@.update(
                old(self).index_of(window),
                (FloatEntry {
                    window,
                    geo: old(self).entry_of(window).restore->0,
                    restore: None,
                }),
            ),
            !(old(self).contains_window(window) && old(self).entry_of(window).restore is Some)
                ==> final (self).entries@ == old(self).entries@,
            forall|x: u64|
                x != window && old(self).contains_window(x) ==> #[trigger] final (self).entry_of(x)
                    == old(self).entry_of(x),
    {
        let found = self.find(window);
        match found {
            Some(j) => {
                let e = self.entries[j];
                match e.restore {
                    Some(r0) => {
                        self.entries[j] = FloatEntry { window, geo: r0, restore: None };
                        proof {
                            assert(self.window_seq() =~= old(self).window_seq());
                            let pre = *old(self);
                            assert forall|x: u64|
                                x != window && pre.contains_window(x) implies #[trigger] self
                                .entry_of(x) == pre.entry_of(x) by {
                                let k = choose|k: int|
                                    0 <= k < pre.window_seq().len() && pre.window_seq()[k] == x;
                                assert(pre.entries@[k].window == x);
                                pre.lemma_index(x, k);
                                assert(self.entries@[k] == pre.entries@[k]);
                                self.lemma_index(x, k);
                            }
                        }
                        Some(r0.size)
                    },
                    None => None,
                }
            },
            None => None,
        }
    }

    /// The rectangle of `window`, if it is mapped here.
    pub fn element_geometry(&self, window: u64) -> (r: Option<Rect>)
        requires
            self.wf(),
        ensures
            r == if self.contains_window(window) {
                Some(self.entry_of(window).geo)
            } else {
                Option::<Rect>::None
            },
    {
        match self.find(window) {
            Some(j) => Some(self.entries[j].geo),
            None => None,
        }
    }

    /// The topmost window whose rectangle holds `p`, with its location.
    pub fn element_under(&self, p: Point) -> (r: Option<(u64, Point)>)
        requires
            self.wf(),
        ensures
            r == match top_under(self.entries@, p) {
                Some(e) => Some((e.window, e.geo.loc)),
                None => Option::<(u64, Point)>::None,
            },
    {
        let mut i: usize = self.entries.len();
        proof {
            assert(self.entries@.take(i as int) =~= self.entries@);
        }
        while i > 0
            invariant
                i <= self.entries@.len(),
                top_under(self.entries@, p) == top_under(self.entries@.take(i as int), p),
            decreases i,
        {
            i -= 1;
            let e = self.entries[i];
            proof {
                assert(self.entries@.take(i as int + 1).drop_last() =~= self.entries@.take(
                    i as int,
                ));
                assert(self.entries@.take(i as int + 1).last() == e);
            }
            if e.geo.contains(p) {
                return Some((e.window, e.geo.loc));
            }
        }
        proof {
            assert(self.entries@.take(0) =~= Seq::<FloatEntry>::empty());
        }
        None
    }

    /// Drop every window in `dead`, keeping the order of the rest.
    pub fn retain_alive(&mut self, dead: &Vec<u64>)
        requires
            old(self).wf(),
        ensures
            final (self).wf(),
            final (self).entries@ == retain_live(old(self).entries@, fkey(), dead@),
            forall|x: u64| #[trigger] final (self).contains_window(x) == (old(
                self,
            ).contains_window(x) && !dead@.contains(x)),
    {
        let ghost pre = *self;
        let mut kept: Vec<FloatEntry> = Vec::new();
        let mut j: usize = 0;
        while j < self.entries.len()
            invariant
                j <= self.entries@.len(),
                self.entries@ == pre.entries@,
                kept@ == retain_live(pre.entries@.take(j as int), fkey(), dead@),
            decreases self.entries@.len() - j,
        {
            let e = self.entries[j];
            let is_dead = contains_id(dead, e.window);
            proof {
                assert(pre.entries@.take(j as int + 1).drop_last() =~= pre.entries@.take(j as int));
                assert(pre.entries@.take(j as int + 1).last() == e);
                assert(fkey()(e) == e.window);
            }
            if !is_dead {
                kept.push(e);
            }
            j += 1;
        }
        proof {
            assert(pre.entries@.take(pre.entries@.len() as int) =~= pre.entries@);
        }
        self.entries = kept;
        proof {
            crate::seq_util::lemma_retain_live(pre.entries@, fkey(), dead@);
        }
    }
}

} // verus!
