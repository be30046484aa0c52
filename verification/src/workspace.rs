//! The workspace orchestration core: routes windows between the floating and
//! tiling engines, tracks per-output fullscreen occupancy, keeps per-seat
//! focus bookkeeping consistent, and answers geometry queries.
//!
//! Windows, outputs, seats and surfaces are plain numeric handles.  The
//! protocol-visible state of each window (liveness, the maximized and
//! fullscreen flags, the pending size, a pending configure) is kept in a
//! registry keyed by the window handle; the compositor around the crate
//! flushes that state to its protocol objects.

use vstd::prelude::*;
use crate::floating::{fkey, FloatEntry, FloatingLayout};
use crate::focus::{without, FocusStacks};
use crate::geometry::{
    add_clip, add_i32_clip, compute_move_anchor_x, move_anchor_x, to_logical, to_logical_spec,
    Point, Rect, Scale, Size,
};
use crate::seq_util::{contains_id, lemma_without_absent, lemma_without_keeps, retain_live};
use crate::tiling::{tkey, TileEntry, TilingLayout};

verus! {

/// Which layout currently owns a window.
#[derive(Clone, Copy, PartialEq, Eq, Structural, Hash, Debug)]
pub enum ManagedState {
    Tiling,
    Floating,
}

/// `render_output` was asked about an output this workspace does not map.
#[derive(Clone, Copy, PartialEq, Eq, Structural, Debug)]
pub struct OutputNotMapped;

/// A display output as the workspace reads it: its global position, logical
/// size, physical pixel size of the current mode, and fractional scale.
#[derive(Clone, Copy, PartialEq, Eq, Structural, Debug)]
pub struct Output {
    pub id: u64,
    pub loc: Point,
    pub size: Size,
    pub mode: Size,
    pub scale: Scale,
}

impl Output {
    pub open spec fn wf(self) -> bool {
        &&& self.scale.wf()
        &&& self.size.w >= 1
        &&& self.size.h >= 1
        &&& self.mode.wf()
    }
}

/// An output mapped into the workspace, at its workspace-internal position.
#[derive(Clone, Copy, PartialEq, Eq, Structural, Debug)]
pub struct MappedOutput {
    pub output: Output,
    pub position: Point,
}

/// The registry entry of one window: its liveness, protocol-visible flags,
/// pending size, whether a configure is owed, and the surfaces backing it.
#[derive(Clone, Debug)]
pub struct WindowEntry {
    pub window: u64,
    pub alive: bool,
    pub maximized: bool,
    pub fullscreen: bool,
    pub pending_size: Option<Size>,
    pub needs_configure: bool,
    pub surfaces: Vec<u64>,
}

/// One fullscreen registry entry: the window occupying an output.
#[derive(Clone, Copy, PartialEq, Eq, Structural, Debug)]
pub struct FullscreenEntry {
    pub output: u64,
    pub window: u64,
}

/// The window handle of a registry entry, as one shared function value.
pub open spec fn wkey() -> spec_fn(WindowEntry) -> u64 {
    |e: WindowEntry| e.window
}

/// The output handle of a mapped output, as one shared function value.
pub open spec fn okey() -> spec_fn(MappedOutput) -> u64 {
    |e: MappedOutput| e.output.id
}

/// The output handle of a fullscreen entry, as one shared function value.
pub open spec fn fs_okey() -> spec_fn(FullscreenEntry) -> u64 {
    |e: FullscreenEntry| e.output
}

/// The window handle of a fullscreen entry, as one shared function value.
pub open spec fn fs_wkey() -> spec_fn(FullscreenEntry) -> u64 {
    |e: FullscreenEntry| e.window
}

/// One virtual desktop's window set plus its layout and fullscreen state.
pub struct Workspace {
    pub handle: u64,
    pub tiling_layer: TilingLayout,
    pub floating_layer: FloatingLayout,
    pub tiling_enabled: bool,
    pub fullscreen: Vec<FullscreenEntry>,
    pub focus_stack: FocusStacks,
    pub outputs: Vec<MappedOutput>,
    pub windows: Vec<WindowEntry>,
}

impl Workspace {
    /// The floating windows, bottom of the stack first.
    pub open spec fn floating_seq(self) -> Seq<u64> {
        self.floating_layer.window_seq()
    }

    /// The tiled windows, bottom of the stack first.
    pub open spec fn tiling_seq(self) -> Seq<u64> {
        self.tiling_layer.window_seq()
    }

    /// A window is owned when one of the two layouts maps it.
    pub open spec fn owns(self, w: u64) -> bool {
        self.floating_seq().contains(w) || self.tiling_seq().contains(w)
    }

    pub open spec fn fs(self) -> Seq<FullscreenEntry> {
        self.fullscreen@
    }

    /// Window `w` occupies output `o` in the fullscreen registry.
    pub open spec fn occupies(self, o: u64, w: u64) -> bool {
        self.fs().contains(FullscreenEntry { output: o, window: w })
    }

    pub open spec fn output_occupied(self, o: u64) -> bool {
        exists|i: int| 0 <= i < self.fs().len() && (#[trigger] self.fs()[i]).output == o
    }

    pub open spec fn is_occupant(self, w: u64) -> bool {
        exists|i: int| 0 <= i < self.fs().len() && (#[trigger] self.fs()[i]).window == w
    }

    pub open spec fn fs_win_index(self, w: u64) -> int {
        choose|i: int| 0 <= i < self.fs().len() && self.fs()[i].window == w
    }

    pub open spec fn win_ids(self) -> Seq<u64> {
        self.windows@.map_values(wkey())
    }

    /// The workspace has a registry entry for `w`.
    pub open spec fn knows(self, w: u64) -> bool {
        self.win_ids().contains(w)
    }

    pub open spec fn win_index(self, w: u64) -> int {
        choose|i: int| 0 <= i < self.windows@.len() && self.windows@[i].window == w
    }

    /// The registry entry of `w`; meaningful only when `knows(w)`.
    pub open spec fn win(self, w: u64) -> WindowEntry {
        self.windows@[self.win_index(w)]
    }

    /// Known and not destroyed.
    pub open spec fn alive(self, w: u64) -> bool {
        self.knows(w) && self.win(w).alive
    }

    pub open spec fn out_ids(self) -> Seq<u64> {
        self.outputs@.map_values(okey())
    }

    pub open spec fn has_output(self, o: u64) -> bool {
        self.out_ids().contains(o)
    }

    pub open spec fn out_index(self, o: u64) -> int {
        choose|i: int| 0 <= i < self.outputs@.len() && self.outputs@[i].output.id == o
    }

    /// The mapped output of handle `o`; meaningful only when `has_output(o)`.
    pub open spec fn mout(self, o: u64) -> MappedOutput {
        self.outputs@[self.out_index(o)]
    }

    /// The registry minus every entry of window `w` (there is at most one).
    pub open spec fn fs_drop_window(self, w: u64) -> Seq<FullscreenEntry> {
        if self.is_occupant(w) {
            self.fs().remove(self.fs_win_index(w))
        } else {
            self.fs()
        }
    }

    /// Well-formed workspace.  In particular: no window is owned by both
    /// layouts; each output has at most one fullscreen entry and each window
    /// occupies at most one output; every fullscreen window is known.
    pub open spec fn wf(self) -> bool {
        &&& self.floating_layer.wf()
        &&& self.tiling_layer.wf()
        &&& forall|x: u64|
            !(#[trigger] self.floating_seq().contains(x) && self.tiling_seq().contains(x))
        &&& self.fs().map_values(fs_okey()).no_duplicates()
        &&& self.fs().map_values(fs_wkey()).no_duplicates()
        &&& forall|i: int|
            0 <= i < self.fs().len() ==> self.knows((#[trigger] self.fs()[i]).window)
        &&& self.win_ids().no_duplicates()
        &&& self.out_ids().no_duplicates()
        &&& forall|i: int| 0 <= i < self.outputs@.len() ==> (#[trigger] self.outputs@[i]).output.wf()
        &&& self.focus_stack.wf()
    }

    /// Well-formedness carries over to a workspace whose ownership, registry
    /// and output state are unchanged at the view level.
    pub proof fn lemma_wf_carry(self, post: Workspace)
        requires
            self.wf(),
            post.floating_seq() == self.floating_seq(),
            post.tiling_seq() == self.tiling_seq(),
            post.fullscreen@ == self.fullscreen@,
            post.win_ids() == self.win_ids(),
            post.outputs@ == self.outputs@,
            post.focus_stack.wf(),
        ensures
            post.wf(),
    {
        assert forall|x: u64|
            !(#[trigger] post.floating_seq().contains(x) && post.tiling_seq().contains(x)) by {
            assert(!(self.floating_seq().contains(x) && self.tiling_seq().contains(x)));
        }
        assert(post.out_ids() == self.out_ids());
        assert forall|i: int| 0 <= i < post.fs().len() implies post.knows(
            (#[trigger] post.fs()[i]).window,
        ) by {
            assert(self.knows(self.fs()[i].window));
        }
        assert forall|i: int|
            0 <= i < post.outputs@.len() implies (#[trigger] post.outputs@[i]).output.wf() by {
            assert(self.outputs@[i].output.wf());
        }
    }

    pub proof fn lemma_win_index(self, w: u64, j: int)
        requires
            self.win_ids().no_duplicates(),
            0 <= j < self.windows@.len(),
            self.windows@[j].window == w,
        ensures
            self.knows(w),
            self.win_index(w) == j,
            self.win(w) == self.windows@[j],
    {
        assert(self.win_ids()[j] == w);
        let i = self.win_index(w);
        assert(0 <= i < self.windows@.len() && self.windows@[i].window == w);
        if i != j {
            assert(self.win_ids()[i] == w);
            assert(false);
        }
    }

    pub proof fn lemma_no_win(self, w: u64)
        requires
            forall|i: int| 0 <= i < self.windows@.len() ==> (#[trigger] self.windows@[i].window)
                != w,
        ensures
            !self.knows(w),
    {
        if self.knows(w) {
            let i = choose|i: int| 0 <= i < self.win_ids().len() && self.win_ids()[i] == w;
            assert(self.windows@[i].window == w);
        }
    }

    pub proof fn lemma_out_index(self, o: u64, j: int)
        requires
            self.out_ids().no_duplicates(),
            0 <= j < self.outputs@.len(),
            self.outputs@[j].output.id == o,
        ensures
            self.has_output(o),
            self.out_index(o) == j,
            self.mout(o) == self.outputs@[j],
    {
        assert(self.out_ids()[j] == o);
        let i = self.out_index(o);
        assert(0 <= i < self.outputs@.len() && self.outputs@[i].output.id == o);
        if i != j {
            assert(self.out_ids()[i] == o);
            assert(false);
        }
    }

    pub proof fn lemma_no_out(self, o: u64)
        requires
            forall|i: int|
                0 <= i < self.outputs@.len() ==> (#[trigger] self.outputs@[i]).output.id != o,
        ensures
            !self.has_output(o),
    {
        if self.has_output(o) {
            let i = choose|i: int| 0 <= i < self.out_ids().len() && self.out_ids()[i] == o;
            assert(self.outputs@[i].output.id == o);
        }
    }

    fn find_window(&self, w: u64) -> (r: Option<usize>)
        requires
            self.win_ids().no_duplicates(),
        ensures
            match r {
                Some(j) => j < self.windows@.len() && self.windows@[j as int].window == w
                    && self.knows(w) && self.win_index(w) == j,
                None => !self.knows(w),
            },
    {
        let mut j: usize = 0;
        while j < self.windows.len()
            invariant
                self.win_ids().no_duplicates(),
                j <= self.windows@.len(),
                forall|i: int| 0 <= i < j ==> (#[trigger] self.windows@[i].window) != w,
            decreases self.windows@.len() - j,
        {
            if self.windows[j].window == w {
                proof {
                    self.lemma_win_index(w, j as int);
                }
                return Some(j);
            }
            j += 1;
        }
        proof {
            self.lemma_no_win(w);
        }
        None
    }

    pub(crate) fn find_output(&self, o: u64) -> (r: Option<usize>)
        requires
            self.out_ids().no_duplicates(),
        ensures
            match r {
                Some(j) => j < self.outputs@.len() && self.outputs@[j as int].output.id == o
                    && self.has_output(o) && self.out_index(o) == j,
                None => !self.has_output(o),
            },
    {
        let mut j: usize = 0;
        while j < self.outputs.len()
            invariant
                self.out_ids().no_duplicates(),
                j <= self.outputs@.len(),
                forall|i: int| 0 <= i < j ==> (#[trigger] self.outputs@[i]).output.id != o,
            decreases self.outputs@.len() - j,
        {
            if self.outputs[j].output.id == o {
                proof {
                    self.lemma_out_index(o, j as int);
                }
                return Some(j);
            }
            j += 1;
        }
        proof {
            self.lemma_no_out(o);
        }
        None
    }

    /// Index of the fullscreen entry for output `o`, if any; with a
    /// well-formed registry it is the only one.
    pub(crate) fn find_fs_output(&self, o: u64) -> (r: Option<usize>)
        ensures
            match r {
                Some(j) => j < self.fs().len() && self.fs()[j as int].output == o
                    && self.output_occupied(o),
                None => !self.output_occupied(o),
            },
    {
        let mut j: usize = 0;
        while j < self.fullscreen.len()
            invariant
                j <= self.fs().len(),
                forall|i: int| 0 <= i < j ==> (#[trigger] self.fs()[i]).output != o,
            decreases self.fs().len() - j,
        {
            if self.fullscreen[j].output == o {
                return Some(j);
            }
            j += 1;
        }
        None
    }

    /// Index of the fullscreen entry of window `w`, if any.
    fn find_fs_window(&self, w: u64) -> (r: Option<usize>)
        ensures
            match r {
                Some(j) => j < self.fs().len() && self.fs()[j as int].window == w
                    && self.is_occupant(w),
                None => !self.is_occupant(w),
            },
    {
        let mut j: usize = 0;
        while j < self.fullscreen.len()
            invariant
                j <= self.fs().len(),
                forall|i: int| 0 <= i < j ==> (#[trigger] self.fs()[i]).window != w,
            decreases self.fs().len() - j,
        {
            if self.fullscreen[j].window == w {
                return Some(j);
            }
            j += 1;
        }
        None
    }

    /// A fresh, empty workspace in tiling mode.
    pub fn new(handle: u64) -> (r: Workspace)
        ensures
            r.wf(),
            r.handle == handle,
            r.tiling_enabled,
            r.floating_seq() == Seq::<u64>::empty(),
            r.tiling_seq() == Seq::<u64>::empty(),
            r.fs() == Seq::<FullscreenEntry>::empty(),
            r.windows@ == Seq::<WindowEntry>::empty(),
            r.outputs@ == Seq::<MappedOutput>::empty(),
            forall|s: u64| #[trigger] r.focus_stack.stack_of(s) == Seq::<u64>::empty(),
    {
        let r = Workspace {
            handle,
            tiling_layer: TilingLayout::new(),
            floating_layer: FloatingLayout::new(),
            tiling_enabled: true,
            fullscreen: Vec::new(),
            focus_stack: FocusStacks::new(),
            outputs: Vec::new(),
            windows: Vec::new(),
        };
        proof {
            assert(r.fs().map_values(fs_okey()) =~= Seq::<u64>::empty());
            assert(r.fs().map_values(fs_wkey()) =~= Seq::<u64>::empty());
            assert(r.win_ids() =~= Seq::<u64>::empty());
            assert(r.out_ids() =~= Seq::<u64>::empty());
        }
        r
    }

    /// Map an output into the workspace at `position`; mapping a known
    /// output moves it.
    pub fn map_output(&mut self, output: &Output, position: Point)
        requires
            old(self).wf(),
            output.wf(),
        ensures
            final (self).wf(),
            final (self).has_output(output.id),
            final (self).mout(output.id) == (MappedOutput { output: *output, position }),
            forall|x: u64| #[trigger] final (self).has_output(x) == (old(self).has_output(x) || x
                == output.id),
            forall|x: u64|
                x != output.id && old(self).has_output(x) ==> #[trigger] final (self).mout(x)
                    == old(self).mout(x),
            final (self).floating_layer == old(self).floating_layer,
            final (self).tiling_layer == old(self).tiling_layer,
            final (self).fullscreen == old(self).fullscreen,
            final (self).windows == old(self).windows,
            final (self).focus_stack == old(self).focus_stack,
            final (self).tiling_enabled == old(self).tiling_enabled,
    {
        let ghost pre = *self;
        let e = MappedOutput { output: *output, position };
        let ghost mut j_new: int = 0;
        match self.find_output(output.id) {
            Some(j) => {
                self.outputs[j] = e;
                proof {
                    assert(self.out_ids() =~= pre.out_ids());
                    j_new = j as int;
                }
            },
            None => {
                proof {
                    j_new = self.outputs@.len() as int;
                }
                self.outputs.push(e);
                proof {
                    assert(self.out_ids() =~= pre.out_ids().push(output.id));
                    assert(self.out_ids().no_duplicates()) by {
                        let t = self.out_ids();
                        assert forall|a: int, b: int| 0 <= a < b < t.len() implies t[a] != t[b] by {
                            if b == t.len() - 1 {
                                if t[a] == output.id {
                                    assert(pre.out_ids()[a] == output.id);
                                }
                            } else {
                                assert(t[a] == pre.out_ids()[a] && t[b] == pre.out_ids()[b]);
                            }
                        }
                    }
                }
            },
        }
        proof {
            self.lemma_out_index(output.id, j_new);
            assert forall|x: u64|
                x != output.id && pre.has_output(x) implies #[trigger] self.mout(x) == pre.mout(x)
                && self.has_output(x) by {
                let i = pre.out_index(x);
                assert(pre.out_ids()[i] == x);
                pre.lemma_out_index(x, i);
                self.lemma_out_index(x, i);
            }
            assert forall|x: u64| #[trigger] self.has_output(x) == (pre.has_output(x) || x
                == output.id) by {
                if x != output.id {
                    if pre.has_output(x) {
                        assert(self.mout(x) == pre.mout(x));
                    } else if self.has_output(x) {
                        let k = choose|k: int|
                            0 <= k < self.out_ids().len() && self.out_ids()[k] == x;
                        assert(self.outputs@[k].output.id == x);
                        if k != j_new {
                            assert(pre.out_ids()[k] == x);
                        }
                    }
                }
            }
            assert(self.wf()) by {
                assert forall|x: u64|
                    !(#[trigger] self.floating_seq().contains(x) && self.tiling_seq().contains(
                        x,
                    )) by {
                    assert(!(pre.floating_seq().contains(x) && pre.tiling_seq().contains(x)));
                }
                assert(self.fs() == pre.fs());
                assert(self.win_ids() == pre.win_ids());
                assert forall|i: int| 0 <= i < self.fs().len() implies self.knows(
                    (#[trigger] self.fs()[i]).window,
                ) by {
                    assert(pre.knows(pre.fs()[i].window));
                }
                assert forall|i: int|
                    0 <= i < self.outputs@.len() implies (#[trigger] self.outputs@[i]).output.wf()
                    by {
                    if i != j_new {
                        assert(self.outputs@[i] == pre.outputs@[i]);
                        assert(pre.outputs@[i].output.wf());
                    }
                }
            }
        }
    }

    /// Route a new window into whichever layout is active.  In tiling mode it
    /// is attached near the seat's most recently focused window on `output`;
    /// otherwise the floating engine places it.  The window's registry entry
    /// is created, or its surface list refreshed if it is already known.
    pub fn map(&mut self, window: u64, surfaces: Vec<u64>, seat: u64, output: u64)
        requires
            old(self).wf(),
            !old(self).owns(window),
        ensures
            final (self).wf(),
            final (self).owns(window),
            final (self).tiling_enabled == old(self).tiling_enabled,
            old(self).tiling_enabled ==> final (self).tiling_seq().contains(window) && final (
            self).floating_layer == old(self).floating_layer,
            !old(self).tiling_enabled ==> final (self).floating_seq() == old(
                self,
            ).floating_seq().push(window) && final (self).tiling_layer == old(self).tiling_layer,
            forall|x: u64|
                x != window ==> (#[trigger] final (self).floating_seq().contains(x) == old(
                self,
            ).floating_seq().contains(x) && final (self).tiling_seq().contains(x) == old(
                self,
            ).tiling_seq().contains(x)),
            final (self).knows(window),
            final (self).win(window).surfaces@ == surfaces@,
            final (self).win(window).alive == (if old(self).knows(window) {
                old(self).win(window).alive
            } else {
                true
            }),
            forall|x: u64| #[trigger] final (self).knows(x) == (old(self).knows(x) || x == window),
            forall|x: u64|
                x != window && old(self).knows(x) ==> #[trigger] final (self).win(x) == old(
                    self,
                ).win(x),
            final (self).fullscreen == old(self).fullscreen,
            final (self).outputs == old(self).outputs,
            final (self).focus_stack == old(self).focus_stack,
    {
        let ghost pre = *self;
        match self.find_window(window) {
            Some(j) => {
                let e = &self.windows[j];
                let e2 = WindowEntry {
                    window,
                    alive: e.alive,
                    maximized: e.maximized,
                    fullscreen: e.fullscreen,
                    pending_size: e.pending_size,
                    needs_configure: e.needs_configure,
                    surfaces,
                };
                self.windows[j] = e2;
                proof {
                    assert(self.win_ids() =~= pre.win_ids());
                    self.lemma_win_index(window, j as int);
                    assert forall|x: u64|
                        x != window && pre.knows(x) implies #[trigger] self.win(x) == pre.win(
                        x,
                    ) by {
                        let i = pre.win_index(x);
                        assert(pre.win_ids()[i] == x);
                        pre.lemma_win_index(x, i);
                        self.lemma_win_index(x, i);
                    }
                    assert forall|x: u64| #[trigger] self.knows(x) == (pre.knows(x) || x
                        == window) by {}
                }
            },
            None => {
                let ghost j = self.windows@.len();
                self.windows.push(
                    WindowEntry {
                        window,
                        alive: true,
                        maximized: false,
                        fullscreen: false,
                        pending_size: None,
                        needs_configure: false,
                        surfaces,
                    },
                );
                proof {
                    assert(self.win_ids() =~= pre.win_ids().push(window));
                    assert(self.win_ids().no_duplicates()) by {
                        let t = self.win_ids();
                        assert forall|a: int, b: int| 0 <= a < b < t.len() implies t[a] != t[b] by {
                            if b == t.len() - 1 {
                                if t[a] == window {
                                    assert(pre.win_ids()[a] == window);
                                }
                            } else {
                                assert(t[a] == pre.win_ids()[a] && t[b] == pre.win_ids()[b]);
                            }
                        }
                    }
                    self.lemma_win_index(window, j as int);
                    assert forall|x: u64|
                        x != window && pre.knows(x) implies #[trigger] self.win(x) == pre.win(
                        x,
                    ) by {
                        let i = pre.win_index(x);
                        assert(pre.win_ids()[i] == x);
                        pre.lemma_win_index(x, i);
                        self.lemma_win_index(x, i);
                    }
                    assert forall|x: u64| #[trigger] self.knows(x) == (pre.knows(x) || x
                        == window) by {
                        if x != window && self.knows(x) && !pre.knows(x) {
                            let k = choose|k: int|
                                0 <= k < self.win_ids().len() && self.win_ids()[k] == x;
                            if k < pre.win_ids().len() {
                                assert(pre.win_ids()[k] == x);
                            } else {
                                assert(self.win_ids()[k] == window);
                            }
                        }
                        if x != window && pre.knows(x) {
                            let k = choose|k: int|
                                0 <= k < pre.win_ids().len() && pre.win_ids()[k] == x;
                            assert(self.win_ids()[k] == x);
                        }
                    }
                }
            },
        }
        let ghost mid = *self;
        if self.tiling_enabled {
            let near = self.focus_stack.focused(seat);
            self.tiling_layer.map(window, output, near);
        } else {
            self.floating_layer.map(window, None);
        }
        proof {
            assert(self.windows@ == mid.windows@);
            assert(self.win_ids() == mid.win_ids());
            assert(self.outputs@ == mid.outputs@);
            assert(self.fullscreen@ == mid.fullscreen@);
            assert forall|x: u64| #[trigger] self.knows(x) == (pre.knows(x) || x == window) by {
                assert(mid.knows(x) == (pre.knows(x) || x == window));
            }
            assert forall|x: u64|
                x != window && pre.knows(x) implies #[trigger] self.win(x) == pre.win(x) by {
                assert(mid.win(x) == pre.win(x));
                assert(mid.knows(x));
                let k = choose|k: int| 0 <= k < mid.win_ids().len() && mid.win_ids()[k] == x;
                assert(mid.windows@[k].window == x);
                mid.lemma_win_index(x, k);
                self.lemma_win_index(x, k);
            }
            assert(self.win(window) == mid.win(window)) by {
                assert(mid.knows(window));
                let k = choose|k: int|
                    0 <= k < mid.win_ids().len() && mid.win_ids()[k] == window;
                assert(mid.windows@[k].window == window);
                mid.lemma_win_index(window, k);
                self.lemma_win_index(window, k);
            }
            assert forall|x: u64|
                x != window implies (#[trigger] self.floating_seq().contains(x)
                == pre.floating_seq().contains(x) && self.tiling_seq().contains(x)
                == pre.tiling_seq().contains(x)) by {
                if mid.tiling_enabled {
                    assert(self.tiling_layer.contains_window(x) == mid.tiling_layer.contains_window(
                        x,
                    ));
                    assert(self.floating_layer == mid.floating_layer);
                } else {
                    assert(self.tiling_layer == mid.tiling_layer);
                    assert(self.floating_seq() == pre.floating_seq().push(window));
                    if pre.floating_seq().contains(x) {
                        let k = choose|k: int|
                            0 <= k < pre.floating_seq().len() && pre.floating_seq()[k] == x;
                        assert(self.floating_seq()[k] == x);
                    }
                    if self.floating_seq().contains(x) {
                        let k = choose|k: int|
                            0 <= k < self.floating_seq().len() && self.floating_seq()[k] == x;
                        assert(k < self.floating_seq().len() - 1);
                        assert(pre.floating_seq()[k] == x);
                    }
                }
            }
            assert(self.owns(window)) by {
                if mid.tiling_enabled {
                    assert(self.tiling_layer.contains_window(window));
                } else {
                    assert(self.floating_seq() == pre.floating_seq().push(window));
                    assert(self.floating_seq().last() == window);
                }
            }
            assert forall|x: u64|
                !(#[trigger] self.floating_seq().contains(x) && self.tiling_seq().contains(x)) by {
                assert(!(pre.floating_seq().contains(x) && pre.tiling_seq().contains(x)));
                if x == window {
                    assert(!pre.owns(window));
                    if mid.tiling_enabled {
                        assert(self.floating_seq() == pre.floating_seq());
                    } else {
                        assert(self.tiling_seq() == pre.tiling_seq());
                        assert(!self.tiling_seq().contains(window));
                    }
                }
            }
            assert forall|i: int| 0 <= i < self.fs().len() implies self.knows(
                (#[trigger] self.fs()[i]).window,
            ) by {
                assert(pre.knows(pre.fs()[i].window));
                assert(mid.knows(pre.fs()[i].window));
            }
            assert forall|i: int|
                0 <= i < self.outputs@.len() implies (#[trigger] self.outputs@[i]).output.wf() by {
                assert(pre.outputs@[i].output.wf());
            }
        }
    }

    /// Attempt removal from both layouts; with a well-formed workspace at
    /// most one succeeds.  On success the window is purged from every seat's
    /// focus set; unmapping an absent window is a benign no-op.
    pub fn unmap(&mut self, window: u64) -> (r: Option<ManagedState>)
        requires
            old(self).wf(),
        ensures
            final (self).wf(),
            r == if old(self).floating_seq().contains(window) {
                Some(ManagedState::Floating)
            } else if old(self).tiling_seq().contains(window) {
                Some(ManagedState::Tiling)
            } else {
                Option::<ManagedState>::None
            },
            final (self).floating_seq() == without(old(self).floating_seq(), window),
            final (self).tiling_seq() == without(old(self).tiling_seq(), window),
            !final (self).owns(window),
            forall|s: u64| #[trigger] final (self).focus_stack.stack_of(s) == without(
                old(self).focus_stack.stack_of(s),
                window,
            ),
            final (self).fullscreen == old(self).fullscreen,
            final (self).outputs == old(self).outputs,
            final (self).windows == old(self).windows,
            final (self).tiling_enabled == old(self).tiling_enabled,
    {
        let was_floating = self.floating_layer.unmap(window);
        let was_tiling = self.tiling_layer.unmap(window);
        proof {
            assert(!(old(self).floating_seq().contains(window) && old(self).tiling_seq().contains(
                window,
            )));
            assert(!(was_floating && was_tiling));
        }
        self.focus_stack.remove_window(window);
        proof {
            assert forall|x: u64|
                !(#[trigger] self.floating_seq().contains(x) && self.tiling_seq().contains(x)) by {
                if x != window {
                    lemma_without_keeps(old(self).floating_seq(), window, x);
                    lemma_without_keeps(old(self).tiling_seq(), window, x);
                } else {
                    lemma_without_absent(old(self).floating_seq(), window);
                    lemma_without_absent(old(self).tiling_seq(), window);
                }
            }
        }
        if was_floating {
            Some(ManagedState::Floating)
        } else if was_tiling {
            Some(ManagedState::Tiling)
        } else {
            None
        }
    }

    /// All owned windows: the floating stack, then the tiled stack.
    pub fn mapped(&self) -> (r: Vec<u64>)
        ensures
            r@ == self.floating_seq() + self.tiling_seq(),
    {
        let mut r: Vec<u64> = Vec::new();
        let mut j: usize = 0;
        while j < self.floating_layer.entries.len()
            invariant
                j <= self.floating_layer.entries@.len(),
                r@ == self.floating_seq().take(j as int),
            decreases self.floating_layer.entries@.len() - j,
        {
            r.push(self.floating_layer.entries[j].window);
            proof {
                assert(r@ =~= self.floating_seq().take(j as int + 1));
            }
            j += 1;
        }
        proof {
            assert(self.floating_seq().take(self.floating_seq().len() as int)
                =~= self.floating_seq());
        }
        let mut k: usize = 0;
        while k < self.tiling_layer.entries.len()
            invariant
                k <= self.tiling_layer.entries@.len(),
                r@ == self.floating_seq() + self.tiling_seq().take(k as int),
            decreases self.tiling_layer.entries@.len() - k,
        {
            r.push(self.tiling_layer.entries[k].window);
            proof {
                assert(r@ =~= self.floating_seq() + self.tiling_seq().take(k as int + 1));
            }
            k += 1;
        }
        proof {
            assert(self.floating_seq() + self.tiling_seq().take(self.tiling_seq().len() as int)
                =~= self.floating_seq() + self.tiling_seq());
            assert(self.floating_seq() + self.tiling_seq().take(0) =~= self.floating_seq());
        }
        r
    }

    /// The windows of the workspace, floating first; for this core each
    /// managed window stands for its whole aggregate.
    pub fn windows(&self) -> (r: Vec<u64>)
        ensures
            r@ == self.floating_seq() + self.tiling_seq(),
    {
        self.mapped()
    }

    /// Record that `seat` focused `window`.
    pub fn focus_append(&mut self, seat: u64, window: u64)
        requires
            old(self).wf(),
        ensures
            final (self).wf(),
            final (self).focus_stack.stack_of(seat) == seq![window] + without(
                old(self).focus_stack.stack_of(seat),
                window,
            ),
            forall|s: u64|
                s != seat ==> #[trigger] final (self).focus_stack.stack_of(s) == old(
                    self,
                ).focus_stack.stack_of(s),
            final (self).floating_layer == old(self).floating_layer,
            final (self).tiling_layer == old(self).tiling_layer,
            final (self).fullscreen == old(self).fullscreen,
            final (self).outputs == old(self).outputs,
            final (self).windows == old(self).windows,
            final (self).tiling_enabled == old(self).tiling_enabled,
    {
        self.focus_stack.append(seat, window);
        proof {
            old(self).lemma_wf_carry(*self);
        }
    }

    /// Record that `window`'s backing object was destroyed; the next
    /// `refresh` sweeps it out of every structure.
    pub fn mark_dead(&mut self, window: u64)
        requires
            old(self).wf(),
        ensures
            final (self).wf(),
            forall|x: u64| #[trigger] final (self).knows(x) == old(self).knows(x),
            old(self).knows(window) ==> final (self).win(window) == (WindowEntry {
                alive: false,
                ..old(self).win(window)
            }),
            forall|x: u64|
                x != window && old(self).knows(x) ==> #[trigger] final (self).win(x) == old(
                    self,
                ).win(x),
            final (self).floating_layer == old(self).floating_layer,
            final (self).tiling_layer == old(self).tiling_layer,
            final (self).fullscreen == old(self).fullscreen,
            final (self).outputs == old(self).outputs,
            final (self).focus_stack == old(self).focus_stack,
            final (self).tiling_enabled == old(self).tiling_enabled,
    {
        let ghost pre = *self;
        match self.find_window(window) {
            Some(j) => {
                let e = self.windows.remove(j);
                let e2 = WindowEntry { alive: false, ..e };
                self.windows.insert(j, e2);
                proof {
                    assert(self.windows@ =~= pre.windows@.update(j as int, e2));
                    assert(self.win_ids() =~= pre.win_ids());
                    self.lemma_win_index(window, j as int);
                    assert forall|x: u64|
                        x != window && pre.knows(x) implies #[trigger] self.win(x) == pre.win(
                        x,
                    ) by {
                        let i = pre.win_index(x);
                        assert(pre.win_ids()[i] == x);
                        pre.lemma_win_index(x, i);
                        self.lemma_win_index(x, i);
                    }
                    assert(self.win(window) == (WindowEntry { alive: false, ..pre.win(window) }));
                    pre.lemma_wf_carry(*self);
                }
            },
            None => {},
        }
    }

    /// The registry entry of `window`, if the workspace knows it.
    pub fn window_state(&self, window: u64) -> (r: Option<WindowEntry>)
        requires
            self.wf(),
        ensures
            match r {
                Some(e) => self.knows(window) && win_entry_like(e, self.win(window)),
                None => !self.knows(window),
            },
    {
        match self.find_window(window) {
            Some(j) => {
                let e = &self.windows[j];
                let c = WindowEntry {
                    window: e.window,
                    alive: e.alive,
                    maximized: e.maximized,
                    fullscreen: e.fullscreen,
                    pending_size: e.pending_size,
                    needs_configure: e.needs_configure,
                    surfaces: e.surfaces.clone(),
                };
                Some(c)
            },
            None => None,
        }
    }

    /// The occupant of `output`, dead windows reported as absent even before
    /// the next `refresh` sweeps them.
    pub fn get_fullscreen(&self, output: u64) -> (r: Option<u64>)
        requires
            self.wf(),
        ensures
            match r {
                Some(w) => self.occupies(output, w) && self.alive(w),
                None => forall|x: u64| #[trigger] self.occupies(output, x) ==> !self.alive(x),
            },
    {
        match self.find_fs_output(output) {
            Some(j) => {
                let w = self.fullscreen[j].window;
                let a = match self.find_window(w) {
                    Some(k) => self.windows[k].alive,
                    None => false,
                };
                if a {
                    proof {
                        assert(self.fs()[j as int] == (FullscreenEntry { output, window: w }));
                    }
                    Some(w)
                } else {
                    proof {
                        assert forall|x: u64| #[trigger] self.occupies(output, x) implies !self
                            .alive(x) by {
                            let i = choose|i: int|
                                0 <= i < self.fs().len() && self.fs()[i] == (FullscreenEntry {
                                    output,
                                    window: x,
                                });
                            assert(self.fs().map_values(fs_okey())[i] == output);
                            assert(self.fs().map_values(fs_okey())[j as int] == output);
                            if i != j as int {
                                assert(false);
                            }
                        }
                    }
                    None
                }
            },
            None => {
                proof {
                    assert forall|x: u64| #[trigger] self.occupies(output, x) implies !self.alive(
                        x,
                    ) by {
                        let i = choose|i: int|
                            0 <= i < self.fs().len() && self.fs()[i] == (FullscreenEntry {
                                output,
                                window: x,
                            });
                        assert(self.fs()[i].output == output);
                    }
                }
                None
            },
        }
    }
}

impl Workspace {
    /// What the shared occupy-output transition promises, entered with the
    /// protocol flags already set: `w` is recorded as `out`'s occupant (its
    /// old entry, if any, dropped first), resized to the output's mode in
    /// logical pixels, foregrounded in its owning layout, and owed a
    /// configure.  Everything else is untouched.
    pub open spec fn occupy_post(pre: Workspace, post: Workspace, w: u64, out: Output) -> bool {
        &&& post.fs() == pre.fs_drop_window(w).push(FullscreenEntry { output: out.id, window: w })
        &&& post.occupies(out.id, w)
        &&& post.win(w).pending_size == Some(to_logical_spec(out.mode, out.scale))
        &&& post.win(w).needs_configure == true
        &&& post.win(w).alive == pre.win(w).alive
        &&& post.win(w).surfaces@ == pre.win(w).surfaces@
        &&& forall|x: u64| #[trigger] post.knows(x) == pre.knows(x)
        &&& forall|x: u64| x != w && pre.knows(x) ==> #[trigger] post.win(x) == pre.win(x)
        &&& post.floating_seq() == if pre.floating_seq().contains(w) {
            without(pre.floating_seq(), w).push(w)
        } else {
            pre.floating_seq()
        }
        &&& forall|x: u64| #[trigger] post.floating_seq().contains(x) == pre.floating_seq().contains(
            x,
        )
        &&& forall|x: u64|
            x != w && pre.floating_seq().contains(x)
                ==> #[trigger] post.floating_layer.entry_of(x) == pre.floating_layer.entry_of(x)
        &&& post.tiling_layer.entries@ == pre.tiling_layer.entries@
        &&& post.tiling_layer.active == if !pre.floating_seq().contains(w)
            && pre.tiling_seq().contains(w) {
            Some(w)
        } else {
            pre.tiling_layer.active
        }
        &&& post.outputs@ == pre.outputs@
        &&& post.focus_stack == pre.focus_stack
        &&& post.tiling_enabled == pre.tiling_enabled
    }

    /// Dropping window `w`'s registry entry keeps every other entry, in
    /// order, and keeps the registry exclusive.
    pub proof fn lemma_fs_drop(self, w: u64)
        requires
            self.fs().map_values(fs_okey()).no_duplicates(),
            self.fs().map_values(fs_wkey()).no_duplicates(),
        ensures
            self.fs_drop_window(w).map_values(fs_okey()).no_duplicates(),
            self.fs_drop_window(w).map_values(fs_wkey()).no_duplicates(),
            forall|i: int|
                0 <= i < self.fs_drop_window(w).len() ==> self.fs().contains(
                    #[trigger] self.fs_drop_window(w)[i],
                ) && self.fs_drop_window(w)[i].window != w,
            forall|o: u64, x: u64|
                x != w ==> (#[trigger] self.fs_drop_window(w).contains(
                    FullscreenEntry { output: o, window: x },
                ) == self.fs().contains(FullscreenEntry { output: o, window: x })),
    {
        let d = self.fs_drop_window(w);
        if self.is_occupant(w) {
            let j = self.fs_win_index(w);
            assert(0 <= j < self.fs().len() && self.fs()[j].window == w);
            assert(d == self.fs().remove(j));
            assert(d.map_values(fs_okey()) =~= self.fs().map_values(fs_okey()).remove(j));
            assert(d.map_values(fs_wkey()) =~= self.fs().map_values(fs_wkey()).remove(j));
            assert forall|a: int, b: int|
                0 <= a < b < d.len() implies (d.map_values(fs_okey())[a] != d.map_values(
                fs_okey(),
            )[b] && d.map_values(fs_wkey())[a] != d.map_values(fs_wkey())[b]) by {
                let a0: int = if a < j {
                    a
                } else {
                    a + 1
                };
                let b0: int = if b < j {
                    b
                } else {
                    b + 1
                };
                assert(d[a] == self.fs()[a0] && d[b] == self.fs()[b0]);
                assert(self.fs().map_values(fs_okey())[a0] != self.fs().map_values(fs_okey())[b0]);
                assert(self.fs().map_values(fs_wkey())[a0] != self.fs().map_values(fs_wkey())[b0]);
            }
            assert forall|i: int| 0 <= i < d.len() implies self.fs().contains(#[trigger] d[i])
                && d[i].window != w by {
                let i0: int = if i < j {
                    i
                } else {
                    i + 1
                };
                assert(d[i] == self.fs()[i0]);
                if d[i].window == w {
                    assert(self.fs().map_values(fs_wkey())[i0] == w);
                    assert(self.fs().map_values(fs_wkey())[j] == w);
                }
            }
            assert forall|o: u64, x: u64| x != w implies (#[trigger] d.contains(
                FullscreenEntry { output: o, window: x },
            ) == self.fs().contains(FullscreenEntry { output: o, window: x })) by {
                let e = FullscreenEntry { output: o, window: x };
                if d.contains(e) {
                    let i = choose|i: int| 0 <= i < d.len() && d[i] == e;
                    assert(self.fs().contains(d[i]));
                }
                if self.fs().contains(e) {
                    let i = choose|i: int| 0 <= i < self.fs().len() && self.fs()[i] == e;
                    if i < j {
                        assert(d[i] == e);
                    } else {
                        assert(i != j);
                        assert(d[i - 1] == e);
                    }
                }
            }
        } else {
            assert(d == self.fs());
            assert forall|i: int| 0 <= i < d.len() implies self.fs().contains(#[trigger] d[i])
                && d[i].window != w by {
                assert(self.fs()[i].window != w);
            }
        }
    }

    /// Replace the protocol-visible state of a known window, leaving its
    /// identity, liveness and surfaces alone.
    fn set_protocol_state(
        &mut self,
        window: u64,
        maximized: bool,
        fullscreen: bool,
        pending_size: Option<Size>,
        needs_configure: bool,
    )
        requires
            old(self).wf(),
            old(self).knows(window),
        ensures
            final (self).wf(),
            final (self).win_ids() == old(self).win_ids(),
            forall|x: u64| #[trigger] final (self).knows(x) == old(self).knows(x),
            final (self).win(window) == (WindowEntry {
                maximized,
                fullscreen,
                pending_size,
                needs_configure,
                ..old(self).win(window)
            }),
            forall|x: u64|
                x != window && old(self).knows(x) ==> #[trigger] final (self).win(x) == old(
                    self,
                ).win(x),
            final (self).floating_layer == old(self).floating_layer,
            final (self).tiling_layer == old(self).tiling_layer,
            final (self).fullscreen == old(self).fullscreen,
            final (self).outputs == old(self).outputs,
            final (self).focus_stack == old(self).focus_stack,
            final (self).tiling_enabled == old(self).tiling_enabled,
    {
        let ghost pre = *self;
        let j = match self.find_window(window) {
            Some(j) => j,
            None => {
                proof {
                    assert(false);
                }
                0
            },
        };
        let e = self.windows.remove(j);
        let e2 = WindowEntry { maximized, fullscreen, pending_size, needs_configure, ..e };
        self.windows.insert(j, e2);
        proof {
            assert(self.windows@ =~= pre.windows@.update(j as int, e2));
            assert(self.win_ids() =~= pre.win_ids());
            self.lemma_win_index(window, j as int);
            assert forall|x: u64|
                x != window && pre.knows(x) implies #[trigger] self.win(x) == pre.win(x) by {
                let i = pre.win_index(x);
                assert(pre.win_ids()[i] == x);
                pre.lemma_win_index(x, i);
                self.lemma_win_index(x, i);
            }
            pre.lemma_wf_carry(*self);
        }
    }

    /// The shared occupy-output transition: foreground `window` in its
    /// owning layout, resize it to the output's mode in logical pixels, owe
    /// it a configure, and record it as the output's occupant.
    fn occupy_output(&mut self, window: u64, out: &Output)
        requires
            old(self).wf(),
            old(self).knows(window),
            out.wf(),
            !old(self).output_occupied(out.id),
        ensures
            final (self).wf(),
            Workspace::occupy_post(*old(self), *final (self), window, *out),
            final (self).win(window).maximized == old(self).win(window).maximized,
            final (self).win(window).fullscreen == old(self).win(window).fullscreen,
            old(self).floating_seq().contains(window) ==> final (self).floating_layer.entry_of(
                window,
            ) == old(self).floating_layer.entry_of(window),
    {
        let ghost pre = *self;
        if self.floating_layer.has_window(window) {
            self.floating_layer.raise(window);
        } else {
            self.tiling_layer.set_active(window);
        }
        let ghost mid1 = *self;
        proof {
            assert(mid1.win_ids() == pre.win_ids());
            assert forall|x: u64| #[trigger] mid1.floating_seq().contains(x)
                == pre.floating_seq().contains(x) by {
                assert(mid1.floating_layer.contains_window(x) == pre.floating_layer.contains_window(
                    x,
                ));
            }
        }
        let size = to_logical(out.mode, out.scale);
        let m = match self.find_window(window) {
            Some(j) => self.windows[j].maximized,
            None => {
                proof {
                    assert(false);
                }
                false
            },
        };
        let f = match self.find_window(window) {
            Some(j) => self.windows[j].fullscreen,
            None => {
                proof {
                    assert(false);
                }
                false
            },
        };
        self.set_protocol_state(window, m, f, Some(size), true);
        let ghost mid2 = *self;
        let fs_at = self.find_fs_window(window);
        match fs_at {
            Some(j) => {
                self.fullscreen.remove(j);
                proof {
                    let k = mid2.fs_win_index(window);
                    assert(0 <= k < mid2.fs().len() && mid2.fs()[k].window == window);
                    if k != j as int {
                        assert(mid2.fs().map_values(fs_wkey())[k] == window);
                        assert(mid2.fs().map_values(fs_wkey())[j as int] == window);
                    }
                    assert(self.fullscreen@ == mid2.fs_drop_window(window));
                }
            },
            None => {
                proof {
                    assert(self.fullscreen@ == mid2.fs_drop_window(window));
                }
            },
        }
        self.fullscreen.push(FullscreenEntry { output: out.id, window });
        proof {
            assert(pre.fs() == mid2.fs());
            assert(pre.fs_drop_window(window) == mid2.fs_drop_window(window)) by {
                if pre.is_occupant(window) {
                    assert(mid2.is_occupant(window));
                    assert(pre.fs_win_index(window) == mid2.fs_win_index(window));
                } else {
                    assert(!mid2.is_occupant(window));
                }
            }
            let d = pre.fs_drop_window(window);
            assert(self.fs() =~= d.push(FullscreenEntry { output: out.id, window }));
            pre.lemma_fs_drop(window);
            assert(self.fs().map_values(fs_okey()) =~= d.map_values(fs_okey()).push(out.id));
            assert(self.fs().map_values(fs_wkey()) =~= d.map_values(fs_wkey()).push(window));
            assert(self.fs().map_values(fs_okey()).no_duplicates()) by {
                let t = self.fs().map_values(fs_okey());
                assert forall|a: int, b: int| 0 <= a < b < t.len() implies t[a] != t[b] by {
                    if b == t.len() - 1 {
                        if t[a] == out.id {
                            assert(d[a].output == out.id);
                            assert(pre.fs().contains(d[a]));
                            let k = choose|k: int|
                                0 <= k < pre.fs().len() && pre.fs()[k] == d[a];
                            assert(pre.fs()[k].output == out.id);
                        }
                    } else {
                        assert(t[a] == d.map_values(fs_okey())[a] && t[b] == d.map_values(
                            fs_okey(),
                        )[b]);
                    }
                }
            }
            assert(self.fs().map_values(fs_wkey()).no_duplicates()) by {
                let t = self.fs().map_values(fs_wkey());
                assert forall|a: int, b: int| 0 <= a < b < t.len() implies t[a] != t[b] by {
                    if b == t.len() - 1 {
                        if t[a] == window {
                            assert(d[a].window == window);
                        }
                    } else {
                        assert(t[a] == d.map_values(fs_wkey())[a] && t[b] == d.map_values(
                            fs_wkey(),
                        )[b]);
                    }
                }
            }
            assert forall|i: int| 0 <= i < self.fs().len() implies self.knows(
                (#[trigger] self.fs()[i]).window,
            ) by {
                assert(self.win_ids() == mid2.win_ids());
                if i < self.fs().len() - 1 {
                    assert(self.fs()[i] == d[i]);
                    assert(pre.fs().contains(d[i]));
                    let k = choose|k: int| 0 <= k < pre.fs().len() && pre.fs()[k] == d[i];
                    assert(pre.knows(pre.fs()[k].window));
                    assert(mid2.knows(d[i].window));
                } else {
                    assert(self.fs()[i].window == window);
                    assert(mid2.knows(window));
                }
            }
            assert(self.wf()) by {
                assert forall|x: u64|
                    !(#[trigger] self.floating_seq().contains(x) && self.tiling_seq().contains(
                        x,
                    )) by {
                    assert(!(pre.floating_seq().contains(x) && pre.tiling_seq().contains(x)));
                    assert(self.floating_seq().contains(x) == mid1.floating_seq().contains(x));
                    assert(self.tiling_seq() == pre.tiling_seq());
                }
                assert forall|i: int|
                    0 <= i < self.outputs@.len() implies (#[trigger] self.outputs@[i]).output.wf()
                    by {
                    assert(pre.outputs@[i].output.wf());
                }
            }
            assert(self.occupies(out.id, window)) by {
                assert(self.fs().last() == (FullscreenEntry { output: out.id, window }));
            }
            assert(Workspace::occupy_post(pre, *self, window, *out)) by {
                assert forall|x: u64| #[trigger] self.floating_seq().contains(x)
                    == pre.floating_seq().contains(x) by {
                    assert(self.floating_layer.contains_window(x)
                        == pre.floating_layer.contains_window(x));
                }
                assert forall|x: u64| #[trigger] self.knows(x) == pre.knows(x) by {
                    assert(mid2.knows(x) == mid1.knows(x));
                }
                assert forall|x: u64|
                    x != window && pre.knows(x) implies #[trigger] self.win(x) == pre.win(x) by {
                    assert(mid2.win(x) == mid1.win(x));
                }
                assert(self.win(window) == mid2.win(window));
                if pre.floating_seq().contains(window) {
                    assert(pre.floating_layer.contains_window(window));
                    assert(self.floating_layer.entry_of(window) == pre.floating_layer.entry_of(
                        window,
                    ));
                }
                assert forall|x: u64|
                    x != window && pre.floating_seq().contains(x) implies #[trigger] self
                    .floating_layer.entry_of(x) == pre.floating_layer.entry_of(x) by {
                    assert(pre.floating_layer.contains_window(x));
                }
            }
        }
    }
}

impl Workspace {
    /// Nothing observable changed between `pre` and `post`.
    pub open spec fn unchanged(pre: Workspace, post: Workspace) -> bool {
        &&& post.floating_layer == pre.floating_layer
        &&& post.tiling_layer == pre.tiling_layer
        &&& post.fullscreen == pre.fullscreen
        &&& post.focus_stack == pre.focus_stack
        &&& post.outputs == pre.outputs
        &&& post.windows == pre.windows
        &&& post.tiling_enabled == pre.tiling_enabled
        &&& post.handle == pre.handle
    }

    /// What clearing a fullscreen/maximize occupancy promises when `w` was an
    /// occupant: its registry entry is gone, both protocol flags and the
    /// requested size are cleared, and a configure is owed.
    pub open spec fn unfullscreen_post(pre: Workspace, post: Workspace, w: u64) -> bool {
        &&& post.fs() == pre.fs_drop_window(w)
        &&& !post.is_occupant(w)
        &&& post.win(w) == (WindowEntry {
            maximized: false,
            fullscreen: false,
            pending_size: None,
            needs_configure: true,
            ..pre.win(w)
        })
        &&& forall|x: u64| #[trigger] post.knows(x) == pre.knows(x)
        &&& forall|x: u64| x != w && pre.knows(x) ==> #[trigger] post.win(x) == pre.win(x)
        &&& post.floating_layer == pre.floating_layer
        &&& post.tiling_layer == pre.tiling_layer
        &&& post.focus_stack == pre.focus_stack
        &&& post.outputs == pre.outputs
        &&& post.tiling_enabled == pre.tiling_enabled
    }

    /// Clear `window`'s occupancy: only acts when the window currently
    /// occupies some output.  Both protocol flags and the requested size are
    /// cleared, a configure is sent, and every registry entry of the window
    /// is removed.
    pub fn unfullscreen_request(&mut self, window: u64)
        requires
            old(self).wf(),
        ensures
            final (self).wf(),
            !old(self).is_occupant(window) ==> Workspace::unchanged(*old(self), *final (self)),
            old(self).is_occupant(window) ==> Workspace::unfullscreen_post(
                *old(self),
                *final (self),
                window,
            ),
    {
        let ghost pre = *self;
        match self.find_fs_window(window) {
            Some(j) => {
                proof {
                    assert(pre.knows(pre.fs()[j as int].window));
                }
                self.set_protocol_state(window, false, false, None, true);
                let ghost mid = *self;
                self.fullscreen.remove(j);
                proof {
                    let k = mid.fs_win_index(window);
                    assert(0 <= k < mid.fs().len() && mid.fs()[k].window == window);
                    if k != j as int {
                        assert(mid.fs().map_values(fs_wkey())[k] == window);
                        assert(mid.fs().map_values(fs_wkey())[j as int] == window);
                    }
                    assert(self.fullscreen@ == mid.fs_drop_window(window));
                    assert(pre.fs() == mid.fs());
                    assert(pre.fs_drop_window(window) == mid.fs_drop_window(window)) by {
                        assert(pre.is_occupant(window) == mid.is_occupant(window));
                        if pre.is_occupant(window) {
                            assert(pre.fs_win_index(window) == mid.fs_win_index(window));
                        }
                    }
                    pre.lemma_fs_drop(window);
                    assert(!self.is_occupant(window)) by {
                        if self.is_occupant(window) {
                            let i = choose|i: int|
                                0 <= i < self.fs().len() && self.fs()[i].window == window;
                            assert(self.fs()[i] == pre.fs_drop_window(window)[i]);
                        }
                    }
                    assert(self.wf()) by {
                        assert forall|x: u64|
                            !(#[trigger] self.floating_seq().contains(x)
                                && self.tiling_seq().contains(x)) by {
                            assert(!(pre.floating_seq().contains(x) && pre.tiling_seq().contains(
                                x,
                            )));
                        }
                        assert forall|i: int| 0 <= i < self.fs().len() implies self.knows(
                            (#[trigger] self.fs()[i]).window,
                        ) by {
                            assert(self.fs()[i] == pre.fs_drop_window(window)[i]);
                            assert(pre.fs().contains(self.fs()[i]));
                            let k2 = choose|k2: int|
                                0 <= k2 < pre.fs().len() && pre.fs()[k2] == self.fs()[i];
                            assert(pre.knows(pre.fs()[k2].window));
                            assert(mid.knows(self.fs()[i].window));
                        }
                        assert forall|i: int|
                            0 <= i < self.outputs@.len() implies (#[trigger] self.outputs@[i]).output.wf() by {
                            assert(pre.outputs@[i].output.wf());
                        }
                    }
                    assert(Workspace::unfullscreen_post(pre, *self, window)) by {
                        assert(self.win(window) == mid.win(window));
                        assert forall|x: u64| #[trigger] self.knows(x) == pre.knows(x) by {
                            assert(mid.knows(x) == pre.knows(x));
                            assert(self.knows(x) == mid.knows(x));
                        }
                        assert forall|x: u64|
                            x != window && pre.knows(x) implies #[trigger] self.win(x) == pre.win(
                            x,
                        ) by {
                            assert(mid.win(x) == pre.win(x));
                            assert(self.win(x) == mid.win(x));
                        }
                    }
                }
            },
            None => {},
        }
    }

    /// Restore `window` from maximized/fullscreen: a no-op when it occupies
    /// no output; otherwise its occupancy is cleared and, when the floating
    /// layout remembered a pre-maximize rectangle, that rectangle is restored
    /// and becomes the new requested size.
    pub fn unmaximize_request(&mut self, window: u64)
        requires
            old(self).wf(),
        ensures
            final (self).wf(),
            !old(self).is_occupant(window) ==> Workspace::unchanged(*old(self), *final (self)),
            old(self).is_occupant(window) ==> {
                let restored = old(self).floating_seq().contains(window) && old(
                    self,
                ).floating_layer.entry_of(window).restore is Some;
                &&& final (self).fs() == old(self).fs_drop_window(window)
                &&& !final (self).is_occupant(window)
                &&& final (self).win(window) == (WindowEntry {
                    maximized: false,
                    fullscreen: false,
                    pending_size: if restored {
                        Some(old(self).floating_layer.entry_of(window).restore->0.size)
                    } else {
                        None
                    },
                    needs_configure: true,
                    ..old(self).win(window)
                })
                &&& forall|x: u64| #[trigger] final (self).knows(x) == old(self).knows(x)
                &&& forall|x: u64|
                    x != window && old(self).knows(x) ==> #[trigger] final (self).win(x) == old(
                        self,
                    ).win(x)
                &&& final (self).floating_seq() == old(self).floating_seq()
                &&& restored ==> final (self).floating_layer.entry_of(window) == (FloatEntry {
                    window,
                    geo: old(self).floating_layer.entry_of(window).restore->0,
                    restore: None,
                })
                &&& forall|x: u64|
                    x != window && old(self).floating_seq().contains(x) ==> #[trigger] final (
                    self).floating_layer.entry_of(x) == old(self).floating_layer.entry_of(x)
                &&& final (self).tiling_layer == old(self).tiling_layer
                &&& final (self).focus_stack == old(self).focus_stack
                &&& final (self).outputs == old(self).outputs
                &&& final (self).tiling_enabled == old(self).tiling_enabled
            },
    {
        let ghost pre = *self;
        let occupied = self.find_fs_window(window).is_some();
        if occupied {
            self.unfullscreen_request(window);
            let ghost mid = *self;
            let restored = self.floating_layer.unmaximize_request(window);
            let ghost mid2 = *self;
            proof {
                assert forall|x: u64| #[trigger] mid2.floating_seq().contains(x)
                    == pre.floating_seq().contains(x) by {
                    assert(mid2.floating_layer.window_seq() == pre.floating_layer.window_seq());
                }
                assert(mid.knows(window) == pre.knows(window));
                assert(mid2.knows(window) == mid.knows(window));
                assert(pre.knows(window)) by {
                    let i = choose|i: int|
                        0 <= i < pre.fs().len() && pre.fs()[i].window == window;
                    assert(pre.knows(pre.fs()[i].window));
                }
            }
            match restored {
                Some(sz) => {
                    self.set_protocol_state(window, false, false, Some(sz), true);
                },
                None => {},
            }
            proof {
                let ghost fin = *self;
                assert(fin.wf()) by {
                    mid2.lemma_wf_carry(fin);
                }
                assert forall|x: u64|
                    x != window && pre.floating_seq().contains(x) implies #[trigger] fin
                    .floating_layer.entry_of(x) == pre.floating_layer.entry_of(x) by {
                    assert(pre.floating_layer.contains_window(x));
                }
                assert(fin.floating_seq() == pre.floating_seq());
                assert forall|x: u64|
                    x != window && pre.knows(x) implies #[trigger] fin.win(x) == pre.win(x) by {
                    assert(mid.knows(x) == pre.knows(x));
                    assert(mid.win(x) == pre.win(x));
                    assert(mid2.win(x) == mid.win(x));
                    assert(mid2.knows(x) == mid.knows(x));
                    assert(fin.win(x) == mid2.win(x));
                }
                if pre.floating_seq().contains(window) {
                    assert(pre.floating_layer.contains_window(window));
                    let jf = pre.floating_layer.index_of(window);
                    pre.floating_layer.lemma_index(window, jf);
                    assert(mid.floating_layer == pre.floating_layer);
                    if pre.floating_layer.entry_of(window).restore is Some {
                        assert(mid2.floating_layer.entries@[jf] == (FloatEntry {
                            window,
                            geo: pre.floating_layer.entry_of(window).restore->0,
                            restore: None,
                        }));
                        mid2.floating_layer.lemma_index(window, jf);
                        assert(fin.floating_layer == mid2.floating_layer);
                    }
                }
                assert forall|x: u64| #[trigger] fin.knows(x) == pre.knows(x) by {
                    assert(mid.knows(x) == pre.knows(x));
                    assert(mid2.knows(x) == mid.knows(x));
                    assert(fin.knows(x) == mid2.knows(x));
                }
                assert(fin.win(window) == (WindowEntry {
                    maximized: false,
                    fullscreen: false,
                    pending_size: if pre.floating_seq().contains(window) && pre
                        .floating_layer.entry_of(window).restore is Some {
                        Some(pre.floating_layer.entry_of(window).restore->0.size)
                    } else {
                        None
                    },
                    needs_configure: true,
                    ..pre.win(window)
                })) by {
                    assert(mid.win(window) == (WindowEntry {
                        maximized: false,
                        fullscreen: false,
                        pending_size: None,
                        needs_configure: true,
                        ..pre.win(window)
                    }));
                    assert(mid2.win(window) == mid.win(window));
                    if pre.floating_layer.contains_window(window) {
                        let jf = pre.floating_layer.index_of(window);
                        pre.floating_layer.lemma_index(window, jf);
                    }
                }
                assert(fin.fs() == mid2.fs());
                assert(!fin.is_occupant(window)) by {
                    if fin.is_occupant(window) {
                        let i = choose|i: int|
                            0 <= i < fin.fs().len() && fin.fs()[i].window == window;
                        assert(mid.fs()[i].window == window);
                        assert(mid.is_occupant(window));
                    }
                }
            }
        }
    }

    /// Ask to maximize `window` on `out`: rejected as a no-op when the output
    /// already has an occupant.  Otherwise the floating layout remembers the
    /// current rectangle, the maximized flag is set (fullscreen cleared), and
    /// the shared occupy-output transition runs.
    pub fn maximize_request(&mut self, window: u64, out: &Output)
        requires
            old(self).wf(),
            old(self).knows(window),
            out.wf(),
        ensures
            final (self).wf(),
            old(self).output_occupied(out.id) ==> Workspace::unchanged(*old(self), *final (self)),
            !old(self).output_occupied(out.id) ==> {
                &&& Workspace::occupy_post(*old(self), *final (self), window, *out)
                &&& final (self).win(window).maximized == true
                &&& final (self).win(window).fullscreen == false
                &&& old(self).floating_seq().contains(window) ==> final (
                self).floating_layer.entry_of(window).restore == Some(
                    old(self).floating_layer.entry_of(window).geo,
                )
            },
    {
        let ghost pre = *self;
        if self.find_fs_output(out.id).is_some() {
            return ;
        }
        self.floating_layer.maximize_request(window);
        let ghost mid = *self;
        proof {
            assert(mid.floating_seq() == pre.floating_seq());
            assert(mid.wf()) by {
                pre.lemma_wf_carry(mid);
            }
            if pre.floating_layer.contains_window(window) {
                let jf = pre.floating_layer.index_of(window);
                pre.floating_layer.lemma_index(window, jf);
                mid.floating_layer.lemma_index(window, jf);
                assert(mid.floating_layer.entry_of(window).restore == Some(
                    pre.floating_layer.entry_of(window).geo,
                ));
            }
        }
        self.set_protocol_state(window, true, false, None, false);
        let ghost mid2 = *self;
        proof {
            assert(mid2.knows(window));
            assert(!mid2.output_occupied(out.id)) by {
                if mid2.output_occupied(out.id) {
                    let i = choose|i: int|
                        0 <= i < mid2.fs().len() && mid2.fs()[i].output == out.id;
                    assert(pre.fs()[i].output == out.id);
                }
            }
        }
        self.occupy_output(window, out);
        proof {
            let fin = *self;
            assert(Workspace::occupy_post(pre, fin, window, *out)) by {
                assert(Workspace::occupy_post(mid2, fin, window, *out));
                assert(mid2.fs() == pre.fs());
                assert(mid2.fs_drop_window(window) == pre.fs_drop_window(window)) by {
                    assert(mid2.is_occupant(window) == pre.is_occupant(window));
                    if pre.is_occupant(window) {
                        assert(pre.fs_win_index(window) == mid2.fs_win_index(window));
                    }
                }
                assert forall|x: u64| #[trigger] fin.knows(x) == pre.knows(x) by {
                    assert(fin.knows(x) == mid2.knows(x));
                    assert(mid2.knows(x) == mid.knows(x));
                }
                assert forall|x: u64|
                    x != window && pre.knows(x) implies #[trigger] fin.win(x) == pre.win(x) by {
                    assert(mid2.win(x) == mid.win(x));
                    assert(fin.win(x) == mid2.win(x));
                }
                assert(fin.win(window).maximized == mid2.win(window).maximized);
                assert(mid2.floating_seq() == pre.floating_seq());
                assert forall|x: u64| #[trigger] fin.floating_seq().contains(x)
                    == pre.floating_seq().contains(x) by {
                    assert(fin.floating_seq().contains(x) == mid2.floating_seq().contains(x));
                }
                assert forall|x: u64|
                    x != window && pre.floating_seq().contains(x) implies #[trigger] fin
                    .floating_layer.entry_of(x) == pre.floating_layer.entry_of(x) by {
                    assert(mid2.floating_seq().contains(x));
                    assert(fin.floating_layer.entry_of(x) == mid2.floating_layer.entry_of(x));
                    assert(pre.floating_layer.contains_window(x));
                    assert(mid2.floating_layer.entry_of(x) == pre.floating_layer.entry_of(x));
                }
                if pre.floating_seq().contains(window) {
                    assert(pre.floating_layer.contains_window(window));
                    assert(mid2.floating_seq().contains(window));
                    assert(fin.floating_layer.entry_of(window) == mid2.floating_layer.entry_of(
                        window,
                    ));
                }
            }
            if pre.floating_seq().contains(window) {
                assert(pre.floating_layer.contains_window(window));
            }
        }
    }

    /// Ask to fullscreen `window` on `out`: the same transition as maximize,
    /// with the fullscreen flag set instead.
    pub fn fullscreen_request(&mut self, window: u64, out: &Output)
        requires
            old(self).wf(),
            old(self).knows(window),
            out.wf(),
        ensures
            final (self).wf(),
            old(self).output_occupied(out.id) ==> Workspace::unchanged(*old(self), *final (self)),
            !old(self).output_occupied(out.id) ==> {
                &&& Workspace::occupy_post(*old(self), *final (self), window, *out)
                &&& final (self).win(window).maximized == false
                &&& final (self).win(window).fullscreen == true
                &&& old(self).floating_seq().contains(window) ==> final (
                self).floating_layer.entry_of(window) == old(self).floating_layer.entry_of(window)
            },
    {
        let ghost pre = *self;
        if self.find_fs_output(out.id).is_some() {
            return ;
        }
        self.set_protocol_state(window, false, true, None, false);
        let ghost mid2 = *self;
        proof {
            assert(mid2.knows(window));
            assert(!mid2.output_occupied(out.id)) by {
                if mid2.output_occupied(out.id) {
                    let i = choose|i: int|
                        0 <= i < mid2.fs().len() && mid2.fs()[i].output == out.id;
                    assert(pre.fs()[i].output == out.id);
                }
            }
        }
        self.occupy_output(window, out);
        proof {
            let fin = *self;
            assert(Workspace::occupy_post(pre, fin, window, *out)) by {
                assert(Workspace::occupy_post(mid2, fin, window, *out));
                assert(mid2.fs() == pre.fs());
                assert(mid2.fs_drop_window(window) == pre.fs_drop_window(window)) by {
                    assert(mid2.is_occupant(window) == pre.is_occupant(window));
                    if pre.is_occupant(window) {
                        assert(pre.fs_win_index(window) == mid2.fs_win_index(window));
                    }
                }
                assert forall|x: u64| #[trigger] fin.knows(x) == pre.knows(x) by {
                    assert(fin.knows(x) == mid2.knows(x));
                }
                assert forall|x: u64|
                    x != window && pre.knows(x) implies #[trigger] fin.win(x) == pre.win(x) by {
                    assert(mid2.win(x) == pre.win(x));
                    assert(fin.win(x) == mid2.win(x));
                }
                assert(mid2.floating_seq() == pre.floating_seq());
                assert forall|x: u64| #[trigger] fin.floating_seq().contains(x)
                    == pre.floating_seq().contains(x) by {
                    assert(fin.floating_seq().contains(x) == mid2.floating_seq().contains(x));
                }
                assert forall|x: u64|
                    x != window && pre.floating_seq().contains(x) implies #[trigger] fin
                    .floating_layer.entry_of(x) == pre.floating_layer.entry_of(x) by {
                    assert(mid2.floating_seq().contains(x));
                    assert(fin.floating_layer.entry_of(x) == mid2.floating_layer.entry_of(x));
                }
                if pre.floating_seq().contains(window) {
                    assert(mid2.floating_seq().contains(window));
                    assert(fin.floating_layer.entry_of(window) == mid2.floating_layer.entry_of(
                        window,
                    ));
                }
            }
        }
    }

    /// Toggle maximize on `out`: when the output has an occupant, that
    /// occupant is unmaximized (whichever window the caller named);
    /// otherwise `window` is maximized there.
    pub fn maximize_toggle(&mut self, window: u64, out: &Output)
        requires
            old(self).wf(),
            old(self).knows(window),
            out.wf(),
        ensures
            final (self).wf(),
            !old(self).output_occupied(out.id) ==> Workspace::occupy_post(
                *old(self),
                *final (self),
                window,
                *out,
            ) && final (self).win(window).maximized == true,
            old(self).output_occupied(out.id) ==> exists|v: u64|
                #[trigger] old(self).occupies(out.id, v) && Workspace::unfullscreen_post(
                    *old(self),
                    *final (self),
                    v,
                ),
    {
        let at = self.find_fs_output(out.id);
        match at {
            Some(j) => {
                let occ = self.fullscreen[j].window;
                proof {
                    assert(old(self).fs()[j as int] == (FullscreenEntry {
                        output: out.id,
                        window: occ,
                    }));
                    assert(old(self).occupies(out.id, occ));
                    assert(old(self).is_occupant(occ));
                }
                self.unfullscreen_request(occ);
                proof {
                    assert(old(self).occupies(out.id, occ) && Workspace::unfullscreen_post(
                        *old(self),
                        *self,
                        occ,
                    ));
                }
            },
            None => {
                self.maximize_request(window, out);
            },
        }
    }
}

/// The edges a resize drag pulls on.
#[derive(Clone, Copy, PartialEq, Eq, Structural, Debug)]
pub struct ResizeEdge {
    pub top: bool,
    pub bottom: bool,
    pub left: bool,
    pub right: bool,
}

/// A live interactive resize: a plain value the input dispatcher drives.
#[derive(Clone, Copy, PartialEq, Eq, Structural, Debug)]
pub struct ResizeGrab {
    pub window: u64,
    pub seat: u64,
    pub serial: u32,
    pub start: Point,
    pub edges: ResizeEdge,
    pub layout: ManagedState,
}

/// A live interactive move: ownership of the window rests with the grab until
/// the caller remaps it.
#[derive(Clone, Copy, PartialEq, Eq, Structural, Debug)]
pub struct MoveGrab {
    pub window: u64,
    pub seat: u64,
    pub start_pointer: Point,
    pub initial_location: Point,
    pub output_offset: Point,
}

impl Workspace {
    /// Flip the whole workspace between tiling and floating management.
    /// Leaving tiling moves every tiled window into the floating layout, on
    /// top of the existing floating stack and in stacking order; entering
    /// tiling moves every floating window into the tiling layout the same
    /// way, assigned to the first mapped output.
    pub fn toggle_tiling(&mut self, seat: u64)
        requires
            old(self).wf(),
        ensures
            final (self).wf(),
            final (self).tiling_enabled == !old(self).tiling_enabled,
            final (self).floating_seq() == crate::laws::toggle_floating_after(
                old(self).floating_seq(),
                old(self).tiling_seq(),
                old(self).tiling_enabled,
            ),
            final (self).tiling_seq() == crate::laws::toggle_tiling_after(
                old(self).floating_seq(),
                old(self).tiling_seq(),
                old(self).tiling_enabled,
            ),
            final (self).fullscreen == old(self).fullscreen,
            final (self).windows == old(self).windows,
            final (self).outputs == old(self).outputs,
            final (self).focus_stack == old(self).focus_stack,
    {
        let ghost pre = *self;
        let _ = seat;
        if self.tiling_enabled {
            proof {
                assert(pre.tiling_seq().skip(0) =~= pre.tiling_seq());
                assert(pre.floating_seq() + pre.tiling_seq().take(0) =~= pre.floating_seq());
                assert(0 <= 0 <= pre.tiling_seq().len() && self.tiling_seq()
                    == pre.tiling_seq().skip(0) && self.floating_seq() == pre.floating_seq()
                    + pre.tiling_seq().take(0));
            }
            while self.tiling_layer.entries.len() > 0
                invariant
                    pre.wf(),
                    self.floating_layer.wf(),
                    self.tiling_layer.wf(),
                    forall|x: u64|
                        !(#[trigger] self.floating_seq().contains(x) && self.tiling_seq().contains(
                            x,
                        )),
                    exists|k: int|
                        0 <= k <= pre.tiling_seq().len() && #[trigger] self.tiling_seq()
                            == pre.tiling_seq().skip(k) && self.floating_seq() == pre.floating_seq()
                            + pre.tiling_seq().take(k),
                    self.fullscreen == pre.fullscreen,
                    self.windows == pre.windows,
                    self.outputs == pre.outputs,
                    self.focus_stack == pre.focus_stack,
                    self.tiling_enabled == pre.tiling_enabled,
                    self.handle == pre.handle,
                decreases self.tiling_layer.entries@.len(),
            {
                let ghost k = choose|k: int|
                    0 <= k <= pre.tiling_seq().len() && #[trigger] self.tiling_seq()
                        == pre.tiling_seq().skip(k) && self.floating_seq() == pre.floating_seq()
                        + pre.tiling_seq().take(k);
                let w = self.tiling_layer.entries[0].window;
                let ghost mid = *self;
                proof {
                    assert(mid.tiling_seq()[0] == w);
                    assert(mid.tiling_seq().contains(w));
                    assert(!mid.floating_seq().contains(w));
                    mid.tiling_layer.lemma_index(w, 0);
                }
                self.tiling_layer.unmap(w);
                proof {
                    assert(self.tiling_layer.entries@ =~= mid.tiling_layer.entries@.remove(0));
                    assert(self.tiling_seq() =~= mid.tiling_seq().remove(0));
                    assert(self.tiling_seq() =~= pre.tiling_seq().skip(k + 1));
                    assert(self.floating_seq() == mid.floating_seq());
                }
                self.floating_layer.map(w, None);
                proof {
                    assert(self.floating_seq() =~= pre.floating_seq() + pre.tiling_seq().take(
                        k + 1,
                    )) by {
                        assert(pre.tiling_seq().take(k + 1) =~= pre.tiling_seq().take(k).push(
                            pre.tiling_seq()[k],
                        ));
                        assert(pre.tiling_seq()[k] == w) by {
                            assert(pre.tiling_seq().skip(k)[0] == w);
                        }
                    }
                    assert forall|x: u64|
                        !(#[trigger] self.floating_seq().contains(x) && self.tiling_seq().contains(
                            x,
                        )) by {
                        if x == w {
                            assert(!self.tiling_layer.contains_window(w));
                        } else if self.floating_seq().contains(x) && self.tiling_seq().contains(
                            x,
                        ) {
                            assert(self.floating_seq() == mid.floating_seq().push(w));
                            let i = choose|i: int|
                                0 <= i < self.floating_seq().len() && self.floating_seq()[i] == x;
                            assert(i < self.floating_seq().len() - 1);
                            assert(mid.floating_seq()[i] == x);
                            assert(mid.floating_seq().contains(x));
                            let t = choose|t: int|
                                0 <= t < self.tiling_seq().len() && self.tiling_seq()[t] == x;
                            assert(mid.tiling_seq()[t + 1] == x);
                            assert(mid.tiling_seq().contains(x));
                            assert(false);
                        }
                    }
                    assert(0 <= k + 1 <= pre.tiling_seq().len() && self.tiling_seq()
                        == pre.tiling_seq().skip(k + 1) && self.floating_seq() == pre.floating_seq()
                        + pre.tiling_seq().take(k + 1));
                }
            }
            self.tiling_enabled = false;
            proof {
                let k = choose|k: int|
                    0 <= k <= pre.tiling_seq().len() && #[trigger] self.tiling_seq()
                        == pre.tiling_seq().skip(k) && self.floating_seq() == pre.floating_seq()
                        + pre.tiling_seq().take(k);
                assert(self.tiling_layer.entries@.len() == 0);
                assert(self.tiling_seq().len() == 0);
                assert(k == pre.tiling_seq().len());
                assert(self.tiling_seq() =~= Seq::<u64>::empty());
                assert(pre.tiling_seq().take(k) =~= pre.tiling_seq());
                assert(self.wf()) by {
                    assert forall|i: int| 0 <= i < self.fs().len() implies self.knows(
                        (#[trigger] self.fs()[i]).window,
                    ) by {
                        assert(pre.knows(pre.fs()[i].window));
                    }
                    assert forall|i: int|
                        0 <= i < self.outputs@.len() implies (#[trigger] self.outputs@[i]).output.wf() by {
                        assert(pre.outputs@[i].output.wf());
                    }
                }
            }
        } else {
            let out_id: u64 = if self.outputs.len() > 0 {
                self.outputs[0].output.id
            } else {
                0
            };
            proof {
                assert(pre.floating_seq().skip(0) =~= pre.floating_seq());
                assert(pre.tiling_seq() + pre.floating_seq().take(0) =~= pre.tiling_seq());
                assert(0 <= 0 <= pre.floating_seq().len() && self.floating_seq()
                    == pre.floating_seq().skip(0) && self.tiling_seq() == pre.tiling_seq()
                    + pre.floating_seq().take(0));
            }
            while self.floating_layer.entries.len() > 0
                invariant
                    pre.wf(),
                    self.floating_layer.wf(),
                    self.tiling_layer.wf(),
                    forall|x: u64|
                        !(#[trigger] self.floating_seq().contains(x) && self.tiling_seq().contains(
                            x,
                        )),
                    exists|k: int|
                        0 <= k <= pre.floating_seq().len() && #[trigger] self.floating_seq()
                            == pre.floating_seq().skip(k) && self.tiling_seq() == pre.tiling_seq()
                            + pre.floating_seq().take(k),
                    self.fullscreen == pre.fullscreen,
                    self.windows == pre.windows,
                    self.outputs == pre.outputs,
                    self.focus_stack == pre.focus_stack,
                    self.tiling_enabled == pre.tiling_enabled,
                    self.handle == pre.handle,
                decreases self.floating_layer.entries@.len(),
            {
                let ghost k = choose|k: int|
                    0 <= k <= pre.floating_seq().len() && #[trigger] self.floating_seq()
                        == pre.floating_seq().skip(k) && self.tiling_seq() == pre.tiling_seq()
                        + pre.floating_seq().take(k);
                let w = self.floating_layer.entries[0].window;
                let ghost mid = *self;
                proof {
                    assert(mid.floating_seq()[0] == w);
                    assert(mid.floating_seq().contains(w));
                    assert(!mid.tiling_seq().contains(w));
                    mid.floating_layer.lemma_index(w, 0);
                }
                self.floating_layer.unmap(w);
                proof {
                    assert(self.floating_layer.entries@ =~= mid.floating_layer.entries@.remove(0));
                    assert(self.floating_seq() =~= mid.floating_seq().remove(0));
                    assert(self.floating_seq() =~= pre.floating_seq().skip(k + 1));
                    assert(self.tiling_seq() == mid.tiling_seq());
                }
                self.tiling_layer.map(w, out_id, None);
                proof {
                    assert(self.tiling_seq() == mid.tiling_seq().push(w));
                    assert(self.tiling_seq() =~= pre.tiling_seq() + pre.floating_seq().take(
                        k + 1,
                    )) by {
                        assert(pre.floating_seq().take(k + 1) =~= pre.floating_seq().take(k).push(
                            pre.floating_seq()[k],
                        ));
                        assert(pre.floating_seq()[k] == w) by {
                            assert(pre.floating_seq().skip(k)[0] == w);
                        }
                    }
                    assert forall|x: u64|
                        !(#[trigger] self.floating_seq().contains(x) && self.tiling_seq().contains(
                            x,
                        )) by {
                        if x == w {
                            assert(!self.floating_layer.contains_window(w));
                        } else if self.floating_seq().contains(x) && self.tiling_seq().contains(
                            x,
                        ) {
                            let i = choose|i: int|
                                0 <= i < self.tiling_seq().len() && self.tiling_seq()[i] == x;
                            assert(i < self.tiling_seq().len() - 1);
                            assert(mid.tiling_seq()[i] == x);
                            assert(mid.tiling_seq().contains(x));
                            let t = choose|t: int|
                                0 <= t < self.floating_seq().len() && self.floating_seq()[t] == x;
                            assert(mid.floating_seq()[t + 1] == x);
                            assert(mid.floating_seq().contains(x));
                            assert(false);
                        }
                    }
                    assert(0 <= k + 1 <= pre.floating_seq().len() && self.floating_seq()
                        == pre.floating_seq().skip(k + 1) && self.tiling_seq() == pre.tiling_seq()
                        + pre.floating_seq().take(k + 1));
                }
            }
            self.tiling_enabled = true;
            proof {
                let k = choose|k: int|
                    0 <= k <= pre.floating_seq().len() && #[trigger] self.floating_seq()
                        == pre.floating_seq().skip(k) && self.tiling_seq() == pre.tiling_seq()
                        + pre.floating_seq().take(k);
                assert(self.floating_layer.entries@.len() == 0);
                assert(self.floating_seq().len() == 0);
                assert(k == pre.floating_seq().len());
                assert(self.floating_seq() =~= Seq::<u64>::empty());
                assert(pre.floating_seq().take(k) =~= pre.floating_seq());
                assert(self.wf()) by {
                    assert forall|i: int| 0 <= i < self.fs().len() implies self.knows(
                        (#[trigger] self.fs()[i]).window,
                    ) by {
                        assert(pre.knows(pre.fs()[i].window));
                    }
                    assert forall|i: int|
                        0 <= i < self.outputs@.len() implies (#[trigger] self.outputs@[i]).output.wf() by {
                        assert(pre.outputs@[i].output.wf());
                    }
                }
            }
        }
    }

    /// Move only the seat's focused window between tiling and floating
    /// ownership; a no-op when tiling mode is off, no window is focused, or
    /// the focused window is not owned here.
    pub fn toggle_floating_window(&mut self, seat: u64)
        requires
            old(self).wf(),
        ensures
            final (self).wf(),
            final (self).tiling_enabled == old(self).tiling_enabled,
            final (self).fullscreen == old(self).fullscreen,
            final (self).windows == old(self).windows,
            final (self).outputs == old(self).outputs,
            final (self).focus_stack == old(self).focus_stack,
            !old(self).tiling_enabled || old(self).focus_stack.stack_of(seat).len() == 0
                ==> Workspace::unchanged(*old(self), *final (self)),
            old(self).tiling_enabled && old(self).focus_stack.stack_of(seat).len() > 0 ==> {
                let w = old(self).focus_stack.stack_of(seat)[0];
                &&& old(self).tiling_seq().contains(w) ==> final (self).tiling_seq() == without(
                    old(self).tiling_seq(),
                    w,
                ) && final (self).floating_seq() == old(self).floating_seq().push(w)
                &&& (!old(self).tiling_seq().contains(w) && old(self).floating_seq().contains(w))
                    ==> final (self).floating_seq() == without(old(self).floating_seq(), w)
                    && final (self).tiling_seq() == old(self).tiling_seq().push(w)
                &&& !old(self).owns(w) ==> Workspace::unchanged(*old(self), *final (self))
            },
    {
        let ghost pre = *self;
        if !self.tiling_enabled {
            return ;
        }
        let focused = self.focus_stack.focused(seat);
        match focused {
            Some(w) => {
                if self.tiling_layer.has_window(w) {
                    proof {
                        assert(!pre.floating_seq().contains(w));
                    }
                    self.tiling_layer.unmap(w);
                    self.floating_layer.map(w, None);
                    proof {
                        let fin = *self;
                        assert forall|x: u64|
                            !(#[trigger] fin.floating_seq().contains(x)
                                && fin.tiling_seq().contains(x)) by {
                            crate::seq_util::lemma_without_absent(pre.tiling_seq(), w);
                            if x != w && fin.floating_seq().contains(x) && fin.tiling_seq().contains(
                                x,
                            ) {
                                crate::seq_util::lemma_without_keeps(pre.tiling_seq(), w, x);
                                assert(fin.floating_seq() == pre.floating_seq().push(w));
                                let i = choose|i: int|
                                    0 <= i < fin.floating_seq().len() && fin.floating_seq()[i]
                                        == x;
                                assert(i < fin.floating_seq().len() - 1);
                                assert(pre.floating_seq()[i] == x);
                                assert(pre.floating_seq().contains(x));
                                assert(pre.tiling_seq().contains(x));
                                assert(false);
                            }
                        }
                        assert(self.wf()) by {
                            assert forall|i: int| 0 <= i < self.fs().len() implies self.knows(
                                (#[trigger] self.fs()[i]).window,
                            ) by {
                                assert(pre.knows(pre.fs()[i].window));
                            }
                            assert forall|i: int|
                                0 <= i < self.outputs@.len() implies (
                            #[trigger] self.outputs@[i]).output.wf() by {
                                assert(pre.outputs@[i].output.wf());
                            }
                        }
                    }
                } else if self.floating_layer.has_window(w) {
                    let out_id: u64 = if self.outputs.len() > 0 {
                        self.outputs[0].output.id
                    } else {
                        0
                    };
                    self.floating_layer.unmap(w);
                    self.tiling_layer.map(w, out_id, None);
                    proof {
                        let fin = *self;
                        assert(fin.tiling_seq() == pre.tiling_seq().push(w));
                        assert forall|x: u64|
                            !(#[trigger] fin.floating_seq().contains(x)
                                && fin.tiling_seq().contains(x)) by {
                            crate::seq_util::lemma_without_absent(pre.floating_seq(), w);
                            if x != w && fin.floating_seq().contains(x) && fin.tiling_seq().contains(
                                x,
                            ) {
                                crate::seq_util::lemma_without_keeps(pre.floating_seq(), w, x);
                                let i = choose|i: int|
                                    0 <= i < fin.tiling_seq().len() && fin.tiling_seq()[i] == x;
                                assert(i < fin.tiling_seq().len() - 1);
                                assert(pre.tiling_seq()[i] == x);
                                assert(pre.tiling_seq().contains(x));
                                assert(pre.floating_seq().contains(x));
                                assert(false);
                            }
                        }
                        assert(self.wf()) by {
                            assert forall|i: int| 0 <= i < self.fs().len() implies self.knows(
                                (#[trigger] self.fs()[i]).window,
                            ) by {
                                assert(pre.knows(pre.fs()[i].window));
                            }
                            assert forall|i: int|
                                0 <= i < self.outputs@.len() implies (
                            #[trigger] self.outputs@[i]).output.wf() by {
                                assert(pre.outputs@[i].output.wf());
                            }
                        }
                    }
                }
            },
            None => {},
        }
    }

    /// Start an interactive resize of `window`: rejected while the window is
    /// maximized or fullscreen; otherwise the grab names whichever layout
    /// owns the window, and a window owned by neither yields nothing.
    pub fn resize_request(
        &self,
        window: u64,
        seat: u64,
        serial: u32,
        start: Point,
        edges: ResizeEdge,
    ) -> (r: Option<ResizeGrab>)
        requires
            self.wf(),
        ensures
            r == if self.knows(window) && (self.win(window).maximized || self.win(
                window,
            ).fullscreen) {
                Option::<ResizeGrab>::None
            } else if self.floating_seq().contains(window) {
                Some(
                    ResizeGrab {
                        window,
                        seat,
                        serial,
                        start,
                        edges,
                        layout: ManagedState::Floating,
                    },
                )
            } else if self.tiling_seq().contains(window) {
                Some(ResizeGrab { window, seat, serial, start, edges, layout: ManagedState::Tiling })
            } else {
                Option::<ResizeGrab>::None
            },
    {
        let blocked = match self.find_window(window) {
            Some(j) => self.windows[j].maximized || self.windows[j].fullscreen,
            None => false,
        };
        if blocked {
            return None;
        }
        if self.floating_layer.has_window(window) {
            Some(ResizeGrab { window, seat, serial, start, edges, layout: ManagedState::Floating })
        } else if self.tiling_layer.has_window(window) {
            Some(ResizeGrab { window, seat, serial, start, edges, layout: ManagedState::Tiling })
        } else {
            None
        }
    }
}

/// The first mapped output, front to back, whose workspace-internal rectangle
/// holds the point taken from global to internal coordinates.
pub open spec fn first_output_under(s: Seq<MappedOutput>, p: Point) -> Option<u64>
    decreases s.len(),
{
    if s.len() == 0 {
        None
    } else if output_hit(s[0], p) {
        Some(s[0].output.id)
    } else {
        first_output_under(s.drop_first(), p)
    }
}

/// Whether the point, carried from global to this output's internal space,
/// falls inside the output's internal rectangle.
pub open spec fn output_hit(m: MappedOutput, p: Point) -> bool {
    let tx = p.x - m.output.loc.x + m.position.x;
    let ty = p.y - m.output.loc.y + m.position.y;
    &&& m.position.x <= tx < m.position.x + m.output.size.w
    &&& m.position.y <= ty < m.position.y + m.output.size.h
}

impl Workspace {
    /// The rectangle a tiled entry fills: its assigned output's internal
    /// rectangle, if that output is mapped.
    pub open spec fn tile_rect(self, e: TileEntry) -> Option<Rect> {
        if self.has_output(e.output) {
            Some(
                Rect { loc: self.mout(e.output).position, size: self.mout(e.output).output.size },
            )
        } else {
            None
        }
    }

    /// The first tiled entry, bottom first, whose rectangle holds `p`.
    pub open spec fn first_tile_under(self, ts: Seq<TileEntry>, p: Point) -> Option<(u64, Point)>
        decreases ts.len(),
    {
        if ts.len() == 0 {
            None
        } else {
            match self.tile_rect(ts[0]) {
                Some(rect) => if rect.spec_contains(p) {
                    Some((ts[0].window, rect.loc))
                } else {
                    self.first_tile_under(ts.drop_first(), p)
                },
                None => self.first_tile_under(ts.drop_first(), p),
            }
        }
    }

    /// The shift applied to element geometry when exactly one output is
    /// mapped at the internal origin: that output's global position.
    pub open spec fn geometry_offset(self) -> Point {
        if self.outputs@.len() == 1 && self.outputs@[0].position == (Point { x: 0, y: 0 }) {
            self.outputs@[0].output.loc
        } else {
            Point { x: 0, y: 0 }
        }
    }

    /// Where `w`'s geometry comes from: the floating rectangle, or the tiled
    /// output's rectangle, shifted by the single-output offset, clipped.
    pub open spec fn element_geometry_spec(self, w: u64) -> Option<Rect> {
        let base = if self.floating_seq().contains(w) {
            Some(self.floating_layer.entry_of(w).geo)
        } else if self.tiling_seq().contains(w) {
            self.tile_rect(self.tiling_layer.entry_of(w))
        } else {
            None
        };
        match base {
            Some(g) => Some(
                Rect {
                    loc: Point {
                        x: add_clip(g.loc.x as int, self.geometry_offset().x as int) as i32,
                        y: add_clip(g.loc.y as int, self.geometry_offset().y as int) as i32,
                    },
                    size: g.size,
                },
            ),
            None => None,
        }
    }

    /// The geometry of `w` in workspace coordinates, if either layout maps it.
    pub fn element_geometry(&self, window: u64) -> (r: Option<Rect>)
        requires
            self.wf(),
        ensures
            r == self.element_geometry_spec(window),
    {
        let offset: Point = if self.outputs.len() == 1 && self.outputs[0].position.x == 0
            && self.outputs[0].position.y == 0 {
            self.outputs[0].output.loc
        } else {
            Point { x: 0, y: 0 }
        };
        let base: Option<Rect> = match self.floating_layer.element_geometry(window) {
            Some(g) => Some(g),
            None => {
                match self.tiling_layer.find_entry(window) {
                    Some(e) => {
                        match self.find_output(e.output) {
                            Some(j) => Some(
                                Rect {
                                    loc: self.outputs[j].position,
                                    size: self.outputs[j].output.size,
                                },
                            ),
                            None => None,
                        }
                    },
                    None => None,
                }
            },
        };
        match base {
            Some(g) => Some(
                Rect {
                    loc: Point {
                        x: add_i32_clip(g.loc.x, offset.x),
                        y: add_i32_clip(g.loc.y, offset.y),
                    },
                    size: g.size,
                },
            ),
            None => None,
        }
    }

    /// The window a surface belongs to, when some owned window lists it.
    pub fn element_for_surface(&self, surface: u64) -> (r: Option<u64>)
        requires
            self.wf(),
        ensures
            match r {
                Some(w) => self.owns(w) && self.knows(w) && self.win(w).surfaces@.contains(surface),
                None => forall|w: u64|
                    #[trigger] self.owns(w) && self.knows(w) ==> !self.win(w).surfaces@.contains(
                        surface,
                    ),
            },
    {
        let m = self.mapped();
        let ghost ms = self.floating_seq() + self.tiling_seq();
        let mut k: usize = 0;
        while k < m.len()
            invariant
                self.wf(),
                m@ == ms,
                ms == self.floating_seq() + self.tiling_seq(),
                k <= m@.len(),
                forall|i: int|
                    0 <= i < k ==> !(self.knows(#[trigger] m@[i]) && self.win(
                        m@[i],
                    ).surfaces@.contains(surface)),
            decreases m@.len() - k,
        {
            let w = m[k];
            match self.find_window(w) {
                Some(j) => {
                    if contains_id(&self.windows[j].surfaces, surface) {
                        proof {
                            assert(self.windows@[j as int] == self.win(w));
                            assert(ms[k as int] == w);
                            if k < self.floating_seq().len() {
                                assert(self.floating_seq()[k as int] == w);
                            } else {
                                assert(self.tiling_seq()[k - self.floating_seq().len()] == w);
                            }
                        }
                        return Some(w);
                    }
                },
                None => {},
            }
            k += 1;
        }
        proof {
            assert forall|w: u64| #[trigger] self.owns(w) && self.knows(w) implies !self.win(
                w,
            ).surfaces@.contains(surface) by {
                if self.floating_seq().contains(w) {
                    let i = choose|i: int|
                        0 <= i < self.floating_seq().len() && self.floating_seq()[i] == w;
                    assert(ms[i] == w);
                } else {
                    let i = choose|i: int|
                        0 <= i < self.tiling_seq().len() && self.tiling_seq()[i] == w;
                    assert(ms[self.floating_seq().len() + i] == w);
                }
            }
        }
        None
    }

    /// The output under the global point `p`, scanning mapped outputs front
    /// to back.
    pub fn output_under(&self, p: Point) -> (r: Option<u64>)
        requires
            self.wf(),
        ensures
            r == first_output_under(self.outputs@, p),
    {
        let mut k: usize = 0;
        proof {
            assert(self.outputs@.skip(0) =~= self.outputs@);
        }
        while k < self.outputs.len()
            invariant
                self.wf(),
                k <= self.outputs@.len(),
                first_output_under(self.outputs@, p) == first_output_under(
                    self.outputs@.skip(k as int),
                    p,
                ),
            decreases self.outputs@.len() - k,
        {
            let m = self.outputs[k];
            proof {
                assert(self.outputs@.skip(k as int)[0] == m);
                assert(self.outputs@.skip(k as int).drop_first() =~= self.outputs@.skip(
                    k as int + 1,
                ));
            }
            let tx: i64 = p.x as i64 - m.output.loc.x as i64 + m.position.x as i64;
            let ty: i64 = p.y as i64 - m.output.loc.y as i64 + m.position.y as i64;
            let hit = m.position.x as i64 <= tx && tx < m.position.x as i64 + m.output.size.w as i64
                && m.position.y as i64 <= ty && ty < m.position.y as i64 + m.output.size.h as i64;
            proof {
                assert(hit == output_hit(m, p));
            }
            if hit {
                return Some(m.output.id);
            }
            k += 1;
        }
        proof {
            assert(self.outputs@.skip(self.outputs@.len() as int) =~= Seq::<MappedOutput>::empty());
        }
        None
    }

    /// The topmost floating window under `p`, else the first tiled window
    /// whose output rectangle holds `p`; with the window comes its location.
    pub fn element_under(&self, p: Point) -> (r: Option<(u64, Point)>)
        requires
            self.wf(),
        ensures
            crate::floating::top_under(self.floating_layer.entries@, p) matches Some(e) ==> r
                == Some((e.window, e.geo.loc)),
            crate::floating::top_under(self.floating_layer.entries@, p) is None ==> r
                == self.first_tile_under(self.tiling_layer.entries@, p),
    {
        match self.floating_layer.element_under(p) {
            Some(hit) => Some(hit),
            None => {
                proof {
                    assert(crate::floating::top_under(self.floating_layer.entries@, p) is None);
                }
                let ts = &self.tiling_layer.entries;
                let mut k: usize = 0;
                proof {
                    assert(ts@.skip(0) =~= ts@);
                }
                while k < ts.len()
                    invariant
                        self.wf(),
                        crate::floating::top_under(self.floating_layer.entries@, p) is None,
                        ts == self.tiling_layer.entries,
                        k <= ts@.len(),
                        self.first_tile_under(ts@, p) == self.first_tile_under(
                            ts@.skip(k as int),
                            p,
                        ),
                    decreases ts@.len() - k,
                {
                    let e = ts[k];
                    proof {
                        assert(ts@.skip(k as int)[0] == e);
                        assert(ts@.skip(k as int).drop_first() =~= ts@.skip(k as int + 1));
                    }
                    match self.find_output(e.output) {
                        Some(j) => {
                            let rect = Rect {
                                loc: self.outputs[j].position,
                                size: self.outputs[j].output.size,
                            };
                            proof {
                                assert(self.tile_rect(e) == Some(rect));
                            }
                            if rect.contains(p) {
                                proof {
                                    assert(self.first_tile_under(ts@.skip(k as int), p) == Some(
                                        (e.window, rect.loc),
                                    ));
                                    assert(self.first_tile_under(self.tiling_layer.entries@, p)
                                        == Some((e.window, rect.loc)));
                                }
                                return Some((e.window, rect.loc));
                            }
                        },
                        None => {
                            proof {
                                assert(self.tile_rect(e) is None);
                            }
                        },
                    }
                    k += 1;
                }
                proof {
                    assert(ts@.skip(ts@.len() as int) =~= Seq::<TileEntry>::empty());
                }
                None
            },
        }
    }

    /// The outputs a window shows on: for a floating window, every mapped
    /// output whose internal rectangle its geometry overlaps; for a tiled
    /// window, its assigned output.
    pub fn outputs_for_element(&self, window: u64) -> (r: Vec<u64>)
        requires
            self.wf(),
        ensures
            self.floating_seq().contains(window) ==> r@ == overlapping_outputs(
                self.outputs@,
                self.floating_layer.entry_of(window).geo,
            ),
            (!self.floating_seq().contains(window) && self.tiling_seq().contains(window)) ==> r@
                == seq![self.tiling_layer.entry_of(window).output],
            !self.owns(window) ==> r@ == Seq::<u64>::empty(),
    {
        match self.floating_layer.element_geometry(window) {
            Some(geo) => {
                let mut r: Vec<u64> = Vec::new();
                let mut k: usize = 0;
                while k < self.outputs.len()
                    invariant
                        k <= self.outputs@.len(),
                        r@ == overlapping_outputs(self.outputs@.take(k as int), geo),
                    decreases self.outputs@.len() - k,
                {
                    let m = self.outputs[k];
                    proof {
                        assert(self.outputs@.take(k as int + 1).drop_last() =~= self.outputs@.take(
                            k as int,
                        ));
                        assert(self.outputs@.take(k as int + 1).last() == m);
                    }
                    let internal = Rect { loc: m.position, size: m.output.size };
                    if internal.overlaps(&geo) {
                        r.push(m.output.id);
                    }
                    k += 1;
                }
                proof {
                    assert(self.outputs@.take(self.outputs@.len() as int) =~= self.outputs@);
                }
                r
            },
            None => {
                match self.tiling_layer.find_entry(window) {
                    Some(e) => {
                        let mut r: Vec<u64> = Vec::new();
                        r.push(e.output);
                        proof {
                            assert(r@ =~= seq![e.output]);
                        }
                        r
                    },
                    None => Vec::new(),
                }
            },
        }
    }

    /// Start an interactive move of `window` under the pointer at global
    /// position `pointer` on `out`.  Only floating windows can be dragged: a
    /// tiled or unowned window yields nothing.  A maximized or fullscreen
    /// window is first restored, and the drag anchor keeps the pointer at the
    /// same fraction of the window's restored width.  On success the window
    /// leaves the floating layout: ownership rests with the grab.
    pub fn move_request(&mut self, window: u64, seat: u64, out: &Output, pointer: Point) -> (r:
        Option<MoveGrab>)
        requires
            old(self).wf(),
            out.wf(),
        ensures
            final (self).wf(),
            !old(self).owns(window) ==> r is None && Workspace::unchanged(*old(self), *final (self)),
            r is Some <==> old(self).floating_seq().contains(window),
            old(self).floating_seq().contains(window) ==> {
                let was_occupying = old(self).knows(window) && (old(self).win(window).maximized
                    || old(self).win(window).fullscreen) && old(self).is_occupant(window);
                let restored = old(self).floating_layer.entry_of(window).restore;
                &&& final (self).floating_seq() == without(old(self).floating_seq(), window)
                &&& final (self).tiling_layer == old(self).tiling_layer
                &&& final (self).focus_stack == old(self).focus_stack
                &&& final (self).outputs == old(self).outputs
                &&& (forall|x: u64| #[trigger] final (self).knows(x) == old(self).knows(x))
                &&& was_occupying ==> !final (self).is_occupant(window)
                &&& r == Some(
                    MoveGrab {
                        window,
                        seat,
                        start_pointer: pointer,
                        initial_location: if was_occupying {
                            match restored {
                                Some(rr) => Point {
                                    x: move_anchor_x(
                                        pointer.x as int,
                                        rr.size.w as int,
                                        out.size.w as int,
                                    ) as i32,
                                    y: pointer.y,
                                },
                                None => pointer,
                            }
                        } else {
                            Point {
                                x: add_clip(
                                    old(self).floating_layer.entry_of(window).geo.loc.x as int,
                                    old(self).geometry_offset().x as int,
                                ) as i32,
                                y: add_clip(
                                    old(self).floating_layer.entry_of(window).geo.loc.y as int,
                                    old(self).geometry_offset().y as int,
                                ) as i32,
                            }
                        },
                        output_offset: out.loc,
                    },
                )
            },
    {
        let ghost pre = *self;
        let owned = self.floating_layer.has_window(window) || self.tiling_layer.has_window(window);
        if !owned {
            return None;
        }
        let geo = match self.element_geometry(window) {
            Some(g) => g,
            None => {
                // A tiled window on an unmapped output has no geometry; it
                // cannot be dragged either way.
                proof {
                    assert(!pre.floating_seq().contains(window)) by {
                        if pre.floating_seq().contains(window) {
                            assert(pre.floating_layer.contains_window(window));
                        }
                    }
                }
                return None;
            },
        };
        let mut initial: Point = geo.loc;
        let blocked = match self.find_window(window) {
            Some(j) => self.windows[j].maximized || self.windows[j].fullscreen,
            None => false,
        };
        if blocked {
            let occupying = self.find_fs_window(window).is_some();
            self.unmaximize_request(window);
            let new_size = match self.find_window(window) {
                Some(j) => self.windows[j].pending_size,
                None => None,
            };
            if occupying {
                initial = match new_size {
                    Some(sz) => Point {
                        x: compute_move_anchor_x(pointer.x, sz.w, out.size.w),
                        y: pointer.y,
                    },
                    None => pointer,
                };
            }
        }
        let ghost mid = *self;
        proof {
            if pre.floating_seq().contains(window) {
                assert(pre.floating_layer.contains_window(window));
                assert(mid.floating_seq() == pre.floating_seq());
                assert(mid.floating_layer.contains_window(window));
                assert(mid.floating_layer.entry_of(window).window == window) by {
                    let jf = pre.floating_layer.index_of(window);
                    pre.floating_layer.lemma_index(window, jf);
                    assert(mid.floating_seq()[jf] == window);
                    assert(mid.floating_layer.entries@[jf].window == window);
                    mid.floating_layer.lemma_index(window, jf);
                }
            }
        }
        let was_floating = self.floating_layer.unmap(window);
        proof {
            assert forall|x: u64|
                !(#[trigger] self.floating_seq().contains(x) && self.tiling_seq().contains(x)) by {
                assert(!(mid.floating_seq().contains(x) && mid.tiling_seq().contains(x)));
                if self.floating_seq().contains(x) {
                    crate::seq_util::lemma_without_keeps(mid.floating_seq(), window, x);
                    crate::seq_util::lemma_without_absent(mid.floating_seq(), window);
                }
            }
            assert(self.wf()) by {
                assert forall|i: int| 0 <= i < self.fs().len() implies self.knows(
                    (#[trigger] self.fs()[i]).window,
                ) by {
                    assert(mid.knows(mid.fs()[i].window));
                }
                assert forall|i: int|
                    0 <= i < self.outputs@.len() implies (#[trigger] self.outputs@[i]).output.wf()
                    by {
                    assert(mid.outputs@[i].output.wf());
                }
            }
        }
        proof {
            assert forall|x: u64| #[trigger] self.knows(x) == pre.knows(x) by {
                assert(mid.knows(x) == pre.knows(x));
            }
            if pre.is_occupant(window) && pre.knows(window) && (pre.win(window).maximized
                || pre.win(window).fullscreen) {
                assert(!mid.is_occupant(window));
                assert(!self.is_occupant(window));
            }
        }
        if was_floating {
            Some(
                MoveGrab {
                    window,
                    seat,
                    start_pointer: pointer,
                    initial_location: initial,
                    output_offset: out.loc,
                },
            )
        } else {
            None
        }
    }
}

/// The handles of the registry entries whose window has died, in registry
/// order.
pub open spec fn dead_ids(s: Seq<WindowEntry>) -> Seq<u64>
    decreases s.len(),
{
    if s.len() == 0 {
        Seq::<u64>::empty()
    } else {
        let r = dead_ids(s.drop_last());
        if s.last().alive {
            r
        } else {
            r.push(s.last().window)
        }
    }
}

/// Membership in `dead_ids`: exactly the windows of dead entries.
pub proof fn lemma_dead_ids_mem(s: Seq<WindowEntry>)
    ensures
        forall|x: u64|
            #[trigger] dead_ids(s).contains(x) == exists|i: int|
                0 <= i < s.len() && (#[trigger] s[i]).window == x && !s[i].alive,
    decreases s.len(),
{
    if s.len() > 0 {
        let d = s.drop_last();
        lemma_dead_ids_mem(d);
        assert forall|x: u64| #[trigger] dead_ids(s).contains(x) == exists|i: int|
            0 <= i < s.len() && (#[trigger] s[i]).window == x && !s[i].alive by {
            if dead_ids(s).contains(x) {
                if dead_ids(d).contains(x) {
                    let i = choose|i: int| 0 <= i < d.len() && (#[trigger] d[i]).window == x
                        && !d[i].alive;
                    assert(s[i].window == x && !s[i].alive);
                } else {
                    assert(!s.last().alive && s.last().window == x);
                    assert(s[s.len() - 1].window == x && !s[s.len() - 1].alive);
                }
            }
            if exists|i: int| 0 <= i < s.len() && (#[trigger] s[i]).window == x && !s[i].alive {
                let i = choose|i: int|
                    0 <= i < s.len() && (#[trigger] s[i]).window == x && !s[i].alive;
                if i < s.len() - 1 {
                    assert(d[i].window == x && !d[i].alive);
                    assert(dead_ids(d).contains(x));
                    if s.last().alive {
                    } else {
                        let k = choose|k: int|
                            0 <= k < dead_ids(d).len() && dead_ids(d)[k] == x;
                        assert(dead_ids(s)[k] == x);
                    }
                } else {
                    assert(dead_ids(s).last() == x);
                }
            }
        }
    }
}

impl Workspace {
    /// Known but no longer alive: swept out by the next `refresh`.
    pub open spec fn doomed(self, x: u64) -> bool {
        self.knows(x) && !self.win(x).alive
    }

    /// Sweep every dead window out of the fullscreen registry, both layouts
    /// and every focus ring, keeping the order of the survivors.  The window
    /// registry itself keeps the dead entries.
    pub fn refresh(&mut self)
        requires
            old(self).wf(),
        ensures
            final (self).wf(),
            final (self).floating_layer.entries@ == retain_live(
                old(self).floating_layer.entries@,
                fkey(),
                dead_ids(old(self).windows@),
            ),
            final (self).tiling_layer.entries@ == retain_live(
                old(self).tiling_layer.entries@,
                tkey(),
                dead_ids(old(self).windows@),
            ),
            final (self).fullscreen@ == retain_live(
                old(self).fullscreen@,
                fs_wkey(),
                dead_ids(old(self).windows@),
            ),
            forall|x: u64| #[trigger] final (self).floating_seq().contains(x) == (old(
                self,
            ).floating_seq().contains(x) && !old(self).doomed(x)),
            forall|x: u64| #[trigger] final (self).tiling_seq().contains(x) == (old(
                self,
            ).tiling_seq().contains(x) && !old(self).doomed(x)),
            forall|i: int|
                0 <= i < final (self).fs().len() ==> old(self).fs().contains(
                    #[trigger] final (self).fs()[i],
                ) && !old(self).doomed(final (self).fs()[i].window),
            forall|s: u64, x: u64| #[trigger] final (self).focus_stack.stack_contains(s, x) == (old(
                self,
            ).focus_stack.stack_contains(s, x) && !old(self).doomed(x)),
            final (self).windows == old(self).windows,
            final (self).outputs == old(self).outputs,
            final (self).tiling_enabled == old(self).tiling_enabled,
    {
        let ghost pre = *self;
        let mut dead: Vec<u64> = Vec::new();
        let mut j: usize = 0;
        while j < self.windows.len()
            invariant
                j <= self.windows@.len(),
                *self == pre,
                dead@ == dead_ids(pre.windows@.take(j as int)),
            decreases self.windows@.len() - j,
        {
            let e = &self.windows[j];
            proof {
                assert(pre.windows@.take(j as int + 1).drop_last() =~= pre.windows@.take(j as int));
                assert(pre.windows@.take(j as int + 1).last() == pre.windows@[j as int]);
            }
            if !e.alive {
                let w = e.window;
                dead.push(w);
            }
            j += 1;
        }
        proof {
            assert(pre.windows@.take(pre.windows@.len() as int) =~= pre.windows@);
            assert(dead@ == dead_ids(pre.windows@));
            lemma_dead_ids_mem(pre.windows@);
            assert forall|x: u64| #[trigger] dead@.contains(x) == pre.doomed(x) by {
                if dead@.contains(x) {
                    let i = choose|i: int|
                        0 <= i < pre.windows@.len() && (#[trigger] pre.windows@[i]).window == x
                            && !pre.windows@[i].alive;
                    pre.lemma_win_index(x, i);
                }
                if pre.doomed(x) {
                    let k = choose|k: int|
                        0 <= k < pre.win_ids().len() && pre.win_ids()[k] == x;
                    assert(pre.windows@[k].window == x);
                    pre.lemma_win_index(x, k);
                    assert(!pre.windows@[k].alive);
                }
            }
        }
        self.floating_layer.retain_alive(&dead);
        self.tiling_layer.retain_alive(&dead);
        let ghost mid = *self;
        let mut kept: Vec<FullscreenEntry> = Vec::new();
        let mut t: usize = 0;
        while t < self.fullscreen.len()
            invariant
                t <= self.fullscreen@.len(),
                self.fullscreen@ == pre.fullscreen@,
                kept@ == retain_live(pre.fullscreen@.take(t as int), fs_wkey(), dead@),
                dead@ == dead_ids(pre.windows@),
            decreases self.fullscreen@.len() - t,
        {
            let e = self.fullscreen[t];
            let is_dead = contains_id(&dead, e.window);
            proof {
                assert(pre.fullscreen@.take(t as int + 1).drop_last() =~= pre.fullscreen@.take(
                    t as int,
                ));
                assert(pre.fullscreen@.take(t as int + 1).last() == e);
                assert(fs_wkey()(e) == e.window);
            }
            if !is_dead {
                kept.push(e);
            }
            t += 1;
        }
        proof {
            assert(pre.fullscreen@.take(pre.fullscreen@.len() as int) =~= pre.fullscreen@);
        }
        self.fullscreen = kept;
        let mut di: usize = 0;
        while di < dead.len()
            invariant
                di <= dead@.len(),
                self.floating_layer == mid.floating_layer,
                self.tiling_layer == mid.tiling_layer,
                self.fullscreen@ == retain_live(pre.fullscreen@, fs_wkey(), dead@),
                self.windows == pre.windows,
                self.outputs == pre.outputs,
                self.tiling_enabled == pre.tiling_enabled,
                self.handle == pre.handle,
                dead@ == dead_ids(pre.windows@),
                self.focus_stack.wf(),
                forall|s: u64| #[trigger] self.focus_stack.has_seat(s) == pre.focus_stack.has_seat(
                    s,
                ),
                forall|s: u64, x: u64| #[trigger] self.focus_stack.stack_contains(s, x) == (
                pre.focus_stack.stack_contains(s, x) && !dead@.take(di as int).contains(x)),
            decreases dead@.len() - di,
        {
            let w = dead[di];
            let ghost fmid = self.focus_stack;
            self.focus_stack.remove_window(w);
            proof {
                assert(dead@.take(di as int + 1).drop_last() =~= dead@.take(di as int));
                assert forall|s: u64, x: u64| #[trigger] self.focus_stack.stack_contains(s, x) == (
                pre.focus_stack.stack_contains(s, x) && !dead@.take(di as int + 1).contains(
                    x,
                )) by {
                    assert(self.focus_stack.stack_of(s) == without(fmid.stack_of(s), w));
                    assert(fmid.stack_contains(s, x) == (pre.focus_stack.stack_contains(s, x)
                        && !dead@.take(di as int).contains(x)));
                    if x == w {
                        lemma_without_absent(fmid.stack_of(s), w);
                        assert(dead@.take(di as int + 1)[di as int] == w);
                        assert(dead@.take(di as int + 1).contains(w));
                    } else {
                        lemma_without_keeps(fmid.stack_of(s), w, x);
                        assert(dead@.take(di as int + 1).contains(x) == dead@.take(
                            di as int,
                        ).contains(x)) by {
                            let t1 = dead@.take(di as int + 1);
                            let t0 = dead@.take(di as int);
                            if t1.contains(x) {
                                let i = choose|i: int| 0 <= i < t1.len() && t1[i] == x;
                                assert(t0[i] == x);
                            }
                            if t0.contains(x) {
                                let i = choose|i: int| 0 <= i < t0.len() && t0[i] == x;
                                assert(t1[i] == x);
                            }
                        }
                    }
                }
            }
            di += 1;
        }
        proof {
            assert(dead@.take(dead@.len() as int) =~= dead@);
            assert(dead@.take(0) =~= Seq::<u64>::empty());
            crate::seq_util::lemma_retain_live(pre.fullscreen@, fs_wkey(), dead@);
            crate::seq_util::lemma_retain_live_other(pre.fullscreen@, fs_wkey(), fs_okey(), dead@);
            assert(self.wf()) by {
                assert forall|x: u64|
                    !(#[trigger] self.floating_seq().contains(x) && self.tiling_seq().contains(
                        x,
                    )) by {
                    assert(!(pre.floating_seq().contains(x) && pre.tiling_seq().contains(x)));
                    assert(self.floating_layer.contains_window(x) == (
                    pre.floating_layer.contains_window(x) && !dead@.contains(x)));
                    assert(self.tiling_layer.contains_window(x) == (
                    pre.tiling_layer.contains_window(x) && !dead@.contains(x)));
                }
                assert forall|i: int| 0 <= i < self.fs().len() implies self.knows(
                    (#[trigger] self.fs()[i]).window,
                ) by {
                    assert(pre.fs().contains(self.fs()[i]));
                    let k = choose|k: int|
                        0 <= k < pre.fs().len() && pre.fs()[k] == self.fs()[i];
                    assert(pre.knows(pre.fs()[k].window));
                }
                assert forall|i: int|
                    0 <= i < self.outputs@.len() implies (#[trigger] self.outputs@[i]).output.wf()
                    by {
                    assert(pre.outputs@[i].output.wf());
                }
            }
            assert forall|x: u64| #[trigger] self.floating_seq().contains(x) == (
            pre.floating_seq().contains(x) && !pre.doomed(x)) by {
                assert(self.floating_layer.contains_window(x) == (
                pre.floating_layer.contains_window(x) && !dead@.contains(x)));
                assert(dead@.contains(x) == pre.doomed(x));
            }
            assert forall|x: u64| #[trigger] self.tiling_seq().contains(x) == (
            pre.tiling_seq().contains(x) && !pre.doomed(x)) by {
                assert(self.tiling_layer.contains_window(x) == (pre.tiling_layer.contains_window(x)
                    && !dead@.contains(x)));
                assert(dead@.contains(x) == pre.doomed(x));
            }
            assert forall|i: int| 0 <= i < self.fs().len() implies pre.fs().contains(
                #[trigger] self.fs()[i],
            ) && !pre.doomed(self.fs()[i].window) by {
                assert(!dead@.contains(self.fs()[i].window)) by {
                    assert(self.fs().map_values(fs_wkey())[i] == self.fs()[i].window);
                    assert(self.fs().map_values(fs_wkey()).contains(self.fs()[i].window));
                }
            }
        }
    }

    /// Remove `output` from the workspace.  Its occupant, if any, is first
    /// returned to normal state (keeping whichever layout owned it), the
    /// output is dropped, and a refresh sweeps anything that died.
    pub fn unmap_output(&mut self, output: u64)
        requires
            old(self).wf(),
        ensures
            final (self).wf(),
            !final (self).has_output(output),
            forall|x: u64| #[trigger] final (self).has_output(x) == (old(self).has_output(x) && x
                != output),
            forall|x: u64|
                x != output && old(self).has_output(x) ==> #[trigger] final (self).mout(x) == old(
                    self,
                ).mout(x),
            forall|o: u64, w: u64|
                #[trigger] final (self).occupies(o, w) ==> old(self).occupies(o, w) && o != output,
            forall|x: u64| #[trigger] final (self).floating_seq().contains(x) == (old(
                self,
            ).floating_seq().contains(x) && !old(self).doomed(x)),
            forall|x: u64| #[trigger] final (self).tiling_seq().contains(x) == (old(
                self,
            ).tiling_seq().contains(x) && !old(self).doomed(x)),
            forall|x: u64| #[trigger] final (self).knows(x) == old(self).knows(x),
            final (self).tiling_enabled == old(self).tiling_enabled,
    {
        let ghost pre = *self;
        let ghost mut occ_w: u64 = 0;
        let ghost mut had_occ: bool = false;
        match self.find_fs_output(output) {
            Some(j) => {
                let w = self.fullscreen[j].window;
                proof {
                    occ_w = w;
                    had_occ = true;
                    assert(pre.fs()[j as int] == (FullscreenEntry { output, window: w }));
                    assert(pre.is_occupant(w));
                }
                self.unfullscreen_request(w);
                proof {
                    pre.lemma_fs_drop(w);
                }
            },
            None => {},
        }
        let ghost mid = *self;
        proof {
            assert forall|o: u64, x: u64| #[trigger] mid.occupies(o, x) implies pre.occupies(o, x)
                && o != output by {
                let i = choose|i: int|
                    0 <= i < mid.fs().len() && mid.fs()[i] == (FullscreenEntry {
                        output: o,
                        window: x,
                    });
                if had_occ {
                    assert(mid.fs() == pre.fs_drop_window(occ_w));
                    assert(pre.fs().contains(mid.fs()[i]));
                    assert(mid.fs()[i].window != occ_w);
                    if o == output {
                        let k = choose|k: int|
                            0 <= k < pre.fs().len() && pre.fs()[k] == mid.fs()[i];
                        let jj = choose|jj: int|
                            0 <= jj < pre.fs().len() && pre.fs()[jj] == (FullscreenEntry {
                                output,
                                window: occ_w,
                            });
                        assert(pre.fs().map_values(fs_okey())[k] == output);
                        assert(pre.fs().map_values(fs_okey())[jj] == output);
                        if k != jj {
                            assert(false);
                        }
                    }
                } else {
                    assert(mid.fs() == pre.fs());
                    assert(pre.fs()[i].output == o);
                    assert(!pre.output_occupied(output));
                }
            }
            assert forall|x: u64| #[trigger] mid.doomed(x) == pre.doomed(x) by {
                assert(mid.knows(x) == pre.knows(x));
                if pre.knows(x) {
                    if had_occ && x == occ_w {
                        assert(mid.win(x).alive == pre.win(x).alive);
                    } else {
                        assert(mid.win(x) == pre.win(x));
                    }
                }
            }
            assert(mid.floating_layer == pre.floating_layer);
            assert(mid.tiling_layer == pre.tiling_layer);
        }
        let ghost mid_outs = *self;
        match self.find_output(output) {
            Some(j) => {
                self.outputs.remove(j);
                proof {
                    assert(self.out_ids() =~= mid_outs.out_ids().remove(j as int));
                    assert forall|a: int, b: int|
                        0 <= a < b < self.out_ids().len() implies self.out_ids()[a]
                        != self.out_ids()[b] by {
                        let a0: int = if a < j as int {
                            a
                        } else {
                            a + 1
                        };
                        let b0: int = if b < j as int {
                            b
                        } else {
                            b + 1
                        };
                        assert(self.out_ids()[a] == mid_outs.out_ids()[a0]);
                        assert(self.out_ids()[b] == mid_outs.out_ids()[b0]);
                    }
                    assert forall|x: u64| #[trigger] self.has_output(x) == (mid_outs.has_output(x)
                        && x != output) by {
                        if self.has_output(x) {
                            let i = choose|i: int|
                                0 <= i < self.out_ids().len() && self.out_ids()[i] == x;
                            let i0: int = if i < j as int {
                                i
                            } else {
                                i + 1
                            };
                            assert(mid_outs.out_ids()[i0] == x);
                            if x == output {
                                assert(mid_outs.out_ids()[j as int] == output);
                                assert(i0 != j as int);
                                assert(false);
                            }
                        }
                        if mid_outs.has_output(x) && x != output {
                            let i = choose|i: int|
                                0 <= i < mid_outs.out_ids().len() && mid_outs.out_ids()[i] == x;
                            if i < j as int {
                                assert(self.out_ids()[i] == x);
                            } else {
                                assert(i != j as int);
                                assert(self.out_ids()[i - 1] == x);
                            }
                        }
                    }
                    assert forall|x: u64|
                        x != output && mid_outs.has_output(x) implies #[trigger] self.mout(x)
                        == mid_outs.mout(x) by {
                        let i = mid_outs.out_index(x);
                        assert(mid_outs.outputs@[i].output.id == x);
                        if i < j as int {
                            assert(self.outputs@[i] == mid_outs.outputs@[i]);
                            self.lemma_out_index(x, i);
                        } else {
                            assert(self.outputs@[i - 1] == mid_outs.outputs@[i]);
                            self.lemma_out_index(x, i - 1);
                        }
                    }
                    assert(self.wf()) by {
                        assert forall|x: u64|
                            !(#[trigger] self.floating_seq().contains(x)
                                && self.tiling_seq().contains(x)) by {
                            assert(!(pre.floating_seq().contains(x) && pre.tiling_seq().contains(
                                x,
                            )));
                        }
                        assert forall|i: int| 0 <= i < self.fs().len() implies self.knows(
                            (#[trigger] self.fs()[i]).window,
                        ) by {
                            assert(mid.knows(mid.fs()[i].window));
                        }
                        assert forall|i: int|
                            0 <= i < self.outputs@.len() implies (
                        #[trigger] self.outputs@[i]).output.wf() by {
                            let i0: int = if i < j as int {
                                i
                            } else {
                                i + 1
                            };
                            assert(self.outputs@[i] == mid_outs.outputs@[i0]);
                            assert(mid_outs.outputs@[i0].output.wf());
                        }
                    }
                }
            },
            None => {},
        }
        let ghost mid2 = *self;
        proof {
            assert(mid_outs.out_ids() == pre.out_ids());
            assert forall|x: u64| #[trigger] mid2.has_output(x) == (pre.has_output(x) && x
                != output) by {
                assert(mid_outs.has_output(x) == pre.has_output(x));
            }
            assert forall|x: u64|
                x != output && pre.has_output(x) implies #[trigger] mid2.mout(x) == pre.mout(
                x,
            ) by {
                assert(mid_outs.mout(x) == pre.mout(x));
                assert(mid_outs.has_output(x));
            }
        }
        self.refresh();
        proof {
            let fin = *self;
            assert(fin.outputs@ == mid2.outputs@);
            assert(fin.out_ids() == mid2.out_ids());
            assert forall|x: u64| #[trigger] fin.has_output(x) == (pre.has_output(x) && x
                != output) by {
                assert(mid2.has_output(x) == (pre.has_output(x) && x != output));
                assert(fin.has_output(x) == mid2.has_output(x));
            }
            assert forall|x: u64|
                x != output && pre.has_output(x) implies #[trigger] fin.mout(x) == pre.mout(x) by {
                assert(mid2.mout(x) == pre.mout(x));
                assert(fin.mout(x) == mid2.mout(x));
            }
            assert forall|o: u64, w: u64| #[trigger] fin.occupies(o, w) implies pre.occupies(o, w)
                && o != output by {
                let i = choose|i: int|
                    0 <= i < fin.fs().len() && fin.fs()[i] == (FullscreenEntry {
                        output: o,
                        window: w,
                    });
                assert(mid2.fs().contains(fin.fs()[i]));
                assert(mid2.occupies(o, w));
                assert(mid.occupies(o, w));
            }
            assert forall|x: u64| #[trigger] fin.floating_seq().contains(x) == (
            pre.floating_seq().contains(x) && !pre.doomed(x)) by {
                assert(fin.floating_seq().contains(x) == (mid2.floating_seq().contains(x)
                    && !mid2.doomed(x)));
                assert(mid2.doomed(x) == mid.doomed(x));
                assert(mid2.floating_seq() == pre.floating_seq());
            }
            assert forall|x: u64| #[trigger] fin.tiling_seq().contains(x) == (
            pre.tiling_seq().contains(x) && !pre.doomed(x)) by {
                assert(fin.tiling_seq().contains(x) == (mid2.tiling_seq().contains(x)
                    && !mid2.doomed(x)));
                assert(mid2.doomed(x) == mid.doomed(x));
                assert(mid2.tiling_seq() == pre.tiling_seq());
            }
            assert(!fin.has_output(output));
            assert forall|x: u64| #[trigger] fin.knows(x) == pre.knows(x) by {
                assert(mid.knows(x) == pre.knows(x));
            }
        }
    }
}

/// The mapped outputs whose internal rectangles overlap `geo`, in order.
pub open spec fn overlapping_outputs(s: Seq<MappedOutput>, geo: Rect) -> Seq<u64>
    decreases s.len(),
{
    if s.len() == 0 {
        Seq::<u64>::empty()
    } else {
        let rest = overlapping_outputs(s.drop_last(), geo);
        if (Rect { loc: s.last().position, size: s.last().output.size }).spec_overlaps(geo) {
            rest.push(s.last().output.id)
        } else {
            rest
        }
    }
}

/// Field-level equality of two registry entries (the surface lists compared
/// as sequences).
pub open spec fn win_entry_like(a: WindowEntry, b: WindowEntry) -> bool {
    &&& a.window == b.window
    &&& a.alive == b.alive
    &&& a.maximized == b.maximized
    &&& a.fullscreen == b.fullscreen
    &&& a.pending_size == b.pending_size
    &&& a.needs_configure == b.needs_configure
    &&& a.surfaces@ == b.surfaces@
}

} // verus!
