//! The workspace's global guarantees, stated once and proved from the spec
//! functions the public contracts use.

use vstd::prelude::*;
use crate::focus::without;
use crate::seq_util::lemma_without_absent;
use crate::workspace::{fs_okey, fs_wkey, FullscreenEntry, Output, Workspace};

verus! {

/// Ownership exclusivity: every owned window is mapped by exactly one of the
/// two layouts, never both.
pub proof fn lemma_ownership_exclusivity(ws: &Workspace)
    requires
        ws.wf(),
    ensures
        forall|w: u64|
            #[trigger] ws.owns(w) ==> (ws.floating_seq().contains(w) != ws.tiling_seq().contains(
                w,
            )),
{
    assert forall|w: u64| #[trigger] ws.owns(w) implies (ws.floating_seq().contains(w)
        != ws.tiling_seq().contains(w)) by {
        assert(!(ws.floating_seq().contains(w) && ws.tiling_seq().contains(w)));
    }
}

/// Focus-set consistency: after a window is purged from a focus order (as
/// `unmap` does for every seat), that order no longer holds it.
pub proof fn lemma_focus_purge_complete(stack: Seq<u64>, w: u64)
    ensures
        !without(stack, w).contains(w),
{
    lemma_without_absent(stack, w);
}

/// Fullscreen exclusivity: the registry holds at most one entry per output
/// and at most one output per window.
pub proof fn lemma_fullscreen_exclusivity(ws: &Workspace)
    requires
        ws.wf(),
    ensures
        forall|i: int, j: int|
            0 <= i < j < ws.fs().len() ==> (#[trigger] ws.fs()[i]).output != (
            #[trigger] ws.fs()[j]).output && ws.fs()[i].window != ws.fs()[j].window,
{
    assert forall|i: int, j: int| 0 <= i < j < ws.fs().len() implies (#[trigger] ws.fs()[i]).output
        != (#[trigger] ws.fs()[j]).output && ws.fs()[i].window != ws.fs()[j].window by {
        assert(ws.fs().map_values(fs_okey())[i] != ws.fs().map_values(fs_okey())[j]);
        assert(ws.fs().map_values(fs_wkey())[i] != ws.fs().map_values(fs_wkey())[j]);
    }
}

/// What one whole-workspace mode toggle does to the floating stack.
pub open spec fn toggle_floating_after(fl: Seq<u64>, ti: Seq<u64>, enabled: bool) -> Seq<u64> {
    if enabled {
        fl + ti
    } else {
        Seq::<u64>::empty()
    }
}

/// What one whole-workspace mode toggle does to the tiled stack.
pub open spec fn toggle_tiling_after(fl: Seq<u64>, ti: Seq<u64>, enabled: bool) -> Seq<u64> {
    if enabled {
        Seq::<u64>::empty()
    } else {
        ti + fl
    }
}

/// Toggle round-trip: two mode toggles restore every window to its original
/// owning layout, provided the inactive layout started empty (as it is in
/// any state the toggles themselves produce).
pub proof fn lemma_toggle_tiling_round_trip(fl: Seq<u64>, ti: Seq<u64>, enabled: bool)
    requires
        enabled ==> fl == Seq::<u64>::empty(),
        !enabled ==> ti == Seq::<u64>::empty(),
    ensures
        toggle_floating_after(
            toggle_floating_after(fl, ti, enabled),
            toggle_tiling_after(fl, ti, enabled),
            !enabled,
        ) == fl,
        toggle_tiling_after(
            toggle_floating_after(fl, ti, enabled),
            toggle_tiling_after(fl, ti, enabled),
            !enabled,
        ) == ti,
{
    if enabled {
        assert(toggle_floating_after(fl, ti, enabled) =~= ti);
        assert(toggle_tiling_after(ti, Seq::<u64>::empty(), false) =~= ti);
        assert(toggle_floating_after(ti, Seq::<u64>::empty(), false) =~= fl);
    } else {
        assert(toggle_tiling_after(fl, ti, enabled) =~= fl);
        assert(toggle_floating_after(Seq::<u64>::empty(), fl, true) =~= fl);
        assert(toggle_tiling_after(Seq::<u64>::empty(), fl, true) =~= ti);
    }
}

/// Maximize toggle, twice, starting from a free output: the first call
/// maximizes `w` there and the second finds it occupying and restores it, so
/// the registry ends exactly as it began.
pub proof fn lemma_maximize_toggle_twice_free(
    a: Workspace,
    b: Workspace,
    c: Workspace,
    w: u64,
    o: Output,
)
    requires
        a.wf(),
        !a.output_occupied(o.id),
        !a.is_occupant(w),
        Workspace::occupy_post(a, b, w, o),
        Workspace::unfullscreen_post(b, c, w),
    ensures
        c.fs() == a.fs(),
{
    assert(a.fs_drop_window(w) == a.fs());
    assert(b.fs() == a.fs().push(FullscreenEntry { output: o.id, window: w }));
    assert(b.is_occupant(w)) by {
        assert(b.fs()[b.fs().len() - 1].window == w);
    }
    let j = b.fs_win_index(w);
    assert(0 <= j < b.fs().len() && b.fs()[j].window == w);
    if j < b.fs().len() - 1 {
        assert(a.fs()[j].window == w);
        assert(a.is_occupant(w));
        assert(false);
    }
    assert(c.fs() == b.fs().remove(b.fs().len() - 1));
    assert(c.fs() =~= a.fs());
}

/// Maximize toggle, twice, starting with `w` occupying `o`: the first call
/// restores `w` and the second maximizes it on `o` again, so the same window
/// occupies the same outputs as before.
pub proof fn lemma_maximize_toggle_twice_occupied(
    a: Workspace,
    b: Workspace,
    c: Workspace,
    w: u64,
    o: Output,
)
    requires
        a.wf(),
        a.occupies(o.id, w),
        Workspace::unfullscreen_post(a, b, w),
        Workspace::occupy_post(b, c, w, o),
    ensures
        forall|o2: u64, x: u64| #[trigger] c.occupies(o2, x) == a.occupies(o2, x),
{
    a.lemma_fs_drop(w);
    assert(b.fs() == a.fs_drop_window(w));
    assert(b.fs_drop_window(w) == b.fs()) by {
        if b.is_occupant(w) {
            let i = choose|i: int| 0 <= i < b.fs().len() && b.fs()[i].window == w;
            assert(b.fs()[i].window != w);
        }
    }
    let e = FullscreenEntry { output: o.id, window: w };
    assert(c.fs() == b.fs().push(e));
    let ja = choose|ja: int| 0 <= ja < a.fs().len() && a.fs()[ja] == e;
    assert forall|o2: u64, x: u64| #[trigger] c.occupies(o2, x) == a.occupies(o2, x) by {
        let e2 = FullscreenEntry { output: o2, window: x };
        if x == w {
            if c.occupies(o2, x) {
                let i = choose|i: int| 0 <= i < c.fs().len() && c.fs()[i] == e2;
                if i < b.fs().len() {
                    assert(b.fs()[i].window != w);
                    assert(false);
                }
                assert(e2 == e);
                assert(a.occupies(o.id, w));
            }
            if a.occupies(o2, x) {
                let i = choose|i: int| 0 <= i < a.fs().len() && a.fs()[i] == e2;
                assert(a.fs().map_values(fs_wkey())[i] == w);
                assert(a.fs().map_values(fs_wkey())[ja] == w);
                if i != ja {
                    assert(false);
                }
                assert(e2 == e);
                assert(c.fs().last() == e);
            }
        } else {
            if c.occupies(o2, x) {
                let i = choose|i: int| 0 <= i < c.fs().len() && c.fs()[i] == e2;
                assert(i < b.fs().len());
                assert(b.fs().contains(e2));
                assert(a.fs().contains(e2));
            }
            if a.occupies(o2, x) {
                assert(b.fs().contains(e2));
                let i = choose|i: int| 0 <= i < b.fs().len() && b.fs()[i] == e2;
                assert(c.fs()[i] == e2);
            }
        }
    }
}

} // verus!
