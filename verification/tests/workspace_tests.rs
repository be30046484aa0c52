use workspace_core::geometry::{Point, Rect, Scale, Size};
use workspace_core::render::{Layer, LayerSurface, RenderElement};
use workspace_core::workspace::{ManagedState, Output, ResizeEdge, Workspace};

fn out(id: u64, w: i32, h: i32) -> Output {
    Output {
        id,
        loc: Point { x: 0, y: 0 },
        size: Size { w, h },
        mode: Size { w, h },
        scale: Scale { num: 1, den: 1 },
    }
}

fn pt(x: i32, y: i32) -> Point {
    Point { x, y }
}

#[test]
fn map_and_unmap_keep_single_ownership() {
    let mut ws = Workspace::new(1);
    assert!(ws.tiling_enabled);
    ws.map(10, vec![100], 1, 7);
    ws.map(11, vec![101], 1, 7);
    let mapped = ws.mapped();
    assert_eq!(mapped, vec![10, 11]);
    // Both are tiled, neither is floating.
    assert_eq!(ws.floating_layer.entries.len(), 0);
    assert_eq!(ws.tiling_layer.entries.len(), 2);
    assert_eq!(ws.unmap(10), Some(ManagedState::Tiling));
    assert_eq!(ws.unmap(10), None);
    assert_eq!(ws.mapped(), vec![11]);
}

#[test]
fn unmap_purges_focus_everywhere() {
    let mut ws = Workspace::new(1);
    ws.map(10, vec![100], 1, 7);
    ws.map(11, vec![101], 2, 7);
    ws.focus_append(1, 10);
    ws.focus_append(1, 11);
    ws.focus_append(2, 10);
    ws.unmap(10);
    assert_eq!(ws.focus_stack.get(1), vec![11]);
    assert_eq!(ws.focus_stack.get(2), Vec::<u64>::new());
}

#[test]
fn focus_ring_moves_window_to_front() {
    let mut ws = Workspace::new(1);
    ws.focus_append(1, 5);
    ws.focus_append(1, 6);
    assert_eq!(ws.focus_stack.get(1), vec![6, 5]);
    ws.focus_append(1, 5);
    assert_eq!(ws.focus_stack.get(1), vec![5, 6]);
    assert_eq!(ws.focus_stack.focused(1), Some(5));
    assert_eq!(ws.focus_stack.focused(9), None);
}

#[test]
fn toggle_tiling_round_trip_restores_layouts() {
    let mut ws = Workspace::new(1);
    ws.map(10, vec![100], 1, 7);
    ws.map(11, vec![101], 1, 7);
    assert_eq!(ws.tiling_layer.entries.len(), 2);
    ws.toggle_tiling(1);
    assert!(!ws.tiling_enabled);
    assert_eq!(ws.tiling_layer.entries.len(), 0);
    assert_eq!(ws.floating_layer.entries.len(), 2);
    ws.toggle_tiling(1);
    assert!(ws.tiling_enabled);
    assert_eq!(ws.tiling_layer.entries.len(), 2);
    assert_eq!(ws.floating_layer.entries.len(), 0);
    let windows: Vec<u64> = ws.tiling_layer.entries.iter().map(|e| e.window).collect();
    assert_eq!(windows, vec![10, 11]);
}

#[test]
fn toggle_floating_window_moves_only_focused() {
    let mut ws = Workspace::new(1);
    ws.map(10, vec![100], 1, 7);
    ws.map(11, vec![101], 1, 7);
    ws.focus_append(1, 10);
    ws.toggle_floating_window(1);
    assert_eq!(ws.floating_layer.entries.len(), 1);
    assert_eq!(ws.floating_layer.entries[0].window, 10);
    assert_eq!(ws.tiling_layer.entries.len(), 1);
    // Toggling again moves it back.
    ws.toggle_floating_window(1);
    assert_eq!(ws.floating_layer.entries.len(), 0);
    assert_eq!(ws.tiling_layer.entries.len(), 2);
}

#[test]
fn maximize_request_rejected_when_output_occupied() {
    let mut ws = Workspace::new(1);
    let o = out(1, 1000, 800);
    ws.map_output(&o, pt(0, 0));
    ws.map(10, vec![100], 1, 1);
    ws.map(11, vec![101], 1, 1);
    ws.maximize_request(10, &o);
    assert_eq!(ws.get_fullscreen(1), Some(10));
    // The second request is a no-op while the output is occupied.
    ws.maximize_request(11, &o);
    assert_eq!(ws.get_fullscreen(1), Some(10));
    let st = ws.window_state(11).unwrap();
    assert!(!st.maximized);
}

#[test]
fn maximize_sets_size_from_mode_and_scale() {
    let mut ws = Workspace::new(1);
    let mut o = out(1, 500, 400);
    o.mode = Size { w: 1000, h: 800 };
    o.scale = Scale { num: 2, den: 1 };
    ws.map_output(&o, pt(0, 0));
    ws.map(10, vec![100], 1, 1);
    ws.maximize_request(10, &o);
    let st = ws.window_state(10).unwrap();
    assert!(st.maximized);
    assert!(!st.fullscreen);
    assert!(st.needs_configure);
    assert_eq!(st.pending_size, Some(Size { w: 500, h: 400 }));
}

#[test]
fn unmaximize_on_normal_window_is_noop() {
    let mut ws = Workspace::new(1);
    ws.map(10, vec![100], 1, 1);
    let before = ws.window_state(10).unwrap();
    ws.unmaximize_request(10);
    let after = ws.window_state(10).unwrap();
    assert_eq!(before.maximized, after.maximized);
    assert_eq!(before.pending_size, after.pending_size);
    assert_eq!(before.needs_configure, after.needs_configure);
    assert_eq!(ws.get_fullscreen(1), None);
}

#[test]
fn maximize_toggle_twice_restores_occupancy() {
    let mut ws = Workspace::new(1);
    let o = out(1, 1000, 800);
    ws.map_output(&o, pt(0, 0));
    ws.map(10, vec![100], 1, 1);
    assert_eq!(ws.get_fullscreen(1), None);
    ws.maximize_toggle(10, &o);
    assert_eq!(ws.get_fullscreen(1), Some(10));
    ws.maximize_toggle(10, &o);
    assert_eq!(ws.get_fullscreen(1), None);
    assert_eq!(ws.fullscreen.len(), 0);
}

#[test]
fn fullscreen_then_output_hotplug() {
    let mut ws = Workspace::new(1);
    let o = out(1, 1000, 800);
    ws.map_output(&o, pt(0, 0));
    ws.map(10, vec![100], 1, 1);
    ws.fullscreen_request(10, &o);
    assert_eq!(ws.get_fullscreen(1), Some(10));
    let st = ws.window_state(10).unwrap();
    assert!(st.fullscreen && !st.maximized);
    ws.unmap_output(1);
    assert_eq!(ws.get_fullscreen(1), None);
    // The window stays owned by the layout that had it.
    assert_eq!(ws.mapped(), vec![10]);
    assert_eq!(ws.tiling_layer.entries.len(), 1);
}

#[test]
fn fullscreen_of_dead_window_is_absent() {
    let mut ws = Workspace::new(1);
    let o = out(1, 1000, 800);
    ws.map_output(&o, pt(0, 0));
    ws.map(10, vec![100], 1, 1);
    ws.fullscreen_request(10, &o);
    ws.mark_dead(10);
    // Dead occupants are reported absent even before the sweep.
    assert_eq!(ws.get_fullscreen(1), None);
    assert_eq!(ws.fullscreen.len(), 1);
    ws.refresh();
    assert_eq!(ws.fullscreen.len(), 0);
    assert_eq!(ws.mapped(), Vec::<u64>::new());
}

#[test]
fn render_order_background_tiling_floating_overlay() {
    let mut ws = Workspace::new(1);
    let o = out(1, 1000, 800);
    ws.map_output(&o, pt(0, 0));
    // One tiled window T and one floating window F.
    ws.map(20, vec![200], 1, 1);
    ws.focus_append(1, 20);
    ws.toggle_floating_window(1);  // 20 floats
    ws.map(21, vec![201], 1, 1);  // 21 tiles
    let layers = vec![
        LayerSurface {
            surface: 1,
            layer: Layer::Background,
            geo: Some(Rect { loc: pt(0, 0), size: Size { w: 1000, h: 800 } }),
        },
        LayerSurface {
            surface: 2,
            layer: Layer::Overlay,
            geo: Some(Rect { loc: pt(5, 6), size: Size { w: 100, h: 50 } }),
        },
    ];
    let elems = ws.render_output(&o, &layers).unwrap();
    assert_eq!(
        elems,
        vec![
            RenderElement::Layer { surface: 1, loc: pt(0, 0) },
            RenderElement::Tiling { window: 21, loc: pt(0, 0) },
            RenderElement::Floating { window: 20, loc: pt(0, 0) },
            RenderElement::Layer { surface: 2, loc: pt(5, 6) },
        ]
    );
}

#[test]
fn render_fullscreen_suppresses_everything_but_overlay() {
    let mut ws = Workspace::new(1);
    let o = out(1, 1000, 800);
    ws.map_output(&o, pt(0, 0));
    ws.map(20, vec![200], 1, 1);
    ws.fullscreen_request(20, &o);
    let layers = vec![
        LayerSurface {
            surface: 1,
            layer: Layer::Background,
            geo: Some(Rect { loc: pt(0, 0), size: Size { w: 1000, h: 800 } }),
        },
        LayerSurface {
            surface: 2,
            layer: Layer::Overlay,
            geo: Some(Rect { loc: pt(0, 0), size: Size { w: 100, h: 50 } }),
        },
    ];
    let elems = ws.render_output(&o, &layers).unwrap();
    assert_eq!(
        elems,
        vec![
            RenderElement::Layer { surface: 2, loc: pt(0, 0) },
            RenderElement::Fullscreen { window: 20 },
        ]
    );
}

#[test]
fn render_output_unmapped_output_fails() {
    let ws = Workspace::new(1);
    let o = out(9, 100, 100);
    assert!(ws.render_output(&o, &Vec::new()).is_err());
}

#[test]
fn render_scale_positions_layer_surfaces_physically() {
    let mut ws = Workspace::new(1);
    let mut o = out(1, 1000, 800);
    o.scale = Scale { num: 3, den: 2 };  // 1.5x
    ws.map_output(&o, pt(0, 0));
    let layers = vec![
        LayerSurface {
            surface: 1,
            layer: Layer::Bottom,
            geo: Some(Rect { loc: pt(11, 5), size: Size { w: 10, h: 10 } }),
        },
    ];
    let elems = ws.render_output(&o, &layers).unwrap();
    // round(11 * 1.5) = 17 (16.5 rounds away from zero), round(5 * 1.5) = 8.
    assert_eq!(elems, vec![RenderElement::Layer { surface: 1, loc: pt(17, 8) }]);
}

#[test]
fn resize_request_respects_state_and_ownership() {
    let mut ws = Workspace::new(1);
    let o = out(1, 1000, 800);
    ws.map_output(&o, pt(0, 0));
    ws.map(10, vec![100], 1, 1);
    let edges = ResizeEdge { top: false, bottom: true, left: false, right: true };
    let grab = ws.resize_request(10, 1, 42, pt(1, 2), edges).unwrap();
    assert_eq!(grab.layout, ManagedState::Tiling);
    assert_eq!(grab.serial, 42);
    ws.maximize_request(10, &o);
    assert!(ws.resize_request(10, 1, 43, pt(1, 2), edges).is_none());
    assert!(ws.resize_request(99, 1, 44, pt(1, 2), edges).is_none());
}

#[test]
fn move_request_from_maximized_keeps_pointer_fraction() {
    let mut ws = Workspace::new(1);
    let o = out(1, 1000, 800);
    ws.map_output(&o, pt(0, 0));
    ws.toggle_tiling(1);  // floating mode
    ws.map(10, vec![100], 1, 1);
    ws.floating_layer.set_geometry(10, Rect { loc: pt(0, 0), size: Size { w: 400, h: 300 } });
    ws.maximize_request(10, &o);
    // Pointer at x = 250 on an output of logical width 1000: fraction 0.25.
    let grab = ws.move_request(10, 1, &o, pt(250, 60)).unwrap();
    // 250 - 400 * 0.25 = 150.
    assert_eq!(grab.initial_location, pt(150, 60));
    assert_eq!(grab.output_offset, pt(0, 0));
    // Ownership moved to the grab.
    assert_eq!(ws.mapped(), Vec::<u64>::new());
}

#[test]
fn move_request_rejects_tiled_windows() {
    let mut ws = Workspace::new(1);
    let o = out(1, 1000, 800);
    ws.map_output(&o, pt(0, 0));
    ws.map(10, vec![100], 1, 1);
    assert!(ws.move_request(10, 1, &o, pt(5, 5)).is_none());
    assert_eq!(ws.mapped(), vec![10]);
    assert!(ws.move_request(99, 1, &o, pt(5, 5)).is_none());
}

#[test]
fn element_queries_route_through_both_layouts() {
    let mut ws = Workspace::new(1);
    let o = out(1, 1000, 800);
    ws.map_output(&o, pt(0, 0));
    ws.toggle_tiling(1);  // floating mode
    ws.map(10, vec![100], 1, 1);
    ws.floating_layer.set_geometry(10, Rect { loc: pt(50, 60), size: Size { w: 200, h: 100 } });
    assert_eq!(ws.element_for_surface(100), Some(10));
    assert_eq!(ws.element_for_surface(999), None);
    assert_eq!(
        ws.element_geometry(10),
        Some(Rect { loc: pt(50, 60), size: Size { w: 200, h: 100 } })
    );
    assert_eq!(ws.element_under(pt(60, 70)), Some((10, pt(50, 60))));
    assert_eq!(ws.element_under(pt(900, 700)), None);
    assert_eq!(ws.output_under(pt(10, 10)), Some(1));
    assert_eq!(ws.output_under(pt(5000, 10)), None);
    assert_eq!(ws.outputs_for_element(10), vec![1]);
}

#[test]
fn windows_lists_floating_before_tiling() {
    let mut ws = Workspace::new(1);
    ws.map(10, vec![100], 1, 1);
    ws.focus_append(1, 10);
    ws.toggle_floating_window(1);
    ws.map(11, vec![101], 1, 1);
    assert_eq!(ws.windows(), vec![10, 11]);
}
