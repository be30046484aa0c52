//! Frame composition: the ordered list of elements to paint for one output,
//! back to front.
//!
//! With a fullscreen occupant the output shows only the overlay layer
//! surfaces and then the occupant on top; otherwise it shows the background
//! and bottom layer surfaces, the tiled content, the floating content, and
//! the top and overlay layer surfaces.  Layer surfaces are placed at their
//! layer-assigned position taken to physical pixels under the output's
//! scale; workspace content is placed relative to the output's internal
//! position.

use vstd::prelude::*;
use crate::floating::FloatEntry;
use crate::geometry::{to_physical, to_physical_spec, Point, Rect, Scale};
use crate::tiling::TileEntry;
use crate::workspace::{FullscreenEntry, MappedOutput, Output, OutputNotMapped, Workspace};

verus! {

/// The band a layer-shell surface is assigned to, bottom first.
#[derive(Clone, Copy, PartialEq, Eq, Structural, Debug)]
pub enum Layer {
    Background,
    Bottom,
    Top,
    Overlay,
}

/// One layer-shell surface on an output: its handle, band, and its
/// layer-assigned rectangle once it has been configured.
#[derive(Clone, Copy, PartialEq, Eq, Structural, Debug)]
pub struct LayerSurface {
    pub surface: u64,
    pub layer: Layer,
    pub geo: Option<Rect>,
}

/// One element to composite, positioned in output-physical pixels.
#[derive(Clone, Copy, PartialEq, Eq, Structural, Debug)]
pub enum RenderElement {
    /// A layer-shell surface at its physical position.
    Layer { surface: u64, loc: Point },
    /// A tiled window at its physical position.
    Tiling { window: u64, loc: Point },
    /// A floating window at its physical position.
    Floating { window: u64, loc: Point },
    /// The fullscreen occupant, filling the output from its origin.
    Fullscreen { window: u64 },
}

/// Whether a band is background-or-bottom (the lower partition).
pub open spec fn is_lower(l: Layer) -> bool {
    l == Layer::Background || l == Layer::Bottom
}

/// The elements of the configured layer surfaces selected by `lower`
/// (the lower partition when true, the upper when false), in input order.
pub open spec fn layer_elems(ls: Seq<LayerSurface>, lower: bool, scale: Scale) -> Seq<RenderElement>
    decreases ls.len(),
{
    if ls.len() == 0 {
        Seq::<RenderElement>::empty()
    } else {
        let rest = layer_elems(ls.drop_last(), lower, scale);
        let s = ls.last();
        if is_lower(s.layer) == lower && s.geo is Some {
            rest.push(
                RenderElement::Layer {
                    surface: s.surface,
                    loc: to_physical_spec(s.geo->0.loc, scale),
                },
            )
        } else {
            rest
        }
    }
}

/// The elements of the configured overlay-band surfaces only, in input order.
pub open spec fn overlay_elems(ls: Seq<LayerSurface>, scale: Scale) -> Seq<RenderElement>
    decreases ls.len(),
{
    if ls.len() == 0 {
        Seq::<RenderElement>::empty()
    } else {
        let rest = overlay_elems(ls.drop_last(), scale);
        let s = ls.last();
        if s.layer == Layer::Overlay && s.geo is Some {
            rest.push(
                RenderElement::Layer {
                    surface: s.surface,
                    loc: to_physical_spec(s.geo->0.loc, scale),
                },
            )
        } else {
            rest
        }
    }
}

/// The elements of the tiled windows assigned to output `o`, bottom first,
/// each at the output's physical origin.
pub open spec fn tiling_elems(ts: Seq<TileEntry>, o: u64) -> Seq<RenderElement>
    decreases ts.len(),
{
    if ts.len() == 0 {
        Seq::<RenderElement>::empty()
    } else {
        let rest = tiling_elems(ts.drop_last(), o);
        if ts.last().output == o {
            rest.push(RenderElement::Tiling { window: ts.last().window, loc: Point { x: 0, y: 0 } })
        } else {
            rest
        }
    }
}

/// The elements of the floating windows whose rectangles overlap the
/// output's internal rectangle, bottom of the stack first, positioned
/// relative to the output and taken to physical pixels.
pub open spec fn floating_elems(fs: Seq<FloatEntry>, m: MappedOutput, scale: Scale) -> Seq<
    RenderElement,
>
    decreases fs.len(),
{
    if fs.len() == 0 {
        Seq::<RenderElement>::empty()
    } else {
        let rest = floating_elems(fs.drop_last(), m, scale);
        let e = fs.last();
        if e.geo.spec_overlaps(Rect { loc: m.position, size: m.output.size }) {
            rest.push(
                RenderElement::Floating {
                    window: e.window,
                    loc: to_physical_spec(
                        (Point {
                            x: crate::geometry::sub_clip(
                                e.geo.loc.x as int,
                                m.position.x as int,
                            ) as i32,
                            y: crate::geometry::sub_clip(
                                e.geo.loc.y as int,
                                m.position.y as int,
                            ) as i32,
                        }),
                        scale,
                    ),
                },
            )
        } else {
            rest
        }
    }
}

impl Workspace {
    /// What one frame of `out` shows, back to front.
    pub open spec fn render_spec(self, out: Output, ls: Seq<LayerSurface>) -> Seq<RenderElement> {
        if self.output_occupied(out.id) {
            overlay_elems(ls, out.scale).push(
                RenderElement::Fullscreen { window: self.fs()[self.fs_out_index(out.id)].window },
            )
        } else {
            layer_elems(ls, true, out.scale) + tiling_elems(self.tiling_layer.entries@, out.id)
                + floating_elems(self.floating_layer.entries@, self.mout(out.id), out.scale)
                + layer_elems(ls, false, out.scale)
        }
    }

    pub open spec fn fs_out_index(self, o: u64) -> int {
        choose|i: int| 0 <= i < self.fs().len() && self.fs()[i].output == o
    }

    /// Compose one frame for `out` from the workspace content and the
    /// output's layer surfaces, back to front, or report that the output is
    /// not mapped here.
    pub fn render_output(&self, out: &Output, layers: &Vec<LayerSurface>) -> (r: Result<
        Vec<RenderElement>,
        OutputNotMapped,
    >)
        requires
            self.wf(),
            out.wf(),
        ensures
            r is Ok <==> self.has_output(out.id),
            r matches Ok(v) ==> v@ == self.render_spec(*out, layers@),
    {
        let m: MappedOutput = match self.find_output(out.id) {
            Some(j) => self.outputs[j],
            None => {
                return Err(OutputNotMapped);
            },
        };
        let mut elems: Vec<RenderElement> = Vec::new();
        match self.find_fs_output(out.id) {
            Some(fj) => {
                let occupant = self.fullscreen[fj].window;
                proof {
                    let k = self.fs_out_index(out.id);
                    assert(0 <= k < self.fs().len() && self.fs()[k].output == out.id);
                    if k != fj as int {
                        assert(self.fs().map_values(crate::workspace::fs_okey())[k] == out.id);
                        assert(self.fs().map_values(crate::workspace::fs_okey())[fj as int]
                            == out.id);
                    }
                }
                let mut k: usize = 0;
                while k < layers.len()
                    invariant
                        out.wf(),
                        k <= layers@.len(),
                        elems@ == overlay_elems(layers@.take(k as int), out.scale),
                    decreases layers@.len() - k,
                {
                    let s = layers[k];
                    proof {
                        assert(layers@.take(k as int + 1).drop_last() =~= layers@.take(k as int));
                        assert(layers@.take(k as int + 1).last() == s);
                    }
                    match s.geo {
                        Some(g) => {
                            if matches!(s.layer, Layer::Overlay) {
                                elems.push(
                                    RenderElement::Layer {
                                        surface: s.surface,
                                        loc: to_physical(g.loc, out.scale),
                                    },
                                );
                            }
                        },
                        None => {},
                    }
                    k += 1;
                }
                proof {
                    assert(layers@.take(layers@.len() as int) =~= layers@);
                }
                elems.push(RenderElement::Fullscreen { window: occupant });
                Ok(elems)
            },
            None => {
                let mut k: usize = 0;
                while k < layers.len()
                    invariant
                        out.wf(),
                        k <= layers@.len(),
                        elems@ == layer_elems(layers@.take(k as int), true, out.scale),
                    decreases layers@.len() - k,
                {
                    let s = layers[k];
                    proof {
                        assert(layers@.take(k as int + 1).drop_last() =~= layers@.take(k as int));
                        assert(layers@.take(k as int + 1).last() == s);
                    }
                    match s.geo {
                        Some(g) => {
                            if matches!(s.layer, Layer::Background | Layer::Bottom) {
                                elems.push(
                                    RenderElement::Layer {
                                        surface: s.surface,
                                        loc: to_physical(g.loc, out.scale),
                                    },
                                );
                            }
                        },
                        None => {},
                    }
                    k += 1;
                }
                proof {
                    assert(layers@.take(layers@.len() as int) =~= layers@);
                    assert(elems@ == layer_elems(layers@, true, out.scale));
                }
                let ghost base1 = elems@;
                let mut k2: usize = 0;
                while k2 < self.tiling_layer.entries.len()
                    invariant
                        k2 <= self.tiling_layer.entries@.len(),
                        elems@ == base1 + tiling_elems(
                            self.tiling_layer.entries@.take(k2 as int),
                            out.id,
                        ),
                    decreases self.tiling_layer.entries@.len() - k2,
                {
                    let e = self.tiling_layer.entries[k2];
                    proof {
                        assert(self.tiling_layer.entries@.take(k2 as int + 1).drop_last()
                            =~= self.tiling_layer.entries@.take(k2 as int));
                        assert(self.tiling_layer.entries@.take(k2 as int + 1).last() == e);
                    }
                    if e.output == out.id {
                        elems.push(
                            RenderElement::Tiling { window: e.window, loc: Point { x: 0, y: 0 } },
                        );
                    }
                    k2 += 1;
                }
                proof {
                    assert(self.tiling_layer.entries@.take(self.tiling_layer.entries@.len() as int)
                        =~= self.tiling_layer.entries@);
                }
                let ghost base2 = elems@;
                let internal = Rect { loc: m.position, size: m.output.size };
                let mut k3: usize = 0;
                while k3 < self.floating_layer.entries.len()
                    invariant
                        out.wf(),
                        internal == (Rect { loc: m.position, size: m.output.size }),
                        k3 <= self.floating_layer.entries@.len(),
                        elems@ == base2 + floating_elems(
                            self.floating_layer.entries@.take(k3 as int),
                            m,
                            out.scale,
                        ),
                    decreases self.floating_layer.entries@.len() - k3,
                {
                    let e = self.floating_layer.entries[k3];
                    proof {
                        assert(self.floating_layer.entries@.take(k3 as int + 1).drop_last()
                            =~= self.floating_layer.entries@.take(k3 as int));
                        assert(self.floating_layer.entries@.take(k3 as int + 1).last() == e);
                    }
                    if e.geo.overlaps(&internal) {
                        let rx = crate::geometry::sub_i32_clip(e.geo.loc.x, m.position.x);
                        let ry = crate::geometry::sub_i32_clip(e.geo.loc.y, m.position.y);
                        elems.push(
                            RenderElement::Floating {
                                window: e.window,
                                loc: to_physical(Point { x: rx, y: ry }, out.scale),
                            },
                        );
                    }
                    k3 += 1;
                }
                proof {
                    assert(self.floating_layer.entries@.take(
                        self.floating_layer.entries@.len() as int,
                    ) =~= self.floating_layer.entries@);
                }
                let mut k4: usize = 0;
                let ghost base3 = elems@;
                while k4 < layers.len()
                    invariant
                        out.wf(),
                        k4 <= layers@.len(),
                        elems@ == base3 + layer_elems(layers@.take(k4 as int), false, out.scale),
                    decreases layers@.len() - k4,
                {
                    let s = layers[k4];
                    proof {
                        assert(layers@.take(k4 as int + 1).drop_last() =~= layers@.take(k4 as int));
                        assert(layers@.take(k4 as int + 1).last() == s);
                    }
                    match s.geo {
                        Some(g) => {
                            if matches!(s.layer, Layer::Top | Layer::Overlay) {
                                elems.push(
                                    RenderElement::Layer {
                                        surface: s.surface,
                                        loc: to_physical(g.loc, out.scale),
                                    },
                                );
                            }
                        },
                        None => {},
                    }
                    k4 += 1;
                }
                proof {
                    assert(layers@.take(layers@.len() as int) =~= layers@);
                    assert(m == self.mout(out.id));
                    assert(elems@ == layer_elems(layers@, true, out.scale) + tiling_elems(
                        self.tiling_layer.entries@,
                        out.id,
                    ) + floating_elems(self.floating_layer.entries@, m, out.scale) + layer_elems(
                        layers@,
                        false,
                        out.scale,
                    ));
                }
                Ok(elems)
            },
        }
    }
}

} // verus!
