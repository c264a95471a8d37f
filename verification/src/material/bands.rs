use crate::material::compile::CLAY_BAND_COUNT;
use crate::material::proto::VoxelId;
use vstd::prelude::*;

verus! {

/// Where the band table's painting has got to. The table is painted in three
/// passes: single orange bands at random gaps, then yellow, brown and red
/// bands at random places, then white bands with light gray edges.
#[derive(Clone, Copy, Debug, PartialEq, Eq, Structural)]
pub enum ClayStage {
    /// The orange pass, at `at`.
    Orange { at: i32 },
    /// How many bands of colour `layer` to paint.
    BandCount { layer: u8 },
    /// The width of the next of `left` bands.
    BandWidth { layer: u8, left: i32 },
    /// Where the next band, `width` wide, starts.
    BandStart { layer: u8, left: i32, width: i32 },
    /// How many white bands to paint.
    WhiteCount,
    /// Whether the white band at `start` gets a light gray edge below.
    WhiteBelow { total: i32, drawn: i32, start: i32 },
    /// Whether it gets one above.
    WhiteAbove { total: i32, drawn: i32, start: i32 },
    /// How far on the next white band starts.
    WhiteStep { total: i32, drawn: i32, start: i32 },
    Done,
}

/// The draw the painting needs next.
#[derive(Clone, Copy, Debug, PartialEq, Eq, Structural)]
pub enum ClayDraw {
    /// A uniform integer in `0..bound`.
    Below(i32),
    /// A fair coin, fed as `0` or `1`.
    Coin,
    Done,
}

/// The index of each colour in the palette.
pub const TERRACOTTA: usize = 0;

pub const ORANGE: usize = 1;

pub const WHITE: usize = 5;

pub const LIGHT_GRAY: usize = 6;

pub open spec fn band_count() -> int {
    CLAY_BAND_COUNT as int
}

/// The palette index of the colour of band layer `layer`: yellow, brown, red.
pub open spec fn layer_colour(layer: u8) -> int {
    2 + layer
}

/// The narrowest band of layer `layer`.
pub open spec fn layer_base(layer: u8) -> int {
    if layer == 1 {
        2
    } else {
        1
    }
}

pub open spec fn draw_of(stage: ClayStage) -> ClayDraw {
    match stage {
        ClayStage::Orange { .. } => ClayDraw::Below(5),
        ClayStage::BandCount { .. } => ClayDraw::Below(10),
        ClayStage::BandWidth { .. } => ClayDraw::Below(3),
        ClayStage::BandStart { .. } => ClayDraw::Below(CLAY_BAND_COUNT as i32),
        ClayStage::WhiteCount => ClayDraw::Below(7),
        ClayStage::WhiteBelow { .. } => ClayDraw::Coin,
        ClayStage::WhiteAbove { .. } => ClayDraw::Coin,
        ClayStage::WhiteStep { .. } => ClayDraw::Below(16),
        ClayStage::Done => ClayDraw::Done,
    }
}

/// The stage a white band at `start`, the `drawn`-th of `total`, is entered
/// with, once painted: its edge below is asked for only where there is one
/// past the first entry, its edge above only where there is one.
pub open spec fn white_edges(total: i32, drawn: i32, start: i32) -> ClayStage {
    if start - 1 > 0 {
        ClayStage::WhiteBelow { total, drawn, start }
    } else if start + 1 < band_count() {
        ClayStage::WhiteAbove { total, drawn, start }
    } else {
        ClayStage::WhiteStep { total, drawn, start }
    }
}

/// The table and stage a white band begins at: painted white at `start`
/// while bands are left and the table is not past.
pub open spec fn white_enter(bands: Seq<VoxelId>, colours: Seq<VoxelId>, total: i32, drawn: i32, start: i32) -> (
    Seq<VoxelId>,
    ClayStage,
) {
    if drawn < total && start < band_count() {
        (bands.update(start as int, colours[WHITE as int]), white_edges(total, drawn, start))
    } else {
        (bands, ClayStage::Done)
    }
}

/// Band `layer`'s colour over `start..start + width`, clipped to the table.
pub open spec fn paint(bands: Seq<VoxelId>, colour: VoxelId, start: int, width: int) -> Seq<VoxelId> {
    Seq::new(
        bands.len(),
        |i: int|
            if start <= i < start + width {
                colour
            } else {
                bands[i]
            },
    )
}

/// What one draw does to the table and the stage.
pub open spec fn step(bands: Seq<VoxelId>, colours: Seq<VoxelId>, stage: ClayStage, value: i32) -> (
    Seq<VoxelId>,
    ClayStage,
) {
    match stage {
        ClayStage::Orange { at } => {
            let landed = at + value + 1;
            let painted = if landed < band_count() {
                bands.update(landed, colours[ORANGE as int])
            } else {
                bands
            };
            let next = landed + 1;
            if next < band_count() {
                (painted, ClayStage::Orange { at: next as i32 })
            } else {
                (painted, ClayStage::BandCount { layer: 0 })
            }
        },
        ClayStage::BandCount { layer } => (bands, ClayStage::BandWidth { layer, left: (value + 6) as i32 }),
        ClayStage::BandWidth { layer, left } => (
            bands,
            ClayStage::BandStart { layer, left, width: (layer_base(layer) + value) as i32 },
        ),
        ClayStage::BandStart { layer, left, width } => {
            let painted = paint(bands, colours[layer_colour(layer)], value as int, width as int);
            if left > 1 {
                (painted, ClayStage::BandWidth { layer, left: (left - 1) as i32 })
            } else if layer < 2 {
                (painted, ClayStage::BandCount { layer: (layer + 1) as u8 })
            } else {
                (painted, ClayStage::WhiteCount)
            }
        },
        ClayStage::WhiteCount => white_enter(bands, colours, (value + 9) as i32, 0, 0),
        ClayStage::WhiteBelow { total, drawn, start } => {
            let painted = if value == 1 {
                bands.update(start - 1, colours[LIGHT_GRAY as int])
            } else {
                bands
            };
            if start + 1 < band_count() {
                (painted, ClayStage::WhiteAbove { total, drawn, start })
            } else {
                (painted, ClayStage::WhiteStep { total, drawn, start })
            }
        },
        ClayStage::WhiteAbove { total, drawn, start } => {
            let painted = if value == 1 {
                bands.update(start + 1, colours[LIGHT_GRAY as int])
            } else {
                bands
            };
            (painted, ClayStage::WhiteStep { total, drawn, start })
        },
        ClayStage::WhiteStep { total, drawn, start } => white_enter(
            bands,
            colours,
            total,
            (drawn + 1) as i32,
            (start + value + 4) as i32,
        ),
        ClayStage::Done => (bands, ClayStage::Done),
    }
}

/// Every stage's numbers lie where the painting can reach them.
pub open spec fn stage_wf(stage: ClayStage) -> bool {
    match stage {
        ClayStage::Orange { at } => 0 <= at < band_count(),
        ClayStage::BandCount { layer } => layer < 3,
        ClayStage::BandWidth { layer, left } => layer < 3 && 1 <= left <= 15,
        ClayStage::BandStart { layer, left, width } => layer < 3 && 1 <= left <= 15 && 1 <= width
            <= 4,
        ClayStage::WhiteCount => true,
        ClayStage::WhiteBelow { total, drawn, start } => 9 <= total && 0 <= drawn < total <= 15 && 1 < start
            < band_count(),
        ClayStage::WhiteAbove { total, drawn, start } => 9 <= total && 0 <= drawn < total <= 15 && 0 <= start
            < band_count() - 1,
        ClayStage::WhiteStep { total, drawn, start } => 9 <= total && 0 <= drawn < total <= 15 && 0 <= start
            < band_count(),
        ClayStage::Done => true,
    }
}

/// Whether a value is one the stage's draw can give.
pub open spec fn fits_draw(stage: ClayStage, value: i32) -> bool {
    match draw_of(stage) {
        ClayDraw::Below(bound) => 0 <= value < bound,
        ClayDraw::Coin => value == 0 || value == 1,
        ClayDraw::Done => false,
    }
}

/// What one draw does to the table of 192 bands, over a palette of
/// terracotta, orange, yellow, brown, red, white and light gray (indices 0 to
/// 6). The orange pass paints orange the band one plus the draw past where
/// it stands, if that band exists, and moves one past it. A band count of
/// a draw plus six and a width of the layer's base plus a draw paint nothing;
/// a band paints its layer's colour (yellow, brown, red) over the width from
/// the drawn start, clipped to the table. The white count is a draw plus nine
/// and paints band 0 white. A white band's edge below, then above, turns
/// light gray on a coin of one and stays as it was on zero; the next white
/// band lies the draw plus four past it and is painted white while bands are
/// left and the table is not past. Nothing else changes, and once done the
/// table stays as it is.
pub proof fn lemma_draw_paints(bands: Seq<VoxelId>, colours: Seq<VoxelId>, stage: ClayStage, value: i32)
    requires
        bands.len() == 192,
        colours.len() == 7,
        stage_wf(stage),
        fits_draw(stage, value),
    ensures
        ({
            let (after, next) = step(bands, colours, stage, value);
            &&& after.len() == 192
            &&& match stage {
                ClayStage::Orange { at } => {
                    &&& forall|i: int|
                        0 <= i < 192 ==> #[trigger] after[i] == (if i == at + value + 1 {
                            colours[1]
                        } else {
                            bands[i]
                        })
                    &&& next == (if at + value + 2 < 192 {
                        ClayStage::Orange { at: (at + value + 2) as i32 }
                    } else {
                        ClayStage::BandCount { layer: 0 }
                    })
                },
                ClayStage::BandCount { layer } => after == bands && next == (ClayStage::BandWidth {
                    layer,
                    left: (value + 6) as i32,
                }),
                ClayStage::BandWidth { layer, left } => after == bands && next == (ClayStage::BandStart {
                    layer,
                    left,
                    width: ((if layer == 1 {
                        2int
                    } else {
                        1int
                    }) + value) as i32,
                }),
                ClayStage::BandStart { layer, left, width } => {
                    &&& forall|i: int|
                        0 <= i < 192 ==> #[trigger] after[i] == (if value <= i < value + width {
                            colours[2 + layer]
                        } else {
                            bands[i]
                        })
                    &&& next == (if left > 1 {
                        ClayStage::BandWidth { layer, left: (left - 1) as i32 }
                    } else if layer < 2 {
                        ClayStage::BandCount { layer: (layer + 1) as u8 }
                    } else {
                        ClayStage::WhiteCount
                    })
                },
                ClayStage::WhiteCount => {
                    &&& forall|i: int| 0 <= i < 192 ==> #[trigger] after[i] == (if i == 0 {
                        colours[5]
                    } else {
                        bands[i]
                    })
                    &&& next == (ClayStage::WhiteAbove { total: (value + 9) as i32, drawn: 0, start: 0 })
                },
                ClayStage::WhiteBelow { total, drawn, start } => {
                    &&& forall|i: int|
                        0 <= i < 192 ==> #[trigger] after[i] == (if i == start - 1 && value == 1 {
                            colours[6]
                        } else {
                            bands[i]
                        })
                    &&& next == (if start + 1 < 192 {
                        ClayStage::WhiteAbove { total, drawn, start }
                    } else {
                        ClayStage::WhiteStep { total, drawn, start }
                    })
                },
                ClayStage::WhiteAbove { total, drawn, start } => {
                    &&& forall|i: int|
                        0 <= i < 192 ==> #[trigger] after[i] == (if i == start + 1 && value == 1 {
                            colours[6]
                        } else {
                            bands[i]
                        })
                    &&& next == (ClayStage::WhiteStep { total, drawn, start })
                },
                ClayStage::WhiteStep { total, drawn, start } => {
                    let at = start + value + 4;
                    if drawn + 1 < total && at < 192 {
                        &&& forall|i: int| 0 <= i < 192 ==> #[trigger] after[i] == (if i == at {
                            colours[5]
                        } else {
                            bands[i]
                        })
                        &&& next == (if at - 1 > 0 {
                            ClayStage::WhiteBelow { total, drawn: (drawn + 1) as i32, start: at as i32 }
                        } else if at + 1 < 192 {
                            ClayStage::WhiteAbove { total, drawn: (drawn + 1) as i32, start: at as i32 }
                        } else {
                            ClayStage::WhiteStep { total, drawn: (drawn + 1) as i32, start: at as i32 }
                        })
                    } else {
                        after == bands && next == ClayStage::Done
                    }
                },
                ClayStage::Done => after == bands && next == ClayStage::Done,
            }
        }),
{
}

/// The draw each stage asks for: a gap below 5 in the orange pass; a count
/// below 10, a width below 3 and a start below 192 for a band layer; a count
/// below 7 for the white bands, a coin for each edge and a gap below 16
/// between them; nothing once done.
pub proof fn lemma_draw_asked(stage: ClayStage)
    ensures
        draw_of(stage) == match stage {
            ClayStage::Orange { .. } => ClayDraw::Below(5),
            ClayStage::BandCount { .. } => ClayDraw::Below(10),
            ClayStage::BandWidth { .. } => ClayDraw::Below(3),
            ClayStage::BandStart { .. } => ClayDraw::Below(192),
            ClayStage::WhiteCount => ClayDraw::Below(7),
            ClayStage::WhiteBelow { .. } => ClayDraw::Coin,
            ClayStage::WhiteAbove { .. } => ClayDraw::Coin,
            ClayStage::WhiteStep { .. } => ClayDraw::Below(16),
            ClayStage::Done => ClayDraw::Done,
        },
{
}

/// The band table of the `bandlands` rule, painted one draw at a time.
pub struct ClayBands {
    bands: Vec<VoxelId>,
    colours: Vec<VoxelId>,
    stage: ClayStage,
}

impl ClayBands {
    #[verifier::type_invariant]
    closed spec fn wf(self) -> bool {
        &&& self.bands@.len() == band_count()
        &&& self.colours@.len() == 7
        &&& stage_wf(self.stage)
        &&& forall|i: int| 0 <= i < band_count() ==> self.colours@.contains(#[trigger] self.bands@[i])
    }

    pub closed spec fn bands_view(self) -> Seq<VoxelId> {
        self.bands@
    }

    pub closed spec fn colours_view(self) -> Seq<VoxelId> {
        self.colours@
    }

    pub closed spec fn stage_view(self) -> ClayStage {
        self.stage
    }

    /// A table of plain terracotta, about to be painted: terracotta, orange,
    /// yellow, brown, red, white and light gray, in that order.
    pub fn new(colours: [VoxelId; 7]) -> (table: ClayBands)
        ensures
            table.colours_view() == colours@,
            table.bands_view() == Seq::new(band_count() as nat, |i: int| colours@[TERRACOTTA as int]),
            table.stage_view() == (ClayStage::Orange { at: 0 }),
    {
        let mut palette: Vec<VoxelId> = Vec::new();
        let mut k: usize = 0;
        while k < 7
            invariant
                k <= 7,
                palette@ == colours@.take(k as int),
            decreases 7 - k,
        {
            palette.push(colours[k]);
            proof {
                assert(palette@ =~= colours@.take(k + 1));
            }
            k += 1;
        }
        assert(palette@ =~= colours@);
        let mut bands: Vec<VoxelId> = Vec::new();
        while bands.len() < CLAY_BAND_COUNT
            invariant
                bands@.len() <= band_count(),
                forall|i: int| 0 <= i < bands@.len() ==> bands@[i] == colours@[TERRACOTTA as int],
            decreases band_count() - bands@.len(),
        {
            bands.push(colours[TERRACOTTA]);
        }
        assert(bands@ =~= Seq::new(band_count() as nat, |i: int| colours@[TERRACOTTA as int]));
        assert forall|i: int| 0 <= i < band_count() implies palette@.contains(#[trigger] bands@[i]) by {
            assert(palette@[0] == bands@[i]);
        }
        ClayBands { bands, colours: palette, stage: ClayStage::Orange { at: 0 } }
    }

    /// The draw the painting needs next.
    pub fn request(&self) -> (draw: ClayDraw)
        ensures
            draw == draw_of(self.stage_view()),
    {
        match self.stage {
            ClayStage::Orange { .. } => ClayDraw::Below(5),
            ClayStage::BandCount { .. } => ClayDraw::Below(10),
            ClayStage::BandWidth { .. } => ClayDraw::Below(3),
            ClayStage::BandStart { .. } => ClayDraw::Below(CLAY_BAND_COUNT as i32),
            ClayStage::WhiteCount => ClayDraw::Below(7),
            ClayStage::WhiteBelow { .. } => ClayDraw::Coin,
            ClayStage::WhiteAbove { .. } => ClayDraw::Coin,
            ClayStage::WhiteStep { .. } => ClayDraw::Below(16),
            ClayStage::Done => ClayDraw::Done,
        }
    }

    /// Hands the painting the draw it asked for.
    pub fn feed(&mut self, value: i32)
        requires
            fits_draw(old(self).stage_view(), value),
        ensures
            (final(self).bands_view(), final(self).stage_view()) == step(
                old(self).bands_view(),
                old(self).colours_view(),
                old(self).stage_view(),
                value,
            ),
            final(self).colours_view() == old(self).colours_view(),
    {
        proof {
            use_type_invariant(&*self);
        }
        let ghost colours = self.colours@;
        let ghost before = self.bands@;
        let (bands, stage) = self.stepped(value);
        self.bands = bands;
        self.stage = stage;
    }

    /// The table and stage after one draw.
    fn stepped(&self, value: i32) -> (res: (Vec<VoxelId>, ClayStage))
        requires
            fits_draw(self.stage_view(), value),
        ensures
            (res.0@, res.1) == step(self.bands_view(), self.colours_view(), self.stage_view(), value),
            res.0@.len() == band_count(),
            stage_wf(res.1),
            forall|i: int| 0 <= i < band_count() ==> self.colours_view().contains(#[trigger] res.0@[i]),
    {
        proof {
            use_type_invariant(self);
        }
        let mut bands = self.bands.clone();
        assert(bands@ == self.bands@);
        let count = CLAY_BAND_COUNT as i32;
        let ghost colours = self.colours@;
        let stage = match self.stage {
            ClayStage::Orange { at } => {
                let landed = at + value + 1;
                if landed < count {
                    bands.set(landed as usize, self.colours[ORANGE]);
                }
                let next = landed + 1;
                if next < count {
                    ClayStage::Orange { at: next }
                } else {
                    ClayStage::BandCount { layer: 0 }
                }
            },
            ClayStage::BandCount { layer } => ClayStage::BandWidth { layer, left: value + 6 },
            ClayStage::BandWidth { layer, left } => {
                let base: i32 = if layer == 1 {
                    2
                } else {
                    1
                };
                ClayStage::BandStart { layer, left, width: base + value }
            },
            ClayStage::BandStart { layer, left, width } => {
                let colour = self.colours[2 + layer as usize];
                let mut p: i32 = 0;
                let ghost start_bands = bands@;
                while p < width
                    invariant
                        0 <= p <= width <= 4,
                        0 <= value < count,
                        count == CLAY_BAND_COUNT,
                        start_bands.len() == band_count(),
                        bands@.len() == band_count(),
                        forall|i: int|
                            0 <= i < band_count() ==> bands@[i] == (if value <= i < value + p {
                                colour
                            } else {
                                start_bands[i]
                            }),
                    ensures
                        0 <= p <= width,
                        bands@.len() == band_count(),
                        p == width || value + p >= band_count(),
                        forall|i: int|
                            0 <= i < band_count() ==> bands@[i] == (if value <= i < value + p {
                                colour
                            } else {
                                start_bands[i]
                            }),
                    decreases width - p,
                {
                    let at = value + p;
                    if at >= count {
                        break;
                    }
                    bands.set(at as usize, colour);
                    p += 1;
                }
                proof {
                    assert(bands@ =~= paint(start_bands, colour, value as int, width as int));
                }
                if left > 1 {
                    ClayStage::BandWidth { layer, left: left - 1 }
                } else if layer < 2 {
                    ClayStage::BandCount { layer: layer + 1 }
                } else {
                    ClayStage::WhiteCount
                }
            },
            ClayStage::WhiteCount => self.white_enter(&mut bands, value + 9, 0, 0),
            ClayStage::WhiteBelow { total, drawn, start } => {
                if value == 1 {
                    bands.set((start - 1) as usize, self.colours[LIGHT_GRAY]);
                }
                if start + 1 < count {
                    ClayStage::WhiteAbove { total, drawn, start }
                } else {
                    ClayStage::WhiteStep { total, drawn, start }
                }
            },
            ClayStage::WhiteAbove { total, drawn, start } => {
                if value == 1 {
                    bands.set((start + 1) as usize, self.colours[LIGHT_GRAY]);
                }
                ClayStage::WhiteStep { total, drawn, start }
            },
            ClayStage::WhiteStep { total, drawn, start } => self.white_enter(
                &mut bands,
                total,
                drawn + 1,
                start + value + 4,
            ),
            ClayStage::Done => ClayStage::Done,
        };
        proof {
            assert forall|i: int| 0 <= i < band_count() implies colours.contains(#[trigger] bands@[i]) by {
                if bands@[i] != self.bands@[i] {
                    assert(colours[ORANGE as int] == colours[1] && colours.contains(colours[1]));
                    assert(colours.contains(colours[2]));
                    assert(colours.contains(colours[3]));
                    assert(colours.contains(colours[4]));
                    assert(colours.contains(colours[5]));
                    assert(colours.contains(colours[6]));
                }
            }
        }
        (bands, stage)
    }

    fn white_enter(&self, bands: &mut Vec<VoxelId>, total: i32, drawn: i32, start: i32) -> (stage:
        ClayStage)
        requires
            old(bands)@.len() == band_count(),
            9 <= total <= 15,
            0 <= drawn <= total,
            0 <= start <= band_count() + 19,
        ensures
            (final(bands)@, stage) == white_enter(old(bands)@, self.colours_view(), total, drawn, start),
            stage_wf(stage),
    {
        proof {
            use_type_invariant(self);
        }
        let count = CLAY_BAND_COUNT as i32;
        if drawn < total && start < count {
            bands.set(start as usize, self.colours[WHITE]);
            if start - 1 > 0 {
                ClayStage::WhiteBelow { total, drawn, start }
            } else if start + 1 < count {
                ClayStage::WhiteAbove { total, drawn, start }
            } else {
                ClayStage::WhiteStep { total, drawn, start }
            }
        } else {
            ClayStage::Done
        }
    }

    /// Whether the table is finished.
    pub fn is_done(&self) -> (done: bool)
        ensures
            done == (self.stage_view() == ClayStage::Done),
    {
        match self.stage {
            ClayStage::Done => true,
            _ => false,
        }
    }

    /// The finished table: `CLAY_BAND_COUNT` entries, each a colour of the
    /// palette.
    pub fn bands(&self) -> (bands: &[VoxelId])
        ensures
            bands@ == self.bands_view(),
            bands@.len() == band_count(),
            forall|i: int| 0 <= i < band_count() ==> self.colours_view().contains(#[trigger] bands@[i]),
    {
        proof {
            use_type_invariant(self);
        }
        self.bands.as_slice()
    }
}

} // verus!
