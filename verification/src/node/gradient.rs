use crate::jmath::{floor_div, floor_div_spec, floor_mod, floor_mod_spec};
use vstd::prelude::*;

verus! {

/// What a gradient does past its two ends.
#[derive(Clone, Copy, Debug, PartialEq, Eq, Structural)]
pub enum Tiling {
    ClampToEdge,
    Repeat,
    MirroredRepeat,
}

impl Default for Tiling {
    /// Clamping is the default.
    fn default() -> (tiling: Tiling)
        ensures
            tiling == Tiling::ClampToEdge,
    {
        Tiling::ClampToEdge
    }
}

/// How many blocks past `from` a gradient from `from` to `to` has come at
/// coordinate `c`, once tiled; the value there is `from_value` plus this
/// many steps of the gradient's slope.
pub open spec fn tile_offset_spec(tiling: Tiling, c: int, from: int, to: int) -> int {
    let range = to - from;
    match tiling {
        Tiling::ClampToEdge => {
            let lo = if from <= to {
                from
            } else {
                to
            };
            let hi = if from <= to {
                to
            } else {
                from
            };
            let clamped = if c < lo {
                lo
            } else if c > hi {
                hi
            } else {
                c
            };
            clamped - from
        },
        Tiling::Repeat => floor_mod_spec(c - from, range),
        Tiling::MirroredRepeat => {
            let tile = floor_div_spec(c - from, range);
            let local = floor_mod_spec(c - from, range);
            if tile % 2 == 0 {
                local
            } else {
                range - local
            }
        },
    }
}

/// The tiled offset of coordinate `c` on a gradient from `from` to `to`.
/// A descending gradient clamps to its sorted ends but counts from `from`;
/// clamping comes first, so that tiling takes every coordinate.
pub fn tile_offset(tiling: Tiling, c: i32, from: i32, to: i32) -> (offset: i32)
    requires
        from != to,
        i32::MIN <= to - from <= i32::MAX,
        tiling != Tiling::ClampToEdge ==> i32::MIN <= c - from <= i32::MAX,
    ensures
        offset == tile_offset_spec(tiling, c as int, from as int, to as int),
{
    let range = to - from;
    match tiling {
        Tiling::ClampToEdge => {
            let lo = if from <= to {
                from
            } else {
                to
            };
            let hi = if from <= to {
                to
            } else {
                from
            };
            let clamped = if c < lo {
                lo
            } else if c > hi {
                hi
            } else {
                c
            };
            clamped - from
        },
        Tiling::Repeat => floor_mod(c - from, range),
        Tiling::MirroredRepeat => {
            let relative = c - from;
            if range == -1 && relative == i32::MIN {
                // every tile of a one-block mirrored gradient is its first block
                proof {
                    assert(floor_mod_spec(relative as int, -1) == 0);
                    assert(floor_div_spec(relative as int, -1) == -(relative as int));
                    assert((-(relative as int)) % 2 == 0);
                }
                return 0;
            }
            let tile = floor_div(relative, range);
            let local = floor_mod(relative, range);
            if floor_mod(tile, 2) == 0 {
                local
            } else {
                range - local
            }
        },
    }
}

} // verus!
