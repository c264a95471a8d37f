use crate::material::proto::DensityNode;
use vstd::prelude::*;

verus! {

/// The vertical extent of the generated world: its lowest block and how many
/// blocks it spans.
#[derive(Clone, Copy, Debug, PartialEq, Eq)]
pub struct NoiseSettings {
    pub min_y: i32,
    pub height: u32,
}

/// The density functions the aquifer reads, each compiled into the shared
/// program.
#[derive(Clone, Copy, Debug, PartialEq, Eq, Hash)]
pub struct Aquifers {
    pub barrier: DensityNode,
    pub exclusion: DensityNode,
    pub fluid_level_floodedness: DensityNode,
    pub fluid_level_spread: DensityNode,
    pub lava: DensityNode,
    pub surface_level: DensityNode,
}

/// A density function kept under a label for inspection.
#[derive(Clone, Debug, PartialEq, Eq, Hash)]
pub struct DebugFunction {
    pub label: String,
    pub function: DensityNode,
}

/// The density functions a dimension's generation reads.
#[derive(Clone, Copy, Debug, PartialEq, Eq, Hash)]
pub struct NoiseRouter {
    pub temperature: DensityNode,
    pub vegetation: DensityNode,
    pub continents: DensityNode,
    pub erosion: DensityNode,
    pub depth: DensityNode,
    pub ridges: DensityNode,
    pub chunk_surface_level: DensityNode,
    pub final_density: DensityNode,
}

/// One of two shapes a value can take, as an untagged codec reads it.
pub enum Either<L, R> {
    Left(L),
    Right(R),
}

impl<L, R> Either<L, R> {
    pub fn left(&self) -> (res: Option<&L>)
        ensures
            match self {
                Either::Left(l) => res == Some(l),
                Either::Right(_) => res is None,
            },
    {
        match self {
            Either::Left(l) => Some(l),
            _ => None,
        }
    }

    pub fn right(&self) -> (res: Option<&R>)
        ensures
            match self {
                Either::Right(r) => res == Some(r),
                Either::Left(_) => res is None,
            },
    {
        match self {
            Either::Right(r) => Some(r),
            _ => None,
        }
    }

    pub fn map<LT, RT, T>(self, left: LT, right: RT) -> (res: T) where
        LT: FnOnce(L) -> T,
        RT: FnOnce(R) -> T,
        requires
            match self {
                Either::Left(l) => left.requires((l,)),
                Either::Right(r) => right.requires((r,)),
            },
        ensures
            match self {
                Either::Left(l) => left.ensures((l,), res),
                Either::Right(r) => right.ensures((r,), res),
            },
    {
        match self {
            Either::Left(l) => left(l),
            Either::Right(r) => right(r),
        }
    }

    pub fn swap(self) -> (res: Either<R, L>)
        ensures
            match self {
                Either::Left(l) => res == Either::<R, L>::Right(l),
                Either::Right(r) => res == Either::<R, L>::Left(r),
            },
    {
        match self {
            Either::Left(l) => Either::Right(l),
            Either::Right(r) => Either::Left(r),
        }
    }

    /// Chains a step that may turn a left value into a right one; a right
    /// value passes through.
    pub fn flat_map<L2, F>(self, f: F) -> (res: Either<L2, R>) where F: FnOnce(L) -> Either<L2, R>
        requires
            match self {
                Either::Left(l) => f.requires((l,)),
                Either::Right(_) => true,
            },
        ensures
            match self {
                Either::Left(l) => f.ensures((l,), res),
                Either::Right(r) => res == Either::<L2, R>::Right(r),
            },
    {
        match self {
            Either::Left(l) => f(l),
            Either::Right(r) => Either::Right(r),
        }
    }
}

} // verus!
