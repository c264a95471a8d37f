use vstd::prelude::*;

verus! {

/// How the distance from a fixed point is measured.
#[derive(Clone, Copy, Debug, PartialEq, Eq, Structural)]
pub enum DistanceMetric {
    Euclidean,
    EuclideanSquared,
    Manhattan,
    Chebyshev,
}

/// The distance from the point `(x, y, z)`, in a metric.
#[derive(Clone, Copy, Debug, PartialEq, Eq, Structural)]
pub struct DistanceParams {
    pub x: i32,
    pub y: i32,
    pub z: i32,
    pub metric: DistanceMetric,
}

impl DistanceParams {
    pub fn new(x: i32, y: i32, z: i32, metric: DistanceMetric) -> (params: DistanceParams)
        ensures
            params == (DistanceParams { x, y, z, metric }),
    {
        DistanceParams { x, y, z, metric }
    }

    /// The offset of the point from a block, per axis, in Java's wrapping
    /// `int` arithmetic; the metric is applied to it as floats.
    pub fn offset_from(&self, block_x: i32, block_y: i32, block_z: i32) -> (offset: (i32, i32, i32))
        ensures
            offset == (
                vstd::wrapping::i32_specs::wrapping_sub(self.x, block_x),
                vstd::wrapping::i32_specs::wrapping_sub(self.y, block_y),
                vstd::wrapping::i32_specs::wrapping_sub(self.z, block_z),
            ),
    {
        (self.x.wrapping_sub(block_x), self.y.wrapping_sub(block_y), self.z.wrapping_sub(block_z))
    }
}

} // verus!
