pub mod distance;
pub mod gradient;
