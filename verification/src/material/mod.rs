pub mod bands;
pub mod compile;
pub mod eval;
pub mod proto;
