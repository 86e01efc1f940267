pub mod naive;

pub use naive::Naive;
