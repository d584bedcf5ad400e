pub mod enumerate;
pub mod error;
pub mod histogram;
pub mod moves;
pub mod otsu;
pub mod rng;
pub mod search;
pub mod stats;
pub mod thresholds;
