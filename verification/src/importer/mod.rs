pub mod base;
pub mod xraw;
