pub mod encoding;
pub mod hash;
