pub mod message;
pub mod pbft;
