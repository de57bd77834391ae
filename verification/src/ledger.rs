pub mod accounts;
pub mod block;
pub mod chain;
pub mod transaction;
