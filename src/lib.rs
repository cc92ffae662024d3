//! A simulated securities exchange: a ledger of cash accounts and open
//! orders, and a matching engine that pairs orders into trades.

pub mod assoc;
pub mod broker;
pub mod exchange;
pub mod order;
