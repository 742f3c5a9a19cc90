//! The order model, the abstract book, its laws and the executable book.

pub mod order;
pub mod model;
pub mod laws;
pub mod orderbook;
