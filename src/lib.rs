//! A concurrent account ledger: a keyed balance store, a race-prone and a
//! serialized withdrawer, and a harness that replays interleavings of
//! concurrent withdrawals, with laws about both withdrawers. Beside it: the
//! users table row, a pair of mutually owning objects, and a wipeable
//! secret buffer.
pub mod store;
pub mod withdraw;
pub mod harness;
pub mod laws;
pub mod users;
pub mod objects;
pub mod sensitive;
