//! A sidechain-to-mainchain bridge engine.
//!
//! The crate keeps a reorg-safe ledger of the value that has moved between a
//! mainchain and a sidechain: deposits, withdrawals and refunds observed in
//! connected mainchain blocks, together with the spent-outpoint bookkeeping,
//! the blind-merged-mining (BMM) attempt/confirm state machine, and the
//! withdrawal-bundle lifecycle.  Every state change is transactional: a batch
//! is either applied in full or leaves the state untouched, and connecting a
//! block is exactly inverted by disconnecting it again.

pub mod errors;
pub mod hexcodec;
pub mod order;
pub mod table;
pub mod state;
pub mod connector;
pub mod bmm;
pub mod bundler;
pub mod codec;
