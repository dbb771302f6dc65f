//! Behavioral regression replay of an agent against its own decision history:
//! the record model, log framing, drift classification, replay bookkeeping and
//! report summarising, each with its contract.
pub mod text;
pub mod record;
pub mod timestamp;
pub mod diff;
pub mod replay;
pub mod report;
pub mod serve;
