//! A three-phase order auction: orders are batched and bid upon, the best bid of each
//! order becomes a commitment, and a commitment is settled once its deadline has passed.

pub mod auction;
pub mod broadcast;
pub mod chain_log;
pub mod clock;
pub mod escrow;
pub mod guarantees;
pub mod intake;
pub mod laws;
pub mod order_state;
pub mod ports;
pub mod rate;
pub mod selection;
pub mod settlement;
pub mod solver;
pub mod types;
pub mod wire;

pub use chain_log::ChainLog;
pub use escrow::InMemoryEscrow;
pub use order_state::OrderStateManager;
