//! Perpetual on-chain microGPT: the complete training and inference
//! algorithm in deterministic Q32.32 fixed-point arithmetic, together with
//! the account layouts, instruction encoding and training state machine of
//! the program that runs it.

pub mod adam;
pub mod backprop;
pub mod causality;
pub mod dispatch;
pub mod fixed;
pub mod generation;
pub mod instruction;
pub mod layout;
pub mod lifecycle;
pub mod math;
pub mod model;
pub mod pda;
pub mod program;
pub mod rng;
pub mod setup;
pub mod split;
pub mod state;
