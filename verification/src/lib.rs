//! Zero-knowledge proofs of R1CS satisfiability over the Ristretto scalar
//! field: a rank-1 constraint system given as exchange-format messages is
//! laid out on multiplication gates and handed to a Bulletproofs backend.

pub mod backend;
pub mod constraint_system;
pub mod driver;
pub mod error;
pub mod field;
pub mod gadget;
pub mod linear;
pub mod messages;
pub mod scalar;
pub mod theorems;

pub use driver::{prove, verify};
pub use gadget::gadget_from_messages;
