//! Partitioned garbled circuits.
//!
//! A Boolean circuit is garbled into encrypted truth tables, cut into
//! partitions that can be evaluated on their own, and each partition is
//! evaluated through a 1-of-2 oblivious transfer of its input keys. The
//! outcomes of all partitions are combined into one verdict.

pub mod aggregate;
pub mod bytes;
pub mod circuit;
pub mod correctness;
pub mod errors;
pub mod garble;
pub mod honest_run;
pub mod keys;
pub mod partition;
pub mod plain;
pub mod prf;
pub mod psg;
pub mod runner;
pub mod scheme;
pub mod xor_masked_ot;

pub use circuit::{Circuit, Gate, GateType};
pub use errors::GcError;
pub use garble::{GarbledCircuit, GarbledGate};
pub use keys::WireKeys;
pub use psg::{polylithic_syntax_gen, BooleanCircuit, LogicExpression, Operator, Variable};
pub use runner::{PartitionInputs, VerificationResult};
pub use scheme::PartitionedGCScheme;
pub use xor_masked_ot::{dummy_ot_receive, dummy_ot_send, xor_mask};
