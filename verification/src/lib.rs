//! Streaming feature selection for value change dump (VCD) register data:
//! the verified core. It reads the VCD text that a simulation streams,
//! keeps running counts of every signal, decides what the stream consumer
//! does with each message, and builds the simulator tools' command lines.
pub mod text;
pub mod register;
pub mod vcd;
pub mod feature;
pub mod ufssod;
pub mod consumer;
pub mod invoke;
pub mod cluster;

pub use register::{Observation, Register};
pub use vcd::{parse_header, parse_message, Header, ParseError, VarDecl};
pub use feature::FeatureState;
pub use ufssod::{SelectEvent, UFSSOD};
pub use consumer::{ConsumerAction, ConsumerEvent, ConsumerState};
pub use invoke::{ivl_invocation, vvp_invocation, Invocation};
pub use cluster::{clamp_cluster_count, isqrt, max_cluster_count};
