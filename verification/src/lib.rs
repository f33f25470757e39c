//! Building blocks for instrument drivers: checking command strings and formatting them with
//! their arguments, parsing instrument answers, what a derived instrument parameter writes and
//! reads, transport of bytes over an interface, and a mock interface for testing drivers.
use vstd::prelude::*;

pub mod cmd;
pub mod command_parser;
pub mod delimited_parser;
pub mod error_aggregator;
pub mod errors;
pub mod mock_interface;
pub mod parameter;
pub mod placeholder;
pub mod pretty;
pub mod silent_interval;
pub mod sort;
pub mod template;
pub mod text;
pub mod transport;

verus! {

} // verus!
