//! Search for practical input sequences that bring a two-segment neck
//! mechanism to a goal position.
//!
//! The mechanism advances one frame at a time under a single boolean input.
//! [`build`] lays out every state that a recorded trace allows, layer by
//! layer; [`extract`] walks that graph backwards from the accepted end states
//! and returns the input sequences that reach them, easiest first.
//! [`search`] does both for the goal of standing up.
//!
//! Around that core, [`parse_trace`] reads a trace from text, [`validate`]
//! replays it against the transition, and [`draw`] renders the sequences
//! found as a picture.
pub mod backward;
pub mod extract;
pub mod graph;
pub mod lists;
pub mod meaning;
pub mod neck;
pub mod offsets;
pub mod parse;
pub mod path;
pub mod prune;
pub mod render;
pub mod replay;
pub mod score;
pub mod table;

pub use backward::{retreat, retreat_all};
pub use extract::{
    extract, extract_from, search, select, stands, FINAL_CAP, STANDING, STEP_CAP,
};
pub use graph::{build, expand_layer, lookahead_delta, Graph};
pub use lists::{Edge, Members, Parents};
pub use neck::{step, Frame, MotherBrain};
pub use parse::{parse_field, parse_line, parse_trace, LineFault, ParseError};
pub use path::Path;
pub use prune::prune;
pub use render::{draw, encode, raster, EncodeError};
pub use replay::{initial_state, simulate, validate, Field, Mismatch};
pub use score::score;
pub use table::{Node, StateTable};
