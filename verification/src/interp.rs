//! The interpreter.
//!
//! A Ruby call pushes a frame and the same loop goes on, so the depth of a
//! program's calls is not the depth of the machine's own stack. A frame's
//! locals are an object of the heap whose first slot links to the scope
//! around it; a block reads an outer local by following those links.
//!
//! Every value the loop holds is an immediate or is rooted in the scope it
//! was handed.

pub mod bind;
pub mod call;
pub mod define;
pub mod equal;
pub mod error;
pub mod machine;
pub mod make;
pub mod native;
pub mod number;
pub mod object;
pub mod order;
pub mod run;
pub mod step;
pub mod trace;

pub use crate::kernel::install_primitives;
pub use equal::{inspect, ruby_eq};
pub use error::Error;
pub use run::{eval, eval_in, Frame};
