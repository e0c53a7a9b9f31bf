//! Incremental rendering of a grid of fixed-size cells.
//!
//! The crate holds the logic of a small cellular-automaton animation: a
//! color model with its text encoding, a per-cell draw-call queue that is
//! reconciled against the last committed frame, the state machine of a
//! cooperative frame scheduler, a latest-value-wins parameter mailbox and
//! the ant walk that drives the picture. Everything that touches a display
//! is left to the caller: the library hands out plain paint instructions
//! and takes plain values back.

pub mod animation;
pub mod ant;
pub mod canvas;
pub mod color;
pub mod frame;
pub mod param;

pub use animation::{Animation, Frame, Next, Phase};
pub use ant::{Ant, Colony, Direction};
pub use canvas::{Canvas, DEFAULT_CELL_SIZE};
pub use color::{Color, NamedColor};
pub use frame::{DrawCall, Paint};
pub use param::{Param, Scale};
