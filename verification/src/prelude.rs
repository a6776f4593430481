//! The names that most users of the library want.

pub use crate::action::{Action, Move, QuarterTurn, Turn};
pub use crate::book::Book;
pub use crate::cube::{Cube, Id, Position};
pub use crate::cubelet::{Axis, Cubelet, Face, Facelet, Rotation};
pub use crate::error::ErrorKind;
pub use crate::word::Word;
