//! Quipu mathematics: decimal numbers recorded as knots on cords,
//! trees of pendant cords, cord-wise arithmetic, corruption detection
//! and the weaving of two 32-bit values into one 64-bit value.
//!
//! - `knot`: knot types and the digit a knot stands for
//! - `encoding`: numbers to knots and back, and the knot checksum
//! - `cord`: pendant cords and cord trees
//! - `arithmetic`: pendant-wise sum and difference of two trees
//! - `corruption`: comparing a tree against a copy of it
//! - `weave`: two 32-bit values in one 64-bit value

pub mod arithmetic;
pub mod cord;
pub mod corruption;
pub mod encoding;
pub mod knot;
pub mod weave;

pub use crate::arithmetic::{quipu_add, quipu_subtract};
pub use crate::cord::{CordTree, PendantCord};
pub use crate::corruption::{CorruptionReport, detect_corruption};
pub use crate::encoding::{checksum, decode_number, encode_number};
pub use crate::knot::{Knot, KnotType};
pub use crate::weave::{unweave, weave};
