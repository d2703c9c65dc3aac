//! TON (Typed Object Notation): a self-describing tagged binary format
//! written so that a decoder can read the stream back-to-front.
//!
//! Every value is emitted payload first and header last, so the reverse
//! reader always meets the header (length bytes, then prefix byte) before
//! the payload it describes. [`ser`] holds the streaming reverse
//! serializer, [`de`] the tail-first decoder with its correctness
//! theorem, [`value`] the in-memory value model, its wire constants and
//! the ordered map backing objects, [`traits`] the byte-stream readers,
//! and [`error`] the categorized, position-carrying errors.

pub mod de;
pub mod error;
pub mod ser;
pub mod traits;
pub mod value;
