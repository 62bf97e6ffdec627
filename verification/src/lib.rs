//! Flashcards kept in tab-separated files, sorted into decks that come due
//! after per-deck intervals.
pub mod card;
pub mod clock;
pub mod data;
pub mod format;
pub mod laws;
pub mod session;
pub mod text;

pub use crate::card::VocaCard;
pub use crate::clock::Moment;
pub use crate::data::VocaData;
pub use crate::format::PrintFormat;
pub use crate::session::{CommonArguments, SessionError, VocaSession};
pub use crate::text::IntErrorKind;
