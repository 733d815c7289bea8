//! An edit-script algebra for a line- and byte-addressed text buffer.
//!
//! A [`Text`] holds lines; a [`Length`] is a distance in it, a [`Point`] a
//! place, and a [`Range`] the stretch between two places. A [`Diff`] is an
//! edit script: operations that pass over text, remove it or put text in,
//! from the start of a text on. Scripts are built in a canonical form
//! ([`diff::Builder`]), carried out on a text ([`Text::apply_diff`]),
//! inverted ([`Diff::invert`]) and composed ([`Diff::compose`]).
//!
//! The contracts of these types are stated over mathematical models:
//! [`measure`] for lengths and points, [`lines`] for texts, and [`edit`] for
//! scripts. What holds of the operations taken together is proved in
//! [`laws`]: going on by a distance arrives where the distance was measured
//! to, a text is read again from what is written of it, the inverse of a
//! script undoes it, and a composed script does what its parts do in turn,
//! however a chain of scripts is composed.
//!
//! The other modules hold the proofs that the laws rest on: [`effect`]
//! shows that canonical form keeps what a script does, [`merging`] that two
//! merged scripts do what the two do in turn; [`provenance`], [`trace`],
//! [`chain`] and [`unique`] tell scripts apart by where the symbols of
//! their results come from.

pub mod chain;
pub mod diff;
pub mod edit;
pub mod effect;
pub mod laws;
pub mod length;
mod line;
pub mod lines;
pub mod measure;
pub mod merging;
pub mod point;
pub mod provenance;
pub mod range;
pub mod text;
pub mod trace;
pub mod unique;

pub use diff::Diff;
pub use length::Length;
pub use point::Point;
pub use range::Range;
pub use text::Text;
