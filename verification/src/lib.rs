//! A solitaire (Klondike) rule engine with a grid-addressable rendering
//! projection.
//!
//! The engine models the game as an immutable snapshot (`solitaire::Solitaire`)
//! with a pure transition function; the projection derives, from a redacted
//! observer view (`solitaire::CardGamePercept`), per-card layout positions on
//! an abstract grid together with drag grouping, without committing to pixel
//! units. Shuffling and all I/O are left to the caller.

pub mod cards;
pub mod grid;
pub mod laws;
pub mod problem;
pub mod projection;
pub mod render;
pub mod solitaire;
