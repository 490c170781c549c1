//! TermKrush: the verified core of a deterministic auto-mixer.
//!
//! Put tracks on a sequence line, tap each track's beat once, and the
//! engine plans a continuous mix: one master tempo, phrase-aligned
//! sections, seeded transitions. Same input, same plan.
//!
//! - [`sequence`]    the ordered track list (the project) and its file.
//! - [`beats`]       the per-track tapped-beat cache and its file.
//! - [`project`]     sequence and cache together, following library changes;
//!   tap editing and the render-readiness report.
//! - [`automix`]     the planner's decisions: seed, sections, transitions.
//! - [`repeats`]     why a repeated track brings different material.
//! - [`library`]     the local track library, one directory at a time.
//! - [`timeline`]    the pad step grid.
//! - [`trim`]        a pad's trim points.
//! - [`config`]      user configuration.
//! - [`navigation`]  keyboard focus, cursors and layout helpers of the screen.
//! - [`keys`]        what each key press decides in the terminal interface.
//! - [`paths`]       path handling on the character level.
//! - [`wav`]         the header of the rendered WAV file.
//! - [`deck`], [`mix`], [`arrangement`], [`scratch`], [`audio`]: transport
//!   states, pad settings and error texts.
pub mod text;
pub mod about;
pub mod arrangement;
pub mod audio;
pub mod automix;
pub mod beats;
pub mod config;
pub mod deck;
pub mod keys;
pub mod library;
pub mod mix;
pub mod navigation;
pub mod paths;
pub mod project;
pub mod repeats;
pub mod scratch;
pub mod sequence;
pub mod timeline;
pub mod trim;
pub mod wav;
