//! Event-timeline reconciliation and frame compositing for annotated
//! transcripts.
//!
//! An annotated transcript carries inline markers (brace-delimited JSON
//! directives) between spoken words.  The library extracts those markers
//! while producing a cleaned, spoken-word-only transcript; reconciles each
//! marker with word-level alignment timings into a timestamp-sorted
//! timeline of overlay events; tracks the set of overlays active at each
//! frame; and alpha-composites the active overlays onto an RGBA pixel
//! buffer.  All times are integer milliseconds.
//!
//! Reading the audio, calling the alignment service, writing frame files
//! and invoking the muxer are left to the embedding application.
mod text;
pub mod compositor;
pub mod config;
pub mod frame;
pub mod gentle;
pub mod marker;
pub mod timeline;


pub use compositor::{PngImage, RenderError};
pub use config::Spec;
pub use frame::{ApplyError, AssetCache, Frame};
pub use gentle::GentleWord;
pub use marker::{IntermediateEvent, ParseError, Transcript};
pub use timeline::{Event, EventType, Timeline};
