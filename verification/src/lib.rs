//! A keyframe animation timeline: named tracks of time-ordered control
//! points ("nodes"), interpolated to yield a value at arbitrary query
//! times.  The library keeps every track strictly ordered by time and
//! never empty, evaluates a query time to an exact description of the
//! blend to perform, and round-trips whole timelines through a textual
//! encoding.  Sample values are carried as opaque 64-bit patterns (the
//! host's floating-point bits); the library never does arithmetic on
//! them, so an embedding host performs the final blend itself.

pub mod codec;
pub mod errors;
pub mod handles;
pub mod node;
pub mod text;
pub mod timeline;
pub mod track;

pub use errors::TimelineError;
pub use handles::CAPINodeIterator;
pub use handles::Registry;
pub use handles::TrackRef;
pub use node::InterpType;
pub use node::Node;
pub use timeline::Timeline;
pub use track::Sample;
pub use track::Track;
