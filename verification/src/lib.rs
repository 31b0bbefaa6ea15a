//! An embeddable vector memory for conversational agents.
//!
//! Vectors are stored with small payloads and found again by proximity,
//! either in one flat list or through a tree of sessions, documents and
//! chunks that a search descends level by level. Attention states and the
//! tree itself have binary formats of their own.
//!
//! Vectors are kept as sequences of IEEE-754 single-precision words. All
//! arithmetic on those words that rounds goes through the [`Arith`] trait,
//! so that the shape of every computation, the byte formats and the ranking
//! rules are verified here, while the rounding itself is left to the
//! floating-point unit of whoever implements the trait.
//!
//! - [`wire`], [`text`], [`crc`]: integers, strings and check values as bytes
//! - [`id`], [`point`]: identifiers, vectors and payloads
//! - [`arith`], [`kernel`], [`rank`]: arithmetic, the vector kernel and the
//!   ordering rule of ranked answers
//! - [`storage`], [`flat`], [`hat`], [`index`]: the payload store and the
//!   two indexes
//! - [`config`], [`engine`]: the engine that writes store and index together
//! - [`attention`], [`persist`]: the binary containers
//! - [`roundtrip`], [`persist_roundtrip`]: what is written is read back

pub mod wire;
pub mod text;
pub mod crc;
pub mod id;
pub mod point;
pub mod arith;
pub mod kernel;
pub mod rank;
pub mod storage;
pub mod flat;
pub mod hat;
pub mod index;
pub mod config;
pub mod engine;
pub mod attention;
pub mod persist;
pub mod roundtrip;
pub mod persist_roundtrip;

pub use crate::arith::Arith;
pub use crate::attention::{
    AttentionBatch, AttentionError, AttentionState, CompressedKV, Metadata, Role,
};
pub use crate::config::ArmsConfig;
pub use crate::engine::Arms;
pub use crate::flat::{FlatIndex, NearError};
pub use crate::hat::{
    Consolidation, DocumentSummary, HatConfig, HatIndex, HatStats, SaveError, SessionSummary,
};
pub use crate::id::Id;
pub use crate::index::Index;
pub use crate::kernel::{MergeKind, Metric};
pub use crate::persist::{Header, LoadError, Node, Snapshot};
pub use crate::point::{Blob, PlacedPoint, Point};
pub use crate::rank::SearchResult;
pub use crate::storage::{MemoryStorage, PlaceError};
