//! The executor-side half of a session capture store, and the control transport beside it.
//!
//! A workspace is captured as two classes of content-addressed objects in a bucket-shaped
//! [`sink::BlobSink`]: git objects as self-contained git packs ([`gitpack`]), everything else as
//! content-defined chunks in packs ([`chunk`], [`pack`]) described by dir objects ([`tree`]). A
//! [`manifest::Manifest`] ties one capture together; [`ship`] stages and uploads it and registers
//! it through a [`registrar::Registrar`]; [`materialize`] rebuilds a workspace from a manifest.
//! [`engine::CaptureEngine`] is the front door, and [`cadence`] decides when it runs.
//!
//! [`frame`], [`server`] and [`wss`] are the control transport: framing, the decisions of a
//! connection and of a listener, and the configuration of the network frontend.

pub mod address;
pub mod builder;
pub mod cadence;
pub mod calendar;
pub mod chunk;
pub mod count;
pub mod engine;
pub mod frame;
pub mod gitpack;
pub mod index;
pub mod json;
pub mod keys;
pub mod manifest;
pub mod materialize;
pub mod order;
pub mod pacing;
pub mod pack;
pub mod paths;
pub mod registrar;
pub mod roots;
pub mod runs;
pub mod server;
pub mod ship;
pub mod sink;
pub mod text;
pub mod transport;
pub mod tree;
pub mod watch;
pub mod wss;

pub use engine::{
    Cadence, CaptureConfig, CaptureEngine, Class, EngineError, SnapRequest, SnapStats,
    StagedCapture,
};
pub use frame::FrameError;
pub use manifest::{CaptureKind, EncodedManifest, FsckStatus, Manifest};
pub use materialize::{MaterializeClass, MaterializeReport, MaterializeTargets, Materializer};
pub use registrar::{InMemoryRegistrar, Registrar, RegistrarError};
pub use server::ConnError;
pub use ship::{ShipSnapshot, Staging};
pub use sink::{BlobSink, LocalDir, UrlMinter};
