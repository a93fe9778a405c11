//! Readers and encoders for the game data of FINAL FANTASY XIV: SqPack
//! archive indexes and data files, the compressed-file container, the bulk
//! transfer protocol of the data server, Havok binary tag files and
//! spline-compressed animation tracks, texture pixel formats, and the
//! decisions of the data server and of the renderer that need no GPU. Every
//! function here carries a contract proved by Verus, except the few small
//! wrappers around outside calls (marked `external_body`), whose contracts
//! are assumed from the outside crates' sources and documentation.
use vstd::prelude::*;

pub mod util;
pub mod text;
pub mod byte_reader;
pub mod havok;
pub mod havok_reader;
pub mod animation;
pub mod raw_file;
pub mod reference;
pub mod index;
pub mod bulk;
pub mod provider;
pub mod server;
pub mod texture;
pub mod render;
pub mod data;
pub mod spline;
pub mod batch;

verus! {

} // verus!
