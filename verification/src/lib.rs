//! File API state machines and algorithms for the Boa engine.

pub mod blob;
pub mod blob_url;
pub mod brand;
pub mod bridge;
pub mod budget;
pub mod clock;
pub mod clone_bridge;
pub mod dom;
pub mod environment;
pub mod error;
pub mod events;
pub mod execute;
pub mod extension;
pub mod file;
pub mod file_list;
pub mod filereader;
pub mod filereader_sync;
pub mod handle;
pub mod ids;
pub mod install;
pub mod io;
pub mod lifecycle;
pub mod limits;
pub mod mime;
pub mod number;
pub mod observability;
pub mod operations;
pub mod package;
pub mod poll;
pub mod poll_course;
pub mod promise_read;
pub mod read;
pub mod reader_course;
pub mod resource;
pub mod stream_course;
pub mod streams;
pub mod text;
pub mod url_shim;
pub mod utf8;
pub mod webidl;

pub use clock::{Clock, SystemClock};
pub use error::RegisterError;
pub use extension::{FileApiExtension, FileApiExtensionBuilder, HostFileOptions};
pub use handle::FileApiHandle;
