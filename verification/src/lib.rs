//! The Timberborn auto splitter.
pub mod attach;
pub mod buildings;
pub mod capture;
pub mod clock;
pub mod collections;
pub mod conduct;
pub mod drive;
pub mod fixture;
pub mod floats;
pub mod freeze;
pub mod install;
pub mod json;
pub mod live;
pub mod locate;
pub mod memory;
pub mod metadata;
pub mod note;
pub mod order;
pub mod probe;
pub mod promise;
pub mod record;
pub mod requirement;
pub mod run_start;
pub mod scan;
pub mod scenario;
pub mod scene;
pub mod service;
pub mod settings;
pub mod singletons;
pub mod snapshot;
pub mod splitter;
pub mod status;
pub mod table;
pub mod text;
pub mod timer;
pub mod watch;
pub mod wonder;
pub mod world;
