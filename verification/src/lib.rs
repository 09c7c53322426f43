use vstd::prelude::*;

pub mod art_queue;
pub mod artwork;
pub mod audio;
pub mod cache_manager;
pub mod collections;
pub mod config;
pub mod i18n;
pub mod ime;
pub mod library;
pub mod licensing;
pub mod mp3;
pub mod navigation;
pub mod net;
pub mod recent;
pub mod runtime;
pub mod scanner;
pub mod stats;
pub mod store;
pub mod text;
pub mod textures;

verus! {

} // verus!
