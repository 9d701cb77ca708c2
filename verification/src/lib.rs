//! Directory browser core: an asynchronous icon cache with single-flight
//! loading, generation-based cancellation, an ordered event protocol for
//! incremental UI updates, and a probabilistic age-based eviction sweep.
#![allow(non_snake_case)]
#![allow(non_camel_case_types)]

pub mod config;
pub mod rgba_img;
pub mod icon;
pub mod coordinator;
pub mod strings;
pub mod dirview;
pub mod paths;
pub mod ui;
