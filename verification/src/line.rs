//! Lines between stations that are known by their ids.

pub mod route;
