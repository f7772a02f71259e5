pub mod bridge_converter;
pub mod classifier;
pub mod emitter;
pub mod gc;
pub mod model;
pub mod name_trackers;
pub mod names;
pub mod type_converter;
pub mod type_database;
