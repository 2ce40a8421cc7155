//! The earlier generation of the site: its data model and request types.

pub mod model;
pub mod routes;
