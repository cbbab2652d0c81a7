//! Configuration, routing and subscription logic of the zero-to-production
//! web service.
pub mod config;
pub mod decimal;
pub mod env;
pub mod route_scan;
pub mod routes_index;
pub mod routing;
pub mod subscription;
pub mod text;
