//! The core of a small web framework: splitting request paths, two routers
//! (a list tried in order, and a radix tree read from both ends), the
//! parameters a route takes from a request, the decisions of a non-blocking
//! TCP connect, and the request for the current weather.
pub mod mstruct;
pub mod net_connect;
pub mod params;
pub mod path;
pub mod process;
pub mod redixtree;
pub mod routes;
pub mod structs;
pub mod weather;
