//! Emission of build output: resolving the assets reachable from a set of
//! entries, placing each under the server or the client output tree, writing
//! only what changed, and the decisions of the build driver and the
//! hot-update sampling session around it.

pub mod emit;
pub mod graph;
pub mod hmr;
pub mod path;
pub mod route;
