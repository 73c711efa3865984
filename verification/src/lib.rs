//! The user space half of an eBPF fast path for HTTP servers.
//!
//! The fast path answers requests for static assets in the kernel. What is left
//! to user space is to render those answers ([`fast_path`]) and lay them out for
//! the kernel ([`plan`]), to keep the pool of sockets it runs on ([`dummies`],
//! [`parser_map`]), and to undo the traces it leaves on the connections the server
//! sees ([`listener`], [`server`]).
//!
//! What a connection is made of is defined in [`framing`] and [`frame`]. What
//! holds of a connection as a whole stands in [`laws`], what holds of the rendered
//! answers in [`render_laws`], and what holds of how they are laid out in
//! [`plan_laws`].

pub mod dummies;
pub mod fast_path;
pub mod frame;
pub mod framing;
pub mod laws;
pub mod listener;
pub mod net;
pub mod parser_map;
pub mod path;
pub mod plan;
pub mod plan_laws;
pub mod render_laws;
pub mod routes;
pub mod server;
pub mod wire;
