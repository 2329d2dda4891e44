//! A local-network file-drop library: a placeholder templating engine,
//! network-endpoint discovery with QR-encoded connection URLs, directory
//! snapshots with human-readable sizes, and the upload naming policy.

pub mod endpoints;
pub mod listing;
pub mod page;
pub mod qr;
pub mod sizefmt;
pub mod template;
pub mod upload;
