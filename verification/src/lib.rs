//! Structural core of an octilinear transit-map optimizer: stop catalogs,
//! route resolution, segment and corridor structure, transfer-order
//! enumeration, label ordering and text escaping.
pub mod text;
pub mod catalog;
pub mod routes;
pub mod segments;
pub mod grouping;
pub mod groups;
pub mod layout;
pub mod transfer;
pub mod drawing;
pub mod skeleton;
