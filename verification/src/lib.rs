//! Still-image AV2 encoding core.
//!
//! The crate holds the bitstream syntax, the entropy coder, the frame geometry,
//! the intra predictors, the integer transforms and the encoding rules of a
//! still-picture AV2 encoder. Every function states what it returns in its
//! contract.

pub mod num;
pub mod bits;
pub mod layout;
pub mod headers;
pub mod entropy;
pub mod plane;
pub mod tiling;
pub mod quant;
pub mod mhccp;
pub mod partition;
pub mod lossless;
pub mod palette;
pub mod lossless_rd;
pub mod dcpred;
pub mod encoder;
pub mod frame;
pub mod simple;
pub mod contexts;
pub mod lossless444;
pub mod core444;
pub mod chroma444;
pub mod intrapred;
pub mod metrics;
pub mod leaf;
pub mod itx422;
pub mod fdct;
pub mod schedule;
pub mod distortion;
pub mod syntax;
pub mod csc;
pub mod proj;
pub mod partsearch;
pub mod replay;
pub mod estimates;
pub mod splitcost;
pub mod modesearch;
