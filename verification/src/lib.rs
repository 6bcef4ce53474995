//! Vector-index core: a navigable small-world graph, its calibration and its
//! on-disk forms, the clustered-index subsection writer, and the settings that
//! steer them.

pub mod builder;
pub mod bundle;
pub mod calibrate;
pub mod checksum;
pub mod codes;
pub mod column;
pub mod config;
pub mod envelope;
pub mod float_bits;
pub mod graph;
pub mod graph_codec;
pub mod insertion;
pub mod ivf;
pub mod kmeans;
pub mod link;
pub mod measured;
pub mod order;
pub mod plane;
pub mod reach;
pub mod readback;
pub mod rounding;
pub mod scored;
pub mod scorer;
pub mod serve;
pub mod settled;
pub mod span;
pub mod subsection;
pub mod visited;
pub mod walk;
pub mod wire;
