//! 2D time-of-flight mapping and localization for a small walking robot.

pub mod accumulator;
pub mod accuracy;
pub mod arith;
pub mod beams;
pub mod bytes;
pub mod candidates;
pub mod cells;
pub mod centres;
pub mod cloud;
pub mod conversion;
pub mod distance;
pub mod double;
pub mod double_arith;
pub mod fit;
pub mod follower;
pub mod function;
pub mod global_render;
pub mod grid;
pub mod layout;
pub mod line;
pub mod map_format;
pub mod matching;
pub mod mcl;
pub mod motion;
pub mod mount;
pub mod pose;
pub mod pose_graph;
pub mod random;
pub mod ranging;
pub mod relocalize;
pub mod rendering;
pub mod replay;
pub mod rounding;
pub mod sampling;
pub mod scan_matcher;
pub mod session;
pub mod single;
pub mod solving;
pub mod spread;
pub mod statistics;
pub mod stream;
pub mod submap;
pub mod turning;
pub mod weighing;
pub mod wire;
pub mod zone_geometry;
