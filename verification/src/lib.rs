//! Verified building blocks of a COPC (cloud optimized point cloud) reader and writer.

pub mod bounds;
pub mod bytes;
pub mod cancel;
pub mod checks;
pub mod coding;
pub mod column_read;
pub mod columns;
pub mod date;
pub mod decode;
pub mod encode;
pub mod error;
pub mod file;
pub mod float;
pub mod gps_time;
pub mod hierarchy;
pub mod http;
pub mod index;
pub mod info;
pub mod las_header;
pub mod las_out;
pub mod laszip;
pub mod laz_out;
pub mod lazy;
pub mod limits;
pub mod lod;
pub mod metadata;
pub mod output;
pub mod page_read;
pub mod page_tree;
pub mod pages;
pub mod point_format;
pub mod point_layers;
pub mod query;
pub mod range_read;
pub mod ranged;
pub mod reader;
pub mod round_trip;
pub mod seqs;
pub mod sort;
pub mod source;
pub mod spill;
pub mod streaming;
pub mod text;
pub mod validate;
pub mod vlr;
pub mod writer;
