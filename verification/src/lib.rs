//! ICER: a progressive wavelet image codec, with its framing, entropy stage,
//! bit-plane coder and containers.

pub mod ample;
pub mod analyze;
pub mod arith;
pub mod assemble;
pub mod bin_codes;
pub mod bitplane;
pub mod bitplane3d;
pub mod budget;
pub mod bytes;
pub mod choices;
pub mod choosing;
pub mod compress;
pub mod containment;
pub mod context;
pub mod context3d;
pub mod cube;
pub mod cube_decode;
pub mod cube_means;
pub mod cube_order;
pub mod cube_quota;
pub mod cube_wire;
pub mod cut;
pub mod decoder;
pub mod emit;
pub mod encoder;
pub mod entropy;
pub mod error;
pub mod faithful;
pub mod grouping;
pub mod header;
pub mod image;
pub mod interleave;
pub mod ixec;
pub mod limits;
pub mod measure;
pub mod merge;
pub mod ordering;
pub mod metadata;
pub mod partition;
pub mod parts;
pub mod pieces;
pub mod plane_container;
pub mod plans;
pub mod precision;
pub mod priority;
pub mod quality;
pub mod ranks;
pub mod rd;
pub mod readback;
pub mod readback3d;
pub mod readback_priority;
pub mod registry;
pub mod roundtrip;
pub mod roundtrip3d;
pub mod roundtrip_image;
pub mod roundtrip_parts;
pub mod roundtrip_stream;
pub mod runs;
pub mod scan;
pub mod sharing;
pub mod shuffle;
pub mod similarity;
pub mod sizes;
pub mod skips;
pub mod strip;
pub mod subband3d;
pub mod survivors;
pub mod targets;
pub mod text;
pub mod wavelet3d;
pub mod wavelet_int;
pub mod windows;

use vstd::prelude::*;

verus! {

/// Codec identifier under which the codec is registered.
pub const CODEC_ID_STR: &'static str = "icer";

} // verus!
