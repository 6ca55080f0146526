//! Spatial audio: how sound travels through rooms and worlds of triangles, and
//! what is heard of it over headphones.
//!
//! Numbers are bit patterns ([`single`]); their arithmetic is asked of the host
//! ([`arith`]), so that every result is an exact function of the host's answers.
pub mod ambi;
pub mod ambience;
pub mod arith;
pub mod arrival;
pub mod bands;
pub mod bend;
pub mod boxes;
pub mod bvh;
pub mod chains;
pub mod cli;
pub mod clips;
pub mod decode;
pub mod delay;
pub mod diffraction;
pub mod drops;
pub mod ears;
pub mod engine;
pub mod env;
pub mod exact;
pub mod faces;
pub mod fdn;
pub mod filter;
pub mod found;
pub mod geom;
pub mod gpu;
pub mod heard;
pub mod hrtf;
pub mod import;
pub mod ism;
pub mod json;
pub mod layout;
pub mod level;
pub mod losses;
pub mod material;
pub mod meets;
pub mod mesh;
pub mod output;
pub mod params;
pub mod paths;
pub mod pool;
pub mod priced;
pub mod probe;
pub mod pt;
pub mod pt_mesh;
pub mod rain;
pub mod rank;
pub mod renderer;
pub mod rays;
pub mod rng;
pub mod scene;
pub mod settle;
pub mod showers;
pub mod signal;
pub mod single;
pub mod smooth;
pub mod speakers;
pub mod staged;
pub mod tail;
pub mod through;
pub mod tracer;
pub mod tri;
pub mod unfold;
pub mod walk;
