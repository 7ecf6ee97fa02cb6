//! Verified core of a PCB laser-processing toolchain.
//!
//! All geometry is integer nanometers. Quantities that are measured as
//! double-precision numbers (laser recipes, for example) are carried by their
//! bit patterns, which order the same way, so every decision taken here is
//! exact. The surrounding program converts millimeters, talks to cameras and
//! machines, and does the trigonometry.
pub mod model;
pub mod num;
pub mod wide;
pub mod counting;
pub mod sorting;
pub mod text;
pub mod bounds;

pub mod geom;
pub mod offset;
pub mod ablation;
pub mod noncopper;
pub mod force_clear;
pub mod split;
pub mod drc;
pub mod arcs;
pub mod cut;
pub mod cutplan;
pub mod schedule;

pub mod order;
pub mod tiles;
pub mod plan;
pub mod features;
pub mod flip;
pub mod frame;
pub mod emit;
pub mod process;

pub mod lbrn2;
pub mod export;
pub mod grids;
pub mod warp;
pub mod layout;
pub mod choices;

pub mod drillguide;
pub mod capture;
pub mod lightburn;
pub mod marker;
pub mod raster;
pub mod spots;
pub mod peaks;
pub mod lattice;
