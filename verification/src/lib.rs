//! OpenStreetMap extracts baked into a Morton-sorted slab of fixed-stride rows.

pub mod access;
pub mod address;
pub mod areal;
pub mod bake;
pub mod book;
pub mod boundary;
pub mod building;
pub mod bytes;
pub mod capability;
pub mod chains;
pub mod cluster;
pub mod codebook;
pub mod corridor;
pub mod facet;
pub mod fragment;
pub mod heading;
pub mod housenumber;
pub mod identity;
pub mod junction;
pub mod lance_abi;
pub mod mask;
pub mod message;
pub mod network;
pub mod node;
pub mod occupancy;
pub mod order;
pub mod parity;
pub mod project;
pub mod read;
pub mod road;
pub mod row;
pub mod slab;
pub mod street;
pub mod tags;
pub mod tally;
pub mod text;
pub mod tier;
pub mod tms;
pub mod varint;
pub mod vocab;
pub mod wayclass;
