//! A procedural city engine.
//!
//! A world is a seed and a configuration. Its districts ([`region`]) are drawn
//! once; every cell of it ([`chunk`]) follows from the districts, the street
//! network ([`street`]), the lots ([`lot`]) and their buildings ([`building`]);
//! and behind every built lot there is an interior ([`interior`]). Chunks are
//! generated on demand and kept in bounded memory ([`engine`]).
//!
//! Numbers with a fraction are bit patterns ([`single`], [`double`]) with
//! verified arithmetic ([`float`]). Sines, cosines and powers are measured by
//! the caller and handed in ([`chunk::CellField`]).
pub mod building;
pub mod cache;
pub mod chunk;
pub mod cli;
pub mod config;
pub mod data;
pub mod double;
pub mod engine;
pub mod ffi;
pub mod float;
pub mod hash;
pub mod interior;
pub mod layout;
pub mod lot;
pub mod recency;
pub mod region;
pub mod single;
pub mod street;
pub mod zones;
