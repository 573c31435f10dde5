//! Administrative boundaries as closed, correctly wound polygons.
//!
//! A boundary arrives as a collection of line segments in no particular
//! order or direction. The heart of the crate indexes their endpoints
//! ([`multimap`]), splices the segments into one continuous ring ([`ring`])
//! and makes the ring respect the right-hand rule ([`orientation`]);
//! [`guarantees`] states what holds of every ring that comes out. Around it,
//! [`boundary`] resolves the members of an area to segments, [`filter`] says
//! which areas qualify, [`feature`] reads what is handed on with a ring, and
//! [`stats`] counts what a set of areas holds.
//!
//! Every public function carries a contract over the mathematical model of
//! its data.

pub mod error;
pub mod exact;
pub mod position;
pub mod multimap;
pub mod line;
pub mod orientation;
pub mod ring;
pub mod guarantees;
pub mod tags;
pub mod boundary;
pub mod filter;
pub mod feature;
pub mod tally;
pub mod stats;
