//! The logic of a small file download server: what a request is answered with,
//! which bytes of which file go onto the wire, and when they may.
//!
//! Everything here is a function of plain values. Sockets, files and the HTTP
//! machinery belong to the program that drives this library.

pub mod address;
pub mod clock;
pub mod conn;
pub mod encode;
pub mod listing;
pub mod paths;
pub mod range;
pub mod reply;
pub mod sendfile;
pub mod size;
pub mod text;
pub mod web;
