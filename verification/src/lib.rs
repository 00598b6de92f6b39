//! A verified decoder for Truevision TGA images, with the readers and the decisions of programs
//! that try out decoders on arbitrary data.

#![allow(unused_imports)]

pub mod calls;
pub mod color;
pub mod color_map;
pub mod decoder;
pub mod error;
pub mod files;
pub mod fuzzing;
pub mod header;
pub mod laws;
pub mod orientation;
pub mod packets;
pub mod partial_reader;
pub mod rle;
pub mod seek;
pub mod stream;
pub mod strict_cursor;
