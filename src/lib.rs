//! DES block cipher over a bit-addressable byte-string engine.
pub mod bitutils;
pub mod consts;
pub mod des;
