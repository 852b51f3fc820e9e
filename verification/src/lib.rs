//! A multi-party computation engine that jointly evaluates an arithmetic
//! expression over a prime field, using additive secret sharing with
//! SPDZ-style MAC authentication, Beaver triples for multiplication, and a
//! commit-then-open audit of every opened value.

pub mod expressions;
pub mod field;
pub mod protocol;
pub mod rest;
pub mod shares;
pub mod strutil;

pub use field::Fp;
