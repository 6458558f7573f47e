//! Chancery: the verified core of a Debian-style signed package repository
//! manager. Every function here computes on plain values; reading and writing
//! files, the clock and the network belong to the program around it.

pub mod text;
pub mod field;
pub mod hex;
pub mod version;
pub mod pkg;
pub mod sign;
pub mod repo;
pub mod publish;
pub mod anchor;
pub mod layout;
pub mod serve;
pub mod list;
