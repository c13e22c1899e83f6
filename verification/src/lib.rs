//! Verified prime sweep: a primality tester and the pure parts of a
//! parallel prime-generation sweep (candidate enumeration, result
//! collection and ordering).

pub mod primality;
pub mod sweep;
