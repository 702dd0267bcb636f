//! Palette resolution with the narrower set of Java package prefixes and a JavaScript palette
//! that also treats the empty name as blank.
pub mod java;
pub mod js;
pub mod perl;
pub mod wakeup;
