//! Turning the records of other event listings into events.

pub mod folkbalbende;
pub mod webfeet;
