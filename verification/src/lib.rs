//! A small message relay core: a keyed store of mesh messages and a
//! broadcast hub that fans each published message out to independently
//! paced subscribers over bounded, drop-oldest queues.

pub mod hub;
pub mod message;
pub mod store;
