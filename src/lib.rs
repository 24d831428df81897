//! The structural core of a celestial body simulation: a hierarchy of bodies
//! held in an arena, the one-time pass that restores each body's link to its
//! owner, resolution of bodies by their index paths, and auxiliary edges
//! between bodies in resolved and serialisable form.

pub mod body;
pub mod constellation;
pub mod resolver;
