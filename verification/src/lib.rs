//! Arcade physics core on a wrap-around 2-D field: polygon geometry with
//! area-as-mass, rigid-body integration, bullet/asteroid collision detection,
//! and a mass- and momentum-conserving splitting resolver, all over exact
//! milli-unit fixed-point integers.

pub mod body;
pub mod collision;
pub mod geometry;
pub mod num;
pub mod rng;
pub mod shoelace;
pub mod trig;
pub mod world;
