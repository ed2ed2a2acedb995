//! Orientation of garments in strip packing on fabric with a nap: all pieces of one physical
//! garment face the same way, while different garments may face either.
pub mod cluster;
pub mod garments;
pub mod grouped;
pub mod layout;
pub mod nearest;
pub mod optimizer;
pub mod order;
pub mod partition;
pub mod scalar;
pub mod text;
pub mod turning;
pub mod util;
