pub mod euclidean_ring;
pub mod field;
pub mod group;
pub mod monoid;
pub mod ring;
