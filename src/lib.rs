pub mod error;
pub mod finite_field;
pub mod impls;
pub mod integer;
pub mod modular;
pub mod nonzero;
pub mod operation;
pub mod poly_ring;
pub mod polynomial;
pub mod product;
pub mod quotient;
pub mod set;
pub mod structure;
pub mod unit;
