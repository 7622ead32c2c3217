//! Polynomial commitment building blocks: prime-field arithmetic, univariate
//! and multilinear polynomial algebra, the field arithmetic of HyperKZG, the
//! Orion expander code, and the subset-sum lookup tables used by the Orion
//! commitment scheme.

pub mod field;
pub mod m31;
pub mod gf2;
pub mod fr;
pub mod group;
pub mod univariate;
pub mod multilinear;
pub mod hyper_kzg;
pub mod kzg;
pub mod hyper_bikzg;
pub mod raw;
pub mod orion;
