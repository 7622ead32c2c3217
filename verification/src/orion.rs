//! The Orion polynomial commitment scheme's linear-algebra core: the expander
//! code, its error type, the evaluation shape planning, and the subset-sum
//! lookup tables, and the verifier's checks.

pub mod cuda_commit;
pub mod linear_code;
pub mod lut;
pub mod utils;
pub mod verify;
