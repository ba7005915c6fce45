pub mod hash;
pub mod bytes_eq;
