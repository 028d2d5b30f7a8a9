pub mod mstructs;
pub mod polynomials;
