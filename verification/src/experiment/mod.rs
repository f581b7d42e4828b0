pub mod exactness_checker;
pub mod runner;
