//! Access predictors for prefetching pages of the search.
pub mod predictors;
