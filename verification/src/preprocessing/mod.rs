pub mod db_reader;
pub mod twu_filter;
pub mod chunker;
pub mod synthetic;
