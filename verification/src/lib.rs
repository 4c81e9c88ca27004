pub mod crdts;
pub mod fs;
pub mod sql;
pub mod tables;
pub mod text;
