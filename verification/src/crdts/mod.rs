pub mod fugue;
pub mod id;
pub mod lww;
pub mod walker;
