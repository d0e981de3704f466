pub mod attrs;
pub mod handlers;
pub mod laws;
pub mod table;
