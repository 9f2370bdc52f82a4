pub mod body;
pub mod grammar;
pub mod header;
pub mod value;
