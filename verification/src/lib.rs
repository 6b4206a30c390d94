pub mod accountant;
pub mod command;
pub mod date;
pub mod dispatch;
pub mod memory;
pub mod records;
pub mod text;
