pub mod mail;
pub mod task;
pub mod manager;
pub mod processor;
