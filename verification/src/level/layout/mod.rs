pub mod creative;
pub mod geometric;
pub mod hybrid;
pub mod organic;
pub mod selector;
