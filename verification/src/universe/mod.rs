pub mod progression;
pub mod galaxy;
