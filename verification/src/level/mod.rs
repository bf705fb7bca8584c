pub mod composer;
pub mod data;
pub mod generate;
pub mod grid;
pub mod layers;
pub mod layout;
