pub mod brick_type;
pub mod carving;
pub mod powerups;
pub mod specials;
pub mod validator;
