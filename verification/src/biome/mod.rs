pub mod composition;
pub mod theme;
