pub mod boss;
