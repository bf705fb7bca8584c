pub mod flavor;
