pub mod admission;
