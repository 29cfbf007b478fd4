pub mod specs;
pub mod pythons;
pub mod finders;
pub mod launcher;
