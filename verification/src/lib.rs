pub mod definitions;
pub mod demangle;
pub mod diff;
pub mod goblin;
pub mod native;
pub mod nm;
pub mod parsers;
pub mod report;
pub mod sorting;
pub mod text;
