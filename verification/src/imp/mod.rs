pub mod codes;
pub mod ranges;
pub mod io;
pub mod rawoutput;
pub mod chars;
pub mod cache;
pub mod rawinput;
pub mod mutf8;
