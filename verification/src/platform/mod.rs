pub mod windows;
