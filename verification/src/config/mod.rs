pub mod modes;
