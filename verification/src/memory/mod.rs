pub mod filter;
