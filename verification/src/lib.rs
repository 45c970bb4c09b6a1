pub mod text;
pub mod pool;
pub mod taskmaster;
pub mod dgressions;
pub mod master;
pub mod mount;
