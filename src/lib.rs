pub mod bytes;
pub mod cat_file;
pub mod codec;
pub mod config;
pub mod init;
pub mod laws;
pub mod object;
