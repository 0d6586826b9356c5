pub mod lexord;
pub mod strmap;
pub mod error;
pub mod stdspec;
pub mod codec;
pub mod digest;
pub mod clock;
pub mod staging;
pub mod commit;
pub mod repo;
pub mod cmd;
