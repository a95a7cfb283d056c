pub mod decode;
pub mod download;
pub mod encode;
pub mod error;
pub mod frame;
pub mod hashing;
pub mod peers;
pub mod torrent;
pub mod tracker;
pub mod util;
pub mod value;
