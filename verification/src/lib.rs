pub mod audio;
pub mod bridge;
