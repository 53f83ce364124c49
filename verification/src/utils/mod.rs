//! Small utilities of the first protocol generation.

pub mod ping;

pub use ping::PingFilter;
