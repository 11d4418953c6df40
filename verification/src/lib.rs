pub mod connection;
pub mod index;
pub mod normalize;
pub mod pattern;
pub mod request;
pub mod text;
