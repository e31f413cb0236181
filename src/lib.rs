pub mod clock;
pub mod geo;
pub mod network;
pub mod system;
pub mod text;
