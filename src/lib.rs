pub mod fixed;
pub mod vector;
pub mod body;
pub mod world;
pub mod clock;
