pub mod bench;
pub mod cli;
pub mod controls;
pub mod mesh;
pub mod ply;
pub mod quality;
pub mod renderer;
pub mod splats;
