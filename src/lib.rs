pub mod canvas;
pub mod csg;
pub mod obj;
pub mod ppm;
pub mod refraction;
pub mod text;
