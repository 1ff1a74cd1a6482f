pub mod distances;
pub mod parents;
pub mod route;
pub mod tour;
