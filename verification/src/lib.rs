pub mod constants;
pub mod json;
pub mod layout;
pub mod pathfinding;
pub mod office;
pub mod routes;
pub mod transcript;
pub mod types;
pub mod text;
pub mod renderer;
pub mod watcher;
pub mod scene;
pub mod ui;
