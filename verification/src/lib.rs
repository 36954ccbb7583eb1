pub mod text;
pub mod utils;
pub mod state;
pub mod auth;
pub mod handlers;
pub mod templates;
pub mod power;
