pub mod bench;
pub mod config;
pub mod logs;
pub mod order;
pub mod patterns;
pub mod ranking;
pub mod reload;
pub mod state;
pub mod text;
pub mod twitch;
pub mod util;
pub mod web;
