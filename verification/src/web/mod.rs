pub mod api;
pub mod meta;
pub mod ratelimit;
