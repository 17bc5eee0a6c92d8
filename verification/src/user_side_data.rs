//! What the engine learns from its user.
pub mod user_data;
pub mod user_log;
