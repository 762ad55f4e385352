pub mod args;
pub mod credentials;
pub mod dispatch;
pub mod options;
pub mod progress;
pub mod render;
pub mod units;
