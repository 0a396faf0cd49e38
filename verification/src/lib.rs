pub mod laws;
pub mod model;
pub mod storage;
pub mod wheel;

pub use wheel::TimerWheel;
