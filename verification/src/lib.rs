pub mod engine;
pub mod frame;
pub mod json;
pub mod model;
pub mod packet;
pub mod session;
pub mod timer;
