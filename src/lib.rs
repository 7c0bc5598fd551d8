pub mod http;
pub mod pool;
pub mod router;
pub mod server;
pub mod text;
