//! A minimal HTTP/1.1 stack: a request parser, a response serializer that
//! always computes `Content-Length` from the body, and a router that picks a
//! handler by path.
pub mod bytes;
pub mod request;
pub mod response;
pub mod router;
pub mod server;

pub use request::{HttpRequest, Method};
pub use response::HttpResponse;
pub use router::{Route, Router, StaticFileHandler, StaticPageHandler, WebServiceHandler};
pub use server::Server;
