use vstd::prelude::*;

verus! {

/// The listening side of the server: where it binds.
pub struct Server {
    socket_addr: String,
}

impl View for Server {
    type V = Seq<char>;

    closed spec fn view(&self) -> Seq<char> {
        self.socket_addr@
    }
}

impl Server {
    /// A server that will bind to `socket_addr`, a `host:port` string.
    pub fn new(socket_addr: &str) -> (r: Server)
        ensures
            r@ == socket_addr@,
    {
        Server { socket_addr: socket_addr.to_owned() }
    }

    /// The address given to `new`.
    pub fn socket_addr(&self) -> (r: &str)
        ensures
            r@ == self@,
    {
        self.socket_addr.as_str()
    }
}

} // verus!
