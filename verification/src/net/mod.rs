//! Sockets.
use crate::addr::SocketAddr;
use crate::dns::ToSocketAddrs;
use crate::error::Error;
use crate::world::World;
use vstd::prelude::*;

pub mod groups;
pub mod stream;
pub mod tcp;
pub mod udp;

verus! {

/// The socket addresses that a host and a port stand for: there is one, where the host is known.
pub fn lookup_host<T: ToSocketAddrs>(world: &World, host: &T) -> (r: Result<Vec<SocketAddr>, Error>)
    requires
        world.wf(),
    ensures
        match host.resolved_socket(world@.dns) {
            Ok(a) => r is Ok && r->Ok_0@ == seq![a],
            Err(e) => r is Err && r->Err_0 == e,
        },
{
    match host.to_socket_addr(world.dns()) {
        Ok(a) => {
            let mut out: Vec<SocketAddr> = Vec::new();
            out.push(a);
            assert(out@ =~= seq![a]);
            Ok(out)
        },
        Err(e) => Err(e),
    }
}

} // verus!
