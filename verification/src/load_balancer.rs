use vstd::prelude::*;

verus! {

/// A backend that requests can be handed to, with the outcome of its last
/// health check.
#[derive(Debug, Clone)]
pub struct Server {
    pub url: String,
    is_healthy: bool,
}

impl Server {
    /// A server at `url`, taken to be healthy until a check says otherwise.
    pub fn new(url: String) -> (server: Server)
        ensures
            server.address() == url@,
            server.healthy(),
    {
        Server { url, is_healthy: true }
    }

    /// The address of the server.
    pub closed spec fn address(&self) -> Seq<char> {
        self.url@
    }

    /// What the last health check found.
    pub closed spec fn healthy(&self) -> bool {
        self.is_healthy
    }

    /// What the last health check found.
    pub fn is_healthy(&self) -> (healthy: bool)
        ensures
            healthy == self.healthy(),
    {
        self.is_healthy
    }

    /// Records the outcome of a health check.
    pub fn set_health(&mut self, healthy: bool)
        ensures
            final(self).healthy() == healthy,
            final(self).address() == old(self).address(),
    {
        self.is_healthy = healthy;
    }

    /// A copy of the server as it is now.
    pub fn duplicate(&self) -> (server: Server)
        ensures
            server == *self,
    {
        Server { url: self.url.clone(), is_healthy: self.is_healthy }
    }
}

/// The counter after one more turn. It starts again at zero when it has
/// run through what an `i32` can count.
pub open spec fn next_turn(counter: i32) -> i32 {
    if counter == i32::MAX {
        0
    } else {
        (counter + 1) as i32
    }
}

/// Goes round the servers from the one whose turn it is, for at most
/// `tries` turns, and stops at the first healthy one: the server found, if
/// any, and the counter afterwards.
pub open spec fn round_robin(servers: Seq<Server>, counter: i32, tries: nat) -> (
    Option<Server>,
    i32,
)
    recommends
        servers.len() > 0,
    decreases tries,
{
    if tries == 0 {
        (None, counter)
    } else if servers[counter as int % servers.len() as int].healthy() {
        (Some(servers[counter as int % servers.len() as int]), next_turn(counter))
    } else {
        round_robin(servers, next_turn(counter), (tries - 1) as nat)
    }
}

/// Hands out servers in turn.
#[derive(Debug)]
pub struct LoadBalancer {
    current: i32,
}

impl LoadBalancer {
    #[verifier::type_invariant]
    spec fn counts_up_from_zero(self) -> bool {
        self.current >= 0
    }

    /// A balancer whose first turn goes to the first server.
    pub fn new() -> (lb: LoadBalancer)
        ensures
            lb.counter() == 0,
    {
        LoadBalancer { current: 0 }
    }

    /// The number of turns taken so far, counted within what an `i32` holds.
    pub closed spec fn counter(&self) -> i32 {
        self.current
    }

    /// The index of the server whose turn it is among `len` servers. Takes
    /// the turn.
    pub fn take_turn(&mut self, len: usize) -> (idx: usize)
        requires
            len > 0,
        ensures
            idx as int == old(self).counter() as int % len as int,
            idx < len,
            final(self).counter() == next_turn(old(self).counter()),
    {
        proof {
            use_type_invariant(&*self);
        }
        let idx = (self.current as usize) % len;
        self.current = if self.current == i32::MAX {
            0
        } else {
            self.current + 1
        };
        idx
    }

    /// The next healthy server: each server gets its turn, one after the
    /// other, until one is healthy or every turn of this round is taken.
    pub fn get_next_server(&mut self, servers: &Vec<Server>) -> (server: Option<Server>)
        ensures
            servers.len() == 0 ==> server is None && final(self).counter() == old(self).counter(),
            servers.len() > 0 ==> (server, final(self).counter()) == round_robin(
                servers@,
                old(self).counter(),
                servers.len() as nat,
            ),
    {
        let len = servers.len();
        let mut tried: usize = 0;
        while tried < len
            invariant
                0 <= tried <= len,
                len == servers.len(),
                round_robin(servers@, old(self).counter(), len as nat) == round_robin(
                    servers@,
                    self.counter(),
                    (len - tried) as nat,
                ),
            decreases len - tried,
        {
            let idx = self.take_turn(len);
            if servers[idx].is_healthy() {
                return Some(servers[idx].duplicate());
            }
            tried += 1;
        }
        None
    }
}

/// A server that a round hands out is one of the servers, and healthy.
pub proof fn lemma_round_robin_healthy(servers: Seq<Server>, counter: i32, tries: nat)
    requires
        servers.len() > 0,
    ensures
        round_robin(servers, counter, tries).0 matches Some(server) ==> server.healthy()
            && servers.contains(server),
    decreases tries,
{
    if tries > 0 {
        let idx = counter as int % servers.len() as int;
        if servers[idx].healthy() {
            assert(servers.contains(servers[idx]));
        } else {
            lemma_round_robin_healthy(servers, next_turn(counter), (tries - 1) as nat);
        }
    }
}

} // verus!
