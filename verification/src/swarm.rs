//! The swarm: the single owner of every listener, in-flight dial and live
//! connection of a process. The event loop around it performs the socket
//! work and feeds each outcome back in; the swarm decides what each event
//! means — which carrier serves an address, which connection an event
//! belongs to, and when a connection is negotiated or gone. Every
//! connection and every dial carries an identifier handed out exactly once.

use vstd::prelude::*;
use crate::Error;
use crate::addr::Addr;
use crate::addr::copy_addr;
use crate::addr::with_resolved_port;
use crate::addr::Segment;
use crate::transport::Carrier;
use crate::transport::carrier_for;
use crate::transport::first_carrier;

verus! {

/// One live connection: its identifier, the remote address, and the
/// protocol negotiation selected for it, once it has.
#[derive(Clone, Debug)]
pub struct ConnRec {
    pub id: u64,
    pub remote: Addr,
    pub proto: Option<u64>,
}

/// One in-flight outbound dial: its identifier and the address dialed.
#[derive(Clone, Debug)]
pub struct DialRec {
    pub id: u64,
    pub addr: Addr,
}

/// The connection identifiers of a connection list, in order.
pub open spec fn conn_ids(cs: Seq<ConnRec>) -> Seq<u64> {
    cs.map_values(|c: ConnRec| c.id)
}

/// The dial identifiers of a dial list, in order.
pub open spec fn dial_ids(ds: Seq<DialRec>) -> Seq<u64> {
    ds.map_values(|d: DialRec| d.id)
}

/// The address views of an address list, in order.
pub open spec fn addr_views(xs: Seq<Addr>) -> Seq<Seq<Segment>> {
    xs.map_values(|a: Addr| a@)
}

/// The connection manager of one process.
#[derive(Clone, Debug)]
pub struct Swarm {
    /// The registered carriers, in dial preference order.
    pub carriers: Vec<Carrier>,
    /// The resolved addresses this process listens on.
    pub listeners: Vec<Addr>,
    /// The live connections.
    pub conns: Vec<ConnRec>,
    /// The next connection identifier to hand out.
    pub next_conn_id: u64,
    /// The outbound dials not yet resolved.
    pub dials: Vec<DialRec>,
    /// The next dial identifier to hand out.
    pub next_dial_id: u64,
}

impl Swarm {
    /// Identifiers are handed out once each: every live one is below its
    /// cursor and none repeats.
    pub open spec fn wf(&self) -> bool {
        &&& forall|i: int| 0 <= i < self.conns@.len() ==> #[trigger] self.conns@[i].id
            < self.next_conn_id
        &&& forall|i: int, j: int|
            0 <= i < j < self.conns@.len() ==> self.conns@[i].id != self.conns@[j].id
        &&& forall|i: int| 0 <= i < self.dials@.len() ==> #[trigger] self.dials@[i].id
            < self.next_dial_id
        &&& forall|i: int, j: int|
            0 <= i < j < self.dials@.len() ==> self.dials@[i].id != self.dials@[j].id
    }

    /// A fresh swarm over the given carriers, with nothing listening, no
    /// dial in flight and no connection.
    pub fn new(carriers: Vec<Carrier>) -> (r: Swarm)
        ensures
            r.wf(),
            r.carriers@ == carriers@,
            r.listeners@ == Seq::<Addr>::empty(),
            r.conns@ == Seq::<ConnRec>::empty(),
            r.dials@ == Seq::<DialRec>::empty(),
            r.next_conn_id == 0,
            r.next_dial_id == 0,
    {
        Swarm {
            carriers,
            listeners: Vec::new(),
            conns: Vec::new(),
            dials: Vec::new(),
            next_conn_id: 0,
            next_dial_id: 0,
        }
    }

    /// Starts listening on an address. No registered carrier handling the
    /// address is `Unsupported` and changes nothing. Otherwise the caller
    /// passes the concrete port the carrier bound, a wildcard port segment
    /// is resolved to it, and the resolved address is recorded and
    /// returned.
    pub fn listen_on(&mut self, addr: &Addr, bound_port: u16) -> (r: Result<Addr, Error>)
        requires
            old(self).wf(),
            addr.wf(),
        ensures
            final(self).wf(),
            final(self).carriers == old(self).carriers,
            final(self).conns == old(self).conns,
            final(self).dials == old(self).dials,
            final(self).next_conn_id == old(self).next_conn_id,
            final(self).next_dial_id == old(self).next_dial_id,
            match r {
                Ok(resolved) => {
                    &&& first_carrier(old(self).carriers@, addr@) is Some
                    &&& resolved@ == (if addr@[1] == Segment::Tcp(0u16) {
                        addr@.update(1, Segment::Tcp(bound_port))
                    } else {
                        addr@
                    })
                    &&& resolved.wf()
                    &&& addr_views(final(self).listeners@) == addr_views(
                        old(self).listeners@,
                    ).push(resolved@)
                },
                Err(e) => {
                    &&& first_carrier(old(self).carriers@, addr@) is None
                    &&& e == Error::Unsupported
                    &&& final(self).listeners == old(self).listeners
                },
            },
    {
        if carrier_for(&self.carriers, addr).is_none() {
            return Err(Error::Unsupported);
        }
        let resolved = if addr.is_wildcard_port() {
            with_resolved_port(addr, bound_port)
        } else {
            copy_addr(addr)
        };
        let ghost before = self.listeners@;
        let stored = copy_addr(&resolved);
        self.listeners.push(stored);
        proof {
            assert(resolved@ =~= (if addr@[1] == Segment::Tcp(0u16) {
                addr@.update(1, Segment::Tcp(bound_port))
            } else {
                addr@
            }));
            assert(addr_views(self.listeners@) =~= addr_views(before).push(resolved@));
        }
        Ok(resolved)
    }

    /// Starts an outbound dial. No registered carrier handling the address
    /// is `Unsupported` and changes nothing; otherwise the dial gets a
    /// fresh identifier, is recorded as in flight, and the identifier is
    /// returned for the caller to match the outcome against.
    pub fn dial(&mut self, addr: &Addr) -> (r: Result<u64, Error>)
        requires
            old(self).wf(),
            addr.wf(),
            old(self).next_dial_id < u64::MAX,
        ensures
            final(self).wf(),
            final(self).carriers == old(self).carriers,
            final(self).conns == old(self).conns,
            final(self).listeners == old(self).listeners,
            final(self).next_conn_id == old(self).next_conn_id,
            match r {
                Ok(id) => {
                    &&& first_carrier(old(self).carriers@, addr@) is Some
                    &&& !dial_ids(old(self).dials@).contains(id)
                    &&& dial_ids(final(self).dials@).contains(id)
                    &&& final(self).dials@.len() == old(self).dials@.len() + 1
                    &&& forall|k: int|
                        0 <= k < old(self).dials@.len() ==> final(self).dials@[k] == old(
                            self,
                        ).dials@[k]
                    &&& final(self).dials@.last().id == id
                    &&& final(self).dials@.last().addr@ == addr@
                },
                Err(e) => {
                    &&& first_carrier(old(self).carriers@, addr@) is None
                    &&& e == Error::Unsupported
                    &&& final(self).dials == old(self).dials
                    &&& final(self).next_dial_id == old(self).next_dial_id
                },
            },
    {
        if carrier_for(&self.carriers, addr).is_none() {
            return Err(Error::Unsupported);
        }
        let id = self.next_dial_id;
        proof {
            if dial_ids(self.dials@).contains(id) {
                let k = choose|k: int|
                    0 <= k < dial_ids(self.dials@).len() && dial_ids(self.dials@)[k] == id;
                assert(self.dials@[k].id == id);
            }
        }
        self.next_dial_id = self.next_dial_id + 1;
        self.dials.push(DialRec { id, addr: copy_addr(addr) });
        proof {
            assert(dial_ids(self.dials@)[self.dials@.len() - 1] == id);
        }
        Ok(id)
    }

    /// The position of an in-flight dial, by identifier.
    fn dial_index(&self, id: u64) -> (r: Option<usize>)
        ensures
            match r {
                Some(i) => i < self.dials@.len() && self.dials@[i as int].id == id,
                None => !dial_ids(self.dials@).contains(id),
            },
    {
        let mut i: usize = 0;
        while i < self.dials.len()
            invariant
                i <= self.dials.len(),
                forall|k: int| 0 <= k < i ==> self.dials@[k].id != id,
            decreases self.dials.len() - i,
        {
            if self.dials[i].id == id {
                return Some(i);
            }
            i = i + 1;
        }
        proof {
            if dial_ids(self.dials@).contains(id) {
                let k = choose|k: int|
                    0 <= k < dial_ids(self.dials@).len() && dial_ids(self.dials@)[k] == id;
                assert(self.dials@[k].id == id);
            }
        }
        None
    }

    /// The position of a live connection, by identifier.
    fn conn_index(&self, id: u64) -> (r: Option<usize>)
        ensures
            match r {
                Some(i) => i < self.conns@.len() && self.conns@[i as int].id == id,
                None => !conn_ids(self.conns@).contains(id),
            },
    {
        let mut i: usize = 0;
        while i < self.conns.len()
            invariant
                i <= self.conns.len(),
                forall|k: int| 0 <= k < i ==> self.conns@[k].id != id,
            decreases self.conns.len() - i,
        {
            if self.conns[i].id == id {
                return Some(i);
            }
            i = i + 1;
        }
        proof {
            if conn_ids(self.conns@).contains(id) {
                let k = choose|k: int|
                    0 <= k < conn_ids(self.conns@).len() && conn_ids(self.conns@)[k] == id;
                assert(self.conns@[k].id == id);
            }
        }
        None
    }

    /// Registers a connection with a fresh identifier and no protocol yet.
    fn register_conn(&mut self, remote: Addr) -> (id: u64)
        requires
            old(self).wf(),
            old(self).next_conn_id < u64::MAX,
        ensures
            final(self).wf(),
            final(self).carriers == old(self).carriers,
            final(self).listeners == old(self).listeners,
            final(self).dials == old(self).dials,
            final(self).next_dial_id == old(self).next_dial_id,
            !conn_ids(old(self).conns@).contains(id),
            conn_ids(final(self).conns@).contains(id),
            final(self).conns@.len() == old(self).conns@.len() + 1,
            forall|k: int|
                0 <= k < old(self).conns@.len() ==> final(self).conns@[k] == old(self).conns@[k],
            final(self).conns@.last().id == id,
            final(self).conns@.last().remote == remote,
            final(self).conns@.last().proto is None,
    {
        let id = self.next_conn_id;
        proof {
            if conn_ids(self.conns@).contains(id) {
                let k = choose|k: int|
                    0 <= k < conn_ids(self.conns@).len() && conn_ids(self.conns@)[k] == id;
                assert(self.conns@[k].id == id);
            }
        }
        self.next_conn_id = self.next_conn_id + 1;
        self.conns.push(ConnRec { id, remote, proto: None });
        proof {
            assert(conn_ids(self.conns@)[self.conns@.len() - 1] == id);
        }
        id
    }

    /// An accepted inbound connection: it joins the table under a fresh
    /// identifier, to be negotiated next.
    pub fn on_incoming(&mut self, remote: Addr) -> (id: u64)
        requires
            old(self).wf(),
            old(self).next_conn_id < u64::MAX,
        ensures
            final(self).wf(),
            final(self).carriers == old(self).carriers,
            final(self).listeners == old(self).listeners,
            final(self).dials == old(self).dials,
            final(self).next_dial_id == old(self).next_dial_id,
            !conn_ids(old(self).conns@).contains(id),
            conn_ids(final(self).conns@).contains(id),
            final(self).conns@.len() == old(self).conns@.len() + 1,
            forall|k: int|
                0 <= k < old(self).conns@.len() ==> final(self).conns@[k] == old(self).conns@[k],
            final(self).conns@.last().id == id,
            final(self).conns@.last().remote == remote,
            final(self).conns@.last().proto is None,
    {
        self.register_conn(remote)
    }

    /// A dial resolved to an open connection: the dial leaves the in-flight
    /// set and the connection joins the table under a fresh identifier.
    pub fn on_dial_connected(&mut self, dial_id: u64, remote: Addr) -> (id: u64)
        requires
            old(self).wf(),
            old(self).next_conn_id < u64::MAX,
            dial_ids(old(self).dials@).contains(dial_id),
        ensures
            final(self).wf(),
            final(self).carriers == old(self).carriers,
            final(self).listeners == old(self).listeners,
            final(self).next_dial_id == old(self).next_dial_id,
            !dial_ids(final(self).dials@).contains(dial_id),
            forall|x: u64|
                x != dial_id ==> dial_ids(final(self).dials@).contains(x) == dial_ids(
                    old(self).dials@,
                ).contains(x),
            !conn_ids(old(self).conns@).contains(id),
            conn_ids(final(self).conns@).contains(id),
            final(self).conns@.len() == old(self).conns@.len() + 1,
            forall|k: int|
                0 <= k < old(self).conns@.len() ==> final(self).conns@[k] == old(self).conns@[k],
            final(self).conns@.last().id == id,
            final(self).conns@.last().remote == remote,
            final(self).conns@.last().proto is None,
    {
        self.remove_dial(dial_id);
        self.register_conn(remote)
    }

    /// A dial resolved to an error: the dial just leaves the in-flight
    /// set. The error is the caller's to report; no other dial or
    /// connection is touched.
    pub fn on_dial_failed(&mut self, dial_id: u64)
        requires
            old(self).wf(),
            dial_ids(old(self).dials@).contains(dial_id),
        ensures
            final(self).wf(),
            final(self).carriers == old(self).carriers,
            final(self).listeners == old(self).listeners,
            final(self).conns == old(self).conns,
            final(self).next_conn_id == old(self).next_conn_id,
            final(self).next_dial_id == old(self).next_dial_id,
            !dial_ids(final(self).dials@).contains(dial_id),
            forall|x: u64|
                x != dial_id ==> dial_ids(final(self).dials@).contains(x) == dial_ids(
                    old(self).dials@,
                ).contains(x),
    {
        self.remove_dial(dial_id);
    }

    /// Takes one dial out of the in-flight set.
    fn remove_dial(&mut self, dial_id: u64)
        requires
            old(self).wf(),
            dial_ids(old(self).dials@).contains(dial_id),
        ensures
            final(self).wf(),
            final(self).carriers == old(self).carriers,
            final(self).listeners == old(self).listeners,
            final(self).conns == old(self).conns,
            final(self).next_conn_id == old(self).next_conn_id,
            final(self).next_dial_id == old(self).next_dial_id,
            !dial_ids(final(self).dials@).contains(dial_id),
            forall|x: u64|
                x != dial_id ==> dial_ids(final(self).dials@).contains(x) == dial_ids(
                    old(self).dials@,
                ).contains(x),
    {
        match self.dial_index(dial_id) {
            None => {
                proof {
                    assert(false);
                }
            },
            Some(i) => {
                let ghost before = self.dials@;
                self.dials.remove(i);
                proof {
                    assert(self.dials@ == before.remove(i as int));
                    assert forall|k: int|
                        0 <= k < self.dials@.len() implies #[trigger] self.dials@[k] == (if k
                        < i as int {
                        before[k]
                    } else {
                        before[k + 1]
                    }) by {}
                    assert(!dial_ids(self.dials@).contains(dial_id)) by {
                        if dial_ids(self.dials@).contains(dial_id) {
                            let k = choose|k: int|
                                0 <= k < dial_ids(self.dials@).len() && dial_ids(self.dials@)[k]
                                    == dial_id;
                            assert(self.dials@[k].id == dial_id);
                            assert(before[i as int].id == dial_id);
                        }
                    }
                    assert forall|x: u64| x != dial_id implies dial_ids(self.dials@).contains(x)
                        == dial_ids(before).contains(x) by {
                        if dial_ids(self.dials@).contains(x) {
                            let k = choose|k: int|
                                0 <= k < dial_ids(self.dials@).len() && dial_ids(self.dials@)[k]
                                    == x;
                            let b = if k < i as int {
                                k
                            } else {
                                k + 1
                            };
                            assert(dial_ids(before)[b] == x);
                        }
                        if dial_ids(before).contains(x) {
                            let k = choose|k: int|
                                0 <= k < dial_ids(before).len() && dial_ids(before)[k] == x;
                            if k < i as int {
                                assert(dial_ids(self.dials@)[k] == x);
                            } else {
                                assert(k != i as int);
                                assert(dial_ids(self.dials@)[k - 1] == x);
                            }
                        }
                    }
                }
            },
        }
    }

    /// Negotiation on a connection selected a protocol: the connection's
    /// record says so from now on; every other record stays as it was.
    pub fn on_negotiated(&mut self, conn_id: u64, proto: u64)
        requires
            old(self).wf(),
            conn_ids(old(self).conns@).contains(conn_id),
        ensures
            final(self).wf(),
            final(self).carriers == old(self).carriers,
            final(self).listeners == old(self).listeners,
            final(self).dials == old(self).dials,
            final(self).next_conn_id == old(self).next_conn_id,
            final(self).next_dial_id == old(self).next_dial_id,
            final(self).conns@.len() == old(self).conns@.len(),
            conn_ids(final(self).conns@) == conn_ids(old(self).conns@),
            forall|k: int|
                0 <= k < old(self).conns@.len() && old(self).conns@[k].id != conn_id
                    ==> final(self).conns@[k] == old(self).conns@[k],
            forall|k: int|
                0 <= k < old(self).conns@.len() && old(self).conns@[k].id == conn_id ==> {
                    &&& final(self).conns@[k].id == conn_id
                    &&& final(self).conns@[k].remote == old(self).conns@[k].remote
                    &&& final(self).conns@[k].proto == Some(proto)
                },
    {
        match self.conn_index(conn_id) {
            None => {
                proof {
                    assert(false);
                }
            },
            Some(i) => {
                let ghost before = self.conns@;
                let mut entry = self.conns.remove(i);
                entry.proto = Some(proto);
                let ghost changed = entry;
                self.conns.insert(i, entry);
                proof {
                    assert(self.conns@ == before.remove(i as int).insert(i as int, changed));
                    assert forall|k: int|
                        0 <= k < self.conns@.len() implies #[trigger] self.conns@[k] == (if k
                        == i as int {
                        changed
                    } else {
                        before[k]
                    }) by {}
                    assert(conn_ids(self.conns@) =~= conn_ids(before));
                }
            },
        }
    }

    /// A connection failed or was closed: only it leaves the table; the
    /// error is local to it and every other connection keeps running.
    pub fn on_conn_closed(&mut self, conn_id: u64)
        requires
            old(self).wf(),
            conn_ids(old(self).conns@).contains(conn_id),
        ensures
            final(self).wf(),
            final(self).carriers == old(self).carriers,
            final(self).listeners == old(self).listeners,
            final(self).dials == old(self).dials,
            final(self).next_conn_id == old(self).next_conn_id,
            final(self).next_dial_id == old(self).next_dial_id,
            !conn_ids(final(self).conns@).contains(conn_id),
            forall|x: u64|
                x != conn_id ==> conn_ids(final(self).conns@).contains(x) == conn_ids(
                    old(self).conns@,
                ).contains(x),
            forall|k: int|
                0 <= k < final(self).conns@.len() ==> old(self).conns@.contains(
                    #[trigger] final(self).conns@[k],
                ),
    {
        match self.conn_index(conn_id) {
            None => {
                proof {
                    assert(false);
                }
            },
            Some(i) => {
                let ghost before = self.conns@;
                self.conns.remove(i);
                proof {
                    assert(self.conns@ == before.remove(i as int));
                    assert forall|k: int|
                        0 <= k < self.conns@.len() implies #[trigger] self.conns@[k] == (if k
                        < i as int {
                        before[k]
                    } else {
                        before[k + 1]
                    }) by {}
                    assert(!conn_ids(self.conns@).contains(conn_id)) by {
                        if conn_ids(self.conns@).contains(conn_id) {
                            let k = choose|k: int|
                                0 <= k < conn_ids(self.conns@).len() && conn_ids(self.conns@)[k]
                                    == conn_id;
                            assert(self.conns@[k].id == conn_id);
                            assert(before[i as int].id == conn_id);
                        }
                    }
                    assert forall|x: u64| x != conn_id implies conn_ids(self.conns@).contains(x)
                        == conn_ids(before).contains(x) by {
                        if conn_ids(self.conns@).contains(x) {
                            let k = choose|k: int|
                                0 <= k < conn_ids(self.conns@).len() && conn_ids(self.conns@)[k]
                                    == x;
                            let b = if k < i as int {
                                k
                            } else {
                                k + 1
                            };
                            assert(conn_ids(before)[b] == x);
                        }
                        if conn_ids(before).contains(x) {
                            let k = choose|k: int|
                                0 <= k < conn_ids(before).len() && conn_ids(before)[k] == x;
                            if k < i as int {
                                assert(conn_ids(self.conns@)[k] == x);
                            } else {
                                assert(k != i as int);
                                assert(conn_ids(self.conns@)[k - 1] == x);
                            }
                        }
                    }
                }
            },
        }
    }

    /// How many connections are live.
    pub fn conn_count(&self) -> (r: usize)
        ensures
            r == self.conns@.len(),
    {
        self.conns.len()
    }
}

} // verus!
