//! Connection multiplexing: one physical connection hosts many logical
//! streams, each opened and closed independently. Closing the connection
//! fails every outstanding stream operation with
//! [`Error::ConnectionClosed`](crate::Error); closing one stream leaves all
//! others untouched. A "dummy" muxer wraps a non-muxed connection as exactly
//! one stream, so upstream code treats both carriers uniformly.

use vstd::prelude::*;
use crate::Error;

verus! {

/// The stream bookkeeping of one muxed connection: which logical stream
/// identifiers are currently open, and whether the connection itself is
/// still alive.
#[derive(Clone, Debug)]
pub struct MuxedConn {
    pub next_stream: u64,
    pub open: Vec<u64>,
    pub closed: bool,
}

impl MuxedConn {
    /// Stream identifiers are handed out once each: every open identifier
    /// is below the allocation cursor and none repeats.
    pub open spec fn wf(&self) -> bool {
        &&& forall|i: int| 0 <= i < self.open@.len() ==> #[trigger] self.open@[i]
            < self.next_stream
        &&& forall|i: int, j: int|
            0 <= i < j < self.open@.len() ==> self.open@[i] != self.open@[j]
    }

    /// A fresh, open connection with no streams yet.
    pub fn new() -> (r: MuxedConn)
        ensures
            r.wf(),
            !r.closed,
            r.next_stream == 0,
            r.open@ == Seq::<u64>::empty(),
    {
        MuxedConn { next_stream: 0, open: Vec::new(), closed: false }
    }

    /// Wraps a connection that cannot mux as a muxed connection carrying
    /// exactly one stream: the whole connection.
    pub fn dummy() -> (r: (MuxedConn, u64))
        ensures
            r.0.wf(),
            !r.0.closed,
            r.0.next_stream == 1,
            r.0.open@ == seq![r.1],
    {
        let conn = MuxedConn { next_stream: 1, open: vec![0u64], closed: false };
        proof {
            assert(conn.open@ =~= seq![0u64]);
        }
        (conn, 0)
    }

    /// Opens a fresh logical stream; the accept side registers a
    /// remotely-opened stream through the same allocation. On a closed
    /// connection every stream operation fails with `ConnectionClosed` and
    /// nothing changes.
    pub fn open_stream(&mut self) -> (r: Result<u64, Error>)
        requires
            old(self).wf(),
            old(self).next_stream < u64::MAX,
        ensures
            final(self).wf(),
            final(self).closed == old(self).closed,
            match r {
                Ok(sid) => {
                    &&& !old(self).closed
                    &&& !old(self).open@.contains(sid)
                    &&& final(self).open@ == old(self).open@.push(sid)
                    &&& final(self).next_stream == old(self).next_stream + 1
                },
                Err(e) => {
                    &&& old(self).closed
                    &&& e == Error::ConnectionClosed
                    &&& final(self).open@ == old(self).open@
                    &&& final(self).next_stream == old(self).next_stream
                },
            },
    {
        if self.closed {
            return Err(Error::ConnectionClosed);
        }
        let sid = self.next_stream;
        proof {
            if self.open@.contains(sid) {
                let i = choose|i: int| 0 <= i < self.open@.len() && self.open@[i] == sid;
                assert(self.open@[i] < self.next_stream);
            }
        }
        self.next_stream = self.next_stream + 1;
        self.open.push(sid);
        Ok(sid)
    }

    /// Whether a stream is currently open.
    pub fn is_open(&self, sid: u64) -> (r: bool)
        ensures
            r == self.open@.contains(sid),
    {
        let mut i: usize = 0;
        while i < self.open.len()
            invariant
                i <= self.open.len(),
                forall|k: int| 0 <= k < i ==> self.open@[k] != sid,
            decreases self.open.len() - i,
        {
            if self.open[i] == sid {
                return true;
            }
            i = i + 1;
        }
        false
    }

    /// Closes one stream. Every other stream stays exactly as it was; a
    /// closed connection or an unknown stream fails with `ConnectionClosed`.
    pub fn close_stream(&mut self, sid: u64) -> (r: Result<(), Error>)
        requires
            old(self).wf(),
        ensures
            final(self).wf(),
            final(self).closed == old(self).closed,
            match r {
                Ok(_) => {
                    &&& !old(self).closed
                    &&& old(self).open@.contains(sid)
                    &&& !final(self).open@.contains(sid)
                    &&& forall|x: u64|
                        x != sid ==> final(self).open@.contains(x) == old(self).open@.contains(x)
                },
                Err(e) => {
                    &&& old(self).closed || !old(self).open@.contains(sid)
                    &&& e == Error::ConnectionClosed
                    &&& final(self).open@ == old(self).open@
                },
            },
    {
        if self.closed {
            return Err(Error::ConnectionClosed);
        }
        let mut i: usize = 0;
        while i < self.open.len()
            invariant
                i <= self.open.len(),
                self == old(self),
                !self.closed,
                self.wf(),
                forall|k: int| 0 <= k < i ==> self.open@[k] != sid,
            decreases self.open.len() - i,
        {
            if self.open[i] == sid {
                let ghost before = self.open@;
                self.open.remove(i);
                proof {
                    assert(self.open@ == before.remove(i as int));
                    assert(before[i as int] == sid);
                    assert forall|k: int|
                        0 <= k < self.open@.len() implies #[trigger] self.open@[k] == (if k
                        < i as int {
                        before[k]
                    } else {
                        before[k + 1]
                    }) by {}
                    assert(!self.open@.contains(sid)) by {
                        if self.open@.contains(sid) {
                            let k = choose|k: int|
                                0 <= k < self.open@.len() && self.open@[k] == sid;
                            if k >= i as int {
                                assert(before[k + 1] == before[i as int]);
                            }
                        }
                    }
                    assert forall|x: u64| x != sid implies self.open@.contains(x)
                        == before.contains(x) by {
                        if self.open@.contains(x) {
                            let k = choose|k: int|
                                0 <= k < self.open@.len() && self.open@[k] == x;
                            if k < i as int {
                                assert(before[k] == x);
                            } else {
                                assert(before[k + 1] == x);
                            }
                        }
                        if before.contains(x) {
                            let k = choose|k: int| 0 <= k < before.len() && before[k] == x;
                            if k < i as int {
                                assert(self.open@[k] == x);
                            } else {
                                assert(k != i as int);
                                assert(self.open@[k - 1] == x);
                            }
                        }
                    }
                }
                return Ok(());
            }
            i = i + 1;
        }
        proof {
            assert(!self.open@.contains(sid)) by {
                if self.open@.contains(sid) {
                    let k = choose|k: int| 0 <= k < self.open@.len() && self.open@[k] == sid;
                }
            }
        }
        Err(Error::ConnectionClosed)
    }

    /// Closes the whole connection: every stream is gone, and every later
    /// operation fails with `ConnectionClosed`.
    pub fn close(&mut self)
        requires
            old(self).wf(),
        ensures
            final(self).wf(),
            final(self).closed,
            final(self).open@ == Seq::<u64>::empty(),
    {
        self.closed = true;
        self.open = Vec::new();
    }
}

} // verus!
