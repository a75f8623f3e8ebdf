//! A ghost model of one message flooding a mesh, tying the per-node relay
//! rule to mesh-wide reachability. A state holds, for each node, whether it
//! has processed the message, and the set of frames still in flight; one
//! step delivers one frame exactly as [`FloodSub::on_receive`] treats it:
//! an already-seen message is dropped, a new one is recorded and relayed to
//! every neighbour except the sender.
//!
//! The flood invariant says that every seen node's neighbourhood is covered
//! — each neighbour has either seen the message or has a frame on the way —
//! and it is preserved by every delivery. Once no frame is left in flight,
//! the seen set is closed under mesh edges, so the message has reached
//! every node connected to its origin: the network delivering all frames is
//! all it takes, whatever order it picks and however many cycles the mesh
//! has.
//!
//! [`FloodSub::on_receive`]: crate::floodsub::FloodSub::on_receive

use vstd::prelude::*;

verus! {

/// The flood of one message across a mesh: which nodes have processed it,
/// and which relay frames are still in flight, each as (sender, receiver).
pub struct MeshFlood {
    pub seen: Seq<bool>,
    pub flight: Seq<(int, int)>,
}

/// A mesh over nodes `0 .. n`: symmetric, irreflexive, in range.
pub open spec fn wf_mesh(adj: spec_fn(int, int) -> bool, n: int) -> bool {
    forall|i: int, j: int|
        #[trigger] adj(i, j) ==> 0 <= i < n && 0 <= j < n && i != j && adj(j, i)
}

/// The relay frames a node `t` sends on first receipt from `f`: one frame
/// to every neighbour from `lo` upward, except the sender.
pub open spec fn relay_frames(
    adj: spec_fn(int, int) -> bool,
    n: int,
    t: int,
    f: int,
    lo: int,
) -> Seq<(int, int)>
    decreases n - lo
        when lo <= n
{
    if lo >= n {
        Seq::empty()
    } else if adj(t, lo) && lo != f {
        seq![(t, lo)] + relay_frames(adj, n, t, f, lo + 1)
    } else {
        relay_frames(adj, n, t, f, lo + 1)
    }
}

/// Membership in the relay set: exactly the neighbours of `t` at or above
/// `lo`, except the sender, each addressed from `t`.
pub proof fn lemma_relay_frames_members(
    adj: spec_fn(int, int) -> bool,
    n: int,
    t: int,
    f: int,
    lo: int,
)
    requires
        lo <= n,
    ensures
        forall|k: int| 0 <= k < relay_frames(adj, n, t, f, lo).len() ==> {
            let fr = #[trigger] relay_frames(adj, n, t, f, lo)[k];
            fr.0 == t && adj(t, fr.1) && fr.1 != f && lo <= fr.1 < n
        },
        forall|j: int|
            lo <= j < n && adj(t, j) && j != f ==> relay_frames(adj, n, t, f, lo).contains(
                (t, j),
            ),
    decreases n - lo,
{
    if lo < n {
        lemma_relay_frames_members(adj, n, t, f, lo + 1);
        let cur = relay_frames(adj, n, t, f, lo);
        let rest = relay_frames(adj, n, t, f, lo + 1);
        assert forall|j: int| lo <= j < n && adj(t, j) && j != f implies cur.contains(
            (t, j),
        ) by {
            if j == lo {
                assert(cur[0] == (t, j));
            } else {
                assert(rest.contains((t, j)));
                let k = choose|k: int| 0 <= k < rest.len() && rest[k] == (t, j);
                if adj(t, lo) && lo != f {
                    assert(cur[k + 1] == (t, j));
                } else {
                    assert(cur[k] == (t, j));
                }
            }
        }
        assert forall|k: int| 0 <= k < cur.len() implies {
            let fr = #[trigger] cur[k];
            fr.0 == t && adj(t, fr.1) && fr.1 != f && lo <= fr.1 < n
        } by {
            if adj(t, lo) && lo != f {
                if k > 0 {
                    assert(cur[k] == rest[k - 1]);
                }
            } else {
                assert(cur[k] == rest[k]);
            }
        }
    }
}

/// A frame addressed to `j` is in flight.
pub open spec fn frame_to(flight: Seq<(int, int)>, j: int) -> bool {
    exists|k: int| 0 <= k < flight.len() && (#[trigger] flight[k]).1 == j
}

/// The flood invariant. Frames travel along edges, away from nodes that
/// have processed the message; and every edge out of a seen node leads to a
/// node that has seen the message or will, by a frame in flight.
pub open spec fn flood_inv(s: MeshFlood, adj: spec_fn(int, int) -> bool, n: int) -> bool {
    &&& s.seen.len() == n
    &&& forall|k: int| 0 <= k < s.flight.len() ==> {
        let fr = #[trigger] s.flight[k];
        adj(fr.0, fr.1) && s.seen[fr.0]
    }
    &&& forall|i: int, j: int|
        0 <= i < n && #[trigger] adj(i, j) && s.seen[i] ==> s.seen[j] || frame_to(s.flight, j)
}

/// Delivering the frame at position `k`, exactly as a node treats an
/// incoming message: a seen message is discarded; a new one is recorded
/// and relayed to every neighbour except its sender.
pub open spec fn deliver_step(
    s: MeshFlood,
    adj: spec_fn(int, int) -> bool,
    n: int,
    k: int,
) -> MeshFlood {
    let fr = s.flight[k];
    let rest = s.flight.remove(k);
    if s.seen[fr.1] {
        MeshFlood { seen: s.seen, flight: rest }
    } else {
        MeshFlood {
            seen: s.seen.update(fr.1, true),
            flight: rest + relay_frames(adj, n, fr.1, fr.0, 0),
        }
    }
}

/// Every delivery preserves the flood invariant, whichever frame the
/// network picks next.
pub proof fn lemma_deliver_preserves_inv(
    s: MeshFlood,
    adj: spec_fn(int, int) -> bool,
    n: int,
    k: int,
)
    requires
        wf_mesh(adj, n),
        flood_inv(s, adj, n),
        0 <= k < s.flight.len(),
    ensures
        flood_inv(deliver_step(s, adj, n, k), adj, n),
{
    let fr = s.flight[k];
    let t = fr.1;
    let rest = s.flight.remove(k);
    let s2 = deliver_step(s, adj, n, k);
    assert(adj(fr.0, fr.1));
    assert(0 <= t < n);
    assert forall|m: int| 0 <= m < rest.len() implies #[trigger] rest[m] == (if m < k {
        s.flight[m]
    } else {
        s.flight[m + 1]
    }) by {}
    lemma_relay_frames_members(adj, n, t, fr.0, 0);
    if s.seen[t] {
        // Dropping a duplicate: the only frame lost was addressed to a
        // node that has already seen the message.
        assert forall|i: int, j: int|
            0 <= i < n && #[trigger] adj(i, j) && s2.seen[i] implies s2.seen[j] || frame_to(
            s2.flight,
            j,
        ) by {
            if !s2.seen[j] {
                assert(frame_to(s.flight, j));
                let m = choose|m: int| 0 <= m < s.flight.len() && (#[trigger] s.flight[m]).1 == j;
                assert(j != t);
                assert(m != k);
                if m < k {
                    assert(rest[m].1 == j);
                } else {
                    assert(rest[m - 1].1 == j);
                }
            }
        }
    } else {
        let added = relay_frames(adj, n, t, fr.0, 0);
        assert forall|m: int| 0 <= m < s2.flight.len() implies {
            let f2 = #[trigger] s2.flight[m];
            adj(f2.0, f2.1) && s2.seen[f2.0]
        } by {
            if m < rest.len() {
                assert(s2.flight[m] == rest[m]);
            } else {
                assert(s2.flight[m] == added[m - rest.len()]);
            }
        }
        assert forall|i: int, j: int|
            0 <= i < n && #[trigger] adj(i, j) && s2.seen[i] implies s2.seen[j] || frame_to(
            s2.flight,
            j,
        ) by {
            if !s2.seen[j] {
                assert(j != t);
                if i == t {
                    // The fresh node's own relay obligation: its sender has
                    // seen the message, every other neighbour gets a frame.
                    if j == fr.0 {
                        assert(s.seen[fr.0]);
                        assert(s2.seen[j]);
                    } else {
                        assert(added.contains((t, j)));
                        let m = choose|m: int| 0 <= m < added.len() && added[m] == (t, j);
                        assert(s2.flight[rest.len() + m].1 == j);
                    }
                } else {
                    // An old obligation: its frame was not the one consumed,
                    // which was addressed to the freshly seen node.
                    assert(s.seen[i]);
                    assert(frame_to(s.flight, j));
                    let m = choose|m: int|
                        0 <= m < s.flight.len() && (#[trigger] s.flight[m]).1 == j;
                    assert(m != k);
                    if m < k {
                        assert(s2.flight[m].1 == j);
                    } else {
                        assert(s2.flight[m - 1].1 == j);
                    }
                }
            }
        }
    }
}

/// Once no frame is left in flight, the seen set is closed under mesh
/// edges: along any path of the mesh starting at a node that processed the
/// message, every node has processed it. A flood reaches everything
/// connected to its origin — the mesh-wide reading of the per-node relay
/// rule, for any delivery order and any topology, cycles included.
pub proof fn lemma_flood_reaches_connected(
    s: MeshFlood,
    adj: spec_fn(int, int) -> bool,
    n: int,
    path: Seq<int>,
)
    requires
        wf_mesh(adj, n),
        flood_inv(s, adj, n),
        s.flight.len() == 0,
        path.len() >= 1,
        0 <= path[0] < n,
        s.seen[path[0]],
        forall|m: int| 0 <= m < path.len() - 1 ==> adj(#[trigger] path[m], path[m + 1]),
    ensures
        s.seen[path.last()],
    decreases path.len(),
{
    if path.len() > 1 {
        assert(adj(path[0], path[1]));
        assert(!frame_to(s.flight, path[1]));
        assert(s.seen[path[1]]);
        let tail = path.drop_first();
        assert forall|m: int| 0 <= m < tail.len() - 1 implies adj(
            #[trigger] tail[m],
            tail[m + 1],
        ) by {
            assert(tail[m] == path[m + 1] && tail[m + 1] == path[m + 2]);
        }
        lemma_flood_reaches_connected(s, adj, n, tail);
        assert(tail.last() == path.last());
    }
}

/// The state just after the origin publishes: only the origin has the
/// message, and one frame is on the way to each of its neighbours. The
/// flood invariant holds from the start.
pub proof fn lemma_publish_establishes_inv(
    adj: spec_fn(int, int) -> bool,
    n: int,
    origin: int,
    seen0: Seq<bool>,
)
    requires
        wf_mesh(adj, n),
        0 <= origin < n,
        seen0.len() == n,
        forall|i: int| 0 <= i < n ==> seen0[i] == (i == origin),
    ensures
        flood_inv(
            MeshFlood { seen: seen0, flight: relay_frames(adj, n, origin, origin, 0) },
            adj,
            n,
        ),
{
    lemma_relay_frames_members(adj, n, origin, origin, 0);
    let s = MeshFlood { seen: seen0, flight: relay_frames(adj, n, origin, origin, 0) };
    assert forall|i: int, j: int|
        0 <= i < n && #[trigger] adj(i, j) && s.seen[i] implies s.seen[j] || frame_to(
        s.flight,
        j,
    ) by {
        if i == origin && j != origin {
            assert(s.flight.contains((origin, j)));
            let m = choose|m: int| 0 <= m < s.flight.len() && s.flight[m] == (origin, j);
            assert(s.flight[m].1 == j);
        }
    }
}

} // verus!
