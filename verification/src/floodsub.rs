//! The flood-based publish/subscribe overlay: it tracks the local
//! subscription set and each connected peer's advertised interest, floods
//! published messages to every connected peer, and deduplicates incoming
//! messages by their `(origin, sequence-number)` identity so that a message
//! reaches the local application layer at most once while its identity is
//! cached, however many paths of the mesh carry it here.

use vstd::prelude::*;
use crate::Error;

verus! {

/// A pub/sub message: immutable once created. Its identity for
/// deduplication is the `(origin, seqno)` pair.
#[derive(Clone, Debug)]
pub struct Message {
    /// The peer that created the message.
    pub origin: u64,
    /// The origin's monotonically increasing sequence number.
    pub seqno: u64,
    /// The topics the message belongs to.
    pub topics: Vec<Vec<u8>>,
    /// The payload bytes.
    pub payload: Vec<u8>,
}

/// One wire frame of the overlay, conceptually length-delimited on the
/// negotiated stream.
#[derive(Clone, Debug)]
pub enum Frame {
    /// The sender declares interest in a topic.
    Subscribe(Vec<u8>),
    /// The sender withdraws interest in a topic.
    Unsubscribe(Vec<u8>),
    /// The sender floods a message.
    Publish(Message),
}

/// A connected peer running this protocol, with the interest set it has
/// advertised through subscribe/unsubscribe control frames.
#[derive(Clone, Debug, PartialEq, Eq)]
pub struct PeerEntry {
    pub id: u64,
    pub topics: Vec<Vec<u8>>,
}

/// The identifiers of a peer list, in order.
pub open spec fn peer_ids(ps: Seq<PeerEntry>) -> Seq<u64> {
    ps.map_values(|pe: PeerEntry| pe.id)
}

/// Keeps everything but one peer: the relay set excludes the sender.
pub open spec fn except(from: u64) -> spec_fn(u64) -> bool {
    |x: u64| x != from
}

/// A bounded, count-evicting record of recently seen message identities.
/// When full, recording a new identity evicts the oldest one; the retention
/// window is therefore `cap` distinct messages.
#[derive(Clone, Debug)]
pub struct SeenCache {
    pub cap: usize,
    pub ids: Vec<(u64, u64)>,
}

/// The cache contents after recording `id`: unchanged if already present,
/// appended if there is room, and appended after evicting the oldest entry
/// otherwise.
pub open spec fn seen_after(ids: Seq<(u64, u64)>, cap: int, id: (u64, u64)) -> Seq<(u64, u64)> {
    if ids.contains(id) {
        ids
    } else if ids.len() < cap {
        ids.push(id)
    } else {
        ids.subrange(1, ids.len() as int).push(id)
    }
}

/// The cache contents after recording a whole sequence of identities in
/// order.
pub open spec fn seen_after_all(ids: Seq<(u64, u64)>, cap: int, xs: Seq<(u64, u64)>) -> Seq<
    (u64, u64),
>
    decreases xs.len(),
{
    if xs.len() == 0 {
        ids
    } else {
        seen_after_all(seen_after(ids, cap, xs[0]), cap, xs.drop_first())
    }
}

/// The retention window of the cache: an identity sitting at position `p`
/// survives any run of further recordings that is short enough — eviction
/// is oldest-first, so at most `cap + p - ids.len()` entries can be
/// recorded before it is reached.
pub proof fn lemma_retention_window(ids: Seq<(u64, u64)>, cap: int, p: int, xs: Seq<(u64, u64)>)
    requires
        cap >= 1,
        ids.len() <= cap,
        0 <= p < ids.len(),
        xs.len() + ids.len() <= cap + p,
    ensures
        seen_after_all(ids, cap, xs).contains(ids[p]),
    decreases xs.len(),
{
    if xs.len() == 0 {
        assert(ids.contains(ids[p]));
    } else {
        let step = seen_after(ids, cap, xs[0]);
        if ids.contains(xs[0]) {
            lemma_retention_window(ids, cap, p, xs.drop_first());
        } else if ids.len() < cap {
            assert(step[p] == ids[p]);
            lemma_retention_window(step, cap, p, xs.drop_first());
        } else {
            assert(xs.len() >= 1 && ids.len() == cap);
            assert(p >= 1);
            assert(step == ids.subrange(1, ids.len() as int).push(xs[0]));
            assert(step[p - 1] == ids[p]);
            lemma_retention_window(step, cap, p - 1, xs.drop_first());
        }
    }
}

/// A freshly recorded identity stays cached across any shorter-than-`cap`
/// run of distinct further recordings: within that window, flood dedup
/// cannot re-deliver the message.
pub proof fn lemma_fresh_id_retained(
    ids: Seq<(u64, u64)>,
    cap: int,
    id: (u64, u64),
    xs: Seq<(u64, u64)>,
)
    requires
        cap >= 1,
        ids.len() <= cap,
        !ids.contains(id),
        xs.len() < cap,
    ensures
        seen_after_all(seen_after(ids, cap, id), cap, xs).contains(id),
{
    let step = seen_after(ids, cap, id);
    if ids.len() < cap {
        assert(step == ids.push(id));
        lemma_retention_window(step, cap, step.len() - 1, xs);
        assert(step[step.len() - 1] == id);
    } else {
        assert(step == ids.subrange(1, ids.len() as int).push(id));
        lemma_retention_window(step, cap, step.len() - 1, xs);
        assert(step[step.len() - 1] == id);
    }
}

/// Recording an identity leaves it in the cache.
pub proof fn lemma_seen_after_contains(ids: Seq<(u64, u64)>, cap: int, id: (u64, u64))
    requires
        cap >= 1,
    ensures
        seen_after(ids, cap, id).contains(id),
{
    if !ids.contains(id) {
        if ids.len() < cap {
            assert(ids.push(id).last() == id);
        } else {
            assert(ids.subrange(1, ids.len() as int).push(id).last() == id);
        }
    }
}

impl SeenCache {
    /// The cache never outgrows its bound, and the bound admits at least
    /// one entry.
    pub open spec fn wf(&self) -> bool {
        &&& self.cap >= 1
        &&& self.ids@.len() <= self.cap
    }

    /// An empty cache retaining up to `cap` identities.
    pub fn new(cap: usize) -> (r: SeenCache)
        requires
            cap >= 1,
        ensures
            r.wf(),
            r.cap == cap,
            r.ids@ == Seq::<(u64, u64)>::empty(),
    {
        SeenCache { cap, ids: Vec::new() }
    }

    /// Whether an identity is currently cached.
    pub fn contains(&self, origin: u64, seqno: u64) -> (r: bool)
        ensures
            r == self.ids@.contains((origin, seqno)),
    {
        let mut i: usize = 0;
        while i < self.ids.len()
            invariant
                i <= self.ids.len(),
                forall|k: int| 0 <= k < i ==> self.ids@[k] != (origin, seqno),
            decreases self.ids.len() - i,
        {
            if self.ids[i].0 == origin && self.ids[i].1 == seqno {
                proof {
                    assert(self.ids@[i as int] == (origin, seqno));
                }
                return true;
            }
            i = i + 1;
        }
        proof {
            if self.ids@.contains((origin, seqno)) {
                let k = choose|k: int|
                    0 <= k < self.ids@.len() && self.ids@[k] == (origin, seqno);
            }
        }
        false
    }

    /// Records an identity, evicting the oldest entry when full.
    pub fn insert(&mut self, origin: u64, seqno: u64)
        requires
            old(self).wf(),
        ensures
            final(self).wf(),
            final(self).cap == old(self).cap,
            final(self).ids@ == seen_after(old(self).ids@, old(self).cap as int, (origin, seqno)),
            final(self).ids@.contains((origin, seqno)),
    {
        proof {
            lemma_seen_after_contains(self.ids@, self.cap as int, (origin, seqno));
        }
        if self.contains(origin, seqno) {
            return;
        }
        if self.ids.len() >= self.cap {
            let ghost before = self.ids@;
            self.ids.remove(0);
            proof {
                assert(self.ids@ =~= before.subrange(1, before.len() as int));
            }
        }
        self.ids.push((origin, seqno));
    }
}

/// Whether two byte strings are equal.
pub fn bytes_eq(a: &Vec<u8>, b: &Vec<u8>) -> (r: bool)
    ensures
        r == (a@ == b@),
{
    if a.len() != b.len() {
        return false;
    }
    let mut i: usize = 0;
    while i < a.len()
        invariant
            i <= a.len() == b.len(),
            forall|k: int| 0 <= k < i ==> a@[k] == b@[k],
        decreases a.len() - i,
    {
        if a[i] != b[i] {
            return false;
        }
        i = i + 1;
    }
    proof {
        assert(a@ =~= b@);
    }
    true
}

/// The position of the first occurrence of a topic in a topic list.
pub fn topic_index(v: &Vec<Vec<u8>>, t: &Vec<u8>) -> (r: Option<usize>)
    ensures
        match r {
            Some(i) => {
                &&& i < v@.len()
                &&& v@[i as int]@ == t@
                &&& forall|k: int| 0 <= k < i ==> v.deep_view()[k] != t@
            },
            None => !v.deep_view().contains(t@),
        },
{
    let mut i: usize = 0;
    while i < v.len()
        invariant
            i <= v.len(),
            forall|k: int| 0 <= k < i ==> v.deep_view()[k] != t@,
        decreases v.len() - i,
    {
        if bytes_eq(&v[i], t) {
            proof {
                assert(v.deep_view()[i as int] == v@[i as int]@);
            }
            return Some(i);
        }
        proof {
            assert(v.deep_view()[i as int] == v@[i as int]@);
        }
        i = i + 1;
    }
    proof {
        if v.deep_view().contains(t@) {
            let k = choose|k: int| 0 <= k < v.deep_view().len() && v.deep_view()[k] == t@;
        }
    }
    None
}

/// Whether the two topic lists share a topic.
pub open spec fn topics_intersect(a: Seq<Seq<u8>>, b: Seq<Seq<u8>>) -> bool {
    exists|t: Seq<u8>| a.contains(t) && b.contains(t)
}

/// Whether the two topic lists share a topic.
pub fn topics_intersect_exec(a: &Vec<Vec<u8>>, b: &Vec<Vec<u8>>) -> (r: bool)
    ensures
        r == topics_intersect(a.deep_view(), b.deep_view()),
{
    let mut i: usize = 0;
    while i < b.len()
        invariant
            i <= b.len(),
            forall|k: int| 0 <= k < i ==> !a.deep_view().contains(#[trigger] b.deep_view()[k]),
        decreases b.len() - i,
    {
        if let Some(j) = topic_index(a, &b[i]) {
            proof {
                let t = b@[i as int]@;
                assert(b.deep_view()[i as int] == t);
                assert(a.deep_view()[j as int] == t);
                assert(a.deep_view().contains(t));
                assert(b.deep_view().contains(t));
            }
            return true;
        }
        proof {
            assert(b.deep_view()[i as int] == b@[i as int]@);
        }
        i = i + 1;
    }
    proof {
        if topics_intersect(a.deep_view(), b.deep_view()) {
            let t = choose|t: Seq<u8>| a.deep_view().contains(t) && b.deep_view().contains(t);
            let k = choose|k: int| 0 <= k < b.deep_view().len() && b.deep_view()[k] == t;
        }
    }
    false
}

/// A topic list with no repeated topic.
pub open spec fn distinct_topics(s: Seq<Seq<u8>>) -> bool {
    forall|i: int, j: int| 0 <= i < j < s.len() ==> s[i] != s[j]
}

/// A topic list after declaring interest in `t`: unchanged when already
/// present, appended otherwise. Declaring interest twice changes nothing
/// the second time.
pub open spec fn subs_after(subs: Seq<Seq<u8>>, t: Seq<u8>) -> Seq<Seq<u8>> {
    if subs.contains(t) {
        subs
    } else {
        subs.push(t)
    }
}

/// A topic list after withdrawing interest in `t`.
pub open spec fn subs_without(subs: Seq<Seq<u8>>, t: Seq<u8>) -> Seq<Seq<u8>> {
    subs.remove_value(t)
}

/// Subscribing is idempotent: a second subscription to the same topic
/// leaves the subscription state exactly as the first left it.
pub proof fn lemma_subscribe_idempotent(subs: Seq<Seq<u8>>, t: Seq<u8>)
    ensures
        subs_after(subs_after(subs, t), t) == subs_after(subs, t),
{
    if !subs.contains(t) {
        assert(subs.push(t).last() == t);
    }
}

/// A copy of a byte string.
fn copy_bytes(v: &Vec<u8>) -> (r: Vec<u8>)
    ensures
        r@ == v@,
{
    let mut out: Vec<u8> = Vec::new();
    let mut i: usize = 0;
    while i < v.len()
        invariant
            i <= v.len(),
            out@ == v@.subrange(0, i as int),
        decreases v.len() - i,
    {
        out.push(v[i]);
        proof {
            assert(v@.subrange(0, i as int + 1) =~= v@.subrange(0, i as int).push(v@[i as int]));
        }
        i = i + 1;
    }
    proof {
        assert(v@.subrange(0, v@.len() as int) =~= v@);
    }
    out
}

/// Adds a topic to a list unless it is already there.
fn topics_add(list: &mut Vec<Vec<u8>>, t: &Vec<u8>)
    ensures
        final(list).deep_view() == subs_after(old(list).deep_view(), t@),
        distinct_topics(old(list).deep_view()) ==> distinct_topics(final(list).deep_view()),
{
    match topic_index(list, t) {
        Some(i) => {
            proof {
                assert(list.deep_view()[i as int] == list@[i as int]@);
                assert(list.deep_view().contains(t@));
            }
        },
        None => {
            let ghost before = list.deep_view();
            let copy = copy_bytes(t);
            proof {
                assert(copy.deep_view() =~= copy@);
            }
            list.push(copy);
            proof {
                assert(list.deep_view() =~= before.push(t@));
                assert(before.push(t@).last() == t@);
                if distinct_topics(before) {
                    assert forall|i: int, j: int|
                        0 <= i < j < list.deep_view().len() implies list.deep_view()[i]
                        != list.deep_view()[j] by {
                        if j < before.len() as int {
                            assert(before[i] != before[j]);
                        } else {
                            assert(list.deep_view()[j] == t@);
                            assert(!before.contains(t@));
                            assert(before[i] == list.deep_view()[i]);
                        }
                    }
                }
            }
        },
    }
}

/// Removes a topic from a list if present.
fn topics_remove(list: &mut Vec<Vec<u8>>, t: &Vec<u8>)
    ensures
        final(list).deep_view() == subs_without(old(list).deep_view(), t@),
        distinct_topics(old(list).deep_view()) ==> distinct_topics(final(list).deep_view()),
{
    proof {
        old(list).deep_view().index_of_first_ensures(t@);
    }
    match topic_index(list, t) {
        Some(i) => {
            let ghost before = list.deep_view();
            proof {
                assert(before[i as int] == t@);
                assert(before.contains(t@));
                assert(before.index_of_first(t@) == Some(i as int)) by {
                    let idx = before.index_of_first(t@)->Some_0;
                    if idx < i as int {
                        assert(before[idx] != t@);
                    }
                    if idx > i as int {
                        assert(before[i as int] != t@);
                    }
                }
            }
            list.remove(i);
            proof {
                assert(list.deep_view() =~= before.remove(i as int));
                if distinct_topics(before) {
                    assert forall|a: int, b: int|
                        0 <= a < b < list.deep_view().len() implies list.deep_view()[a]
                        != list.deep_view()[b] by {
                        let aa = if a < i as int {
                            a
                        } else {
                            a + 1
                        };
                        let bb = if b < i as int {
                            b
                        } else {
                            b + 1
                        };
                        assert(list.deep_view()[a] == before[aa]);
                        assert(list.deep_view()[b] == before[bb]);
                    }
                }
            }
        },
        None => {},
    }
}

/// The relay set for a message arriving from `from`: every connected peer
/// except the sender, in table order.
fn relay_targets(peers: &Vec<PeerEntry>, from: u64) -> (r: Vec<u64>)
    ensures
        r@ == peer_ids(peers@).filter(except(from)),
{
    let mut out: Vec<u64> = Vec::new();
    let mut i: usize = 0;
    proof {
        lemma_filter_empty(except(from));
        assert(peer_ids(peers@.subrange(0, 0)) =~= Seq::<u64>::empty());
    }
    while i < peers.len()
        invariant
            i <= peers.len(),
            out@ == peer_ids(peers@.subrange(0, i as int)).filter(except(from)),
        decreases peers.len() - i,
    {
        proof {
            let pre = peer_ids(peers@.subrange(0, i as int));
            assert(peers@.subrange(0, i as int + 1) =~= peers@.subrange(0, i as int).push(
                peers@[i as int],
            ));
            assert(peer_ids(peers@.subrange(0, i as int + 1)) =~= pre.push(peers@[i as int].id));
            lemma_filter_push(pre, except(from), peers@[i as int].id);
        }
        if peers[i].id != from {
            out.push(peers[i].id);
        }
        i = i + 1;
    }
    proof {
        assert(peers@.subrange(0, peers@.len() as int) =~= peers@);
    }
    out
}

/// Filtering an empty sequence yields an empty sequence.
proof fn lemma_filter_empty(p: spec_fn(u64) -> bool)
    ensures
        Seq::<u64>::empty().filter(p) == Seq::<u64>::empty(),
{
    reveal(Seq::filter);
}

/// Filtering steps through a pushed element.
proof fn lemma_filter_push(s: Seq<u64>, p: spec_fn(u64) -> bool, x: u64)
    ensures
        s.push(x).filter(p) == if p(x) {
            s.filter(p).push(x)
        } else {
            s.filter(p)
        },
{
    reveal(Seq::filter);
    assert(s.push(x).drop_last() =~= s);
    assert(s.push(x).last() == x);
}

/// What one end does with a received message: whether it goes up to the
/// local application layer, and which peers it is relayed to.
#[derive(Clone, Debug)]
pub struct Delivery {
    pub deliver: bool,
    pub relay_to: Vec<u64>,
}

/// Whether a message is delivered locally: its identity is new and the
/// local subscription set meets its topic set.
pub open spec fn delivers(
    seen: Seq<(u64, u64)>,
    subs: Seq<Seq<u8>>,
    origin: u64,
    seqno: u64,
    mtopics: Seq<Seq<u8>>,
) -> bool {
    !seen.contains((origin, seqno)) && topics_intersect(subs, mtopics)
}

/// Which peers a message arriving from `from` is relayed to: none when its
/// identity was seen before, every other connected peer when it is new.
pub open spec fn relays(
    seen: Seq<(u64, u64)>,
    peers: Seq<PeerEntry>,
    from: u64,
    id: (u64, u64),
) -> Seq<u64> {
    if seen.contains(id) {
        Seq::empty()
    } else {
        peer_ids(peers).filter(except(from))
    }
}

/// One process's flood-sub overlay state.
#[derive(Clone, Debug)]
pub struct FloodSub {
    /// The identity of this process, stamped on every published message.
    pub local_peer: u64,
    /// The sequence number the next published message carries.
    pub next_seqno: u64,
    /// The topics the local application layer is subscribed to.
    pub subs: Vec<Vec<u8>>,
    /// The connected peers running this protocol.
    pub peers: Vec<PeerEntry>,
    /// Recently seen message identities, for deduplication.
    pub seen: SeenCache,
}

impl FloodSub {
    /// Peer identifiers are unique and topic lists hold no repeats.
    pub open spec fn wf(&self) -> bool {
        &&& self.seen.wf()
        &&& forall|i: int, j: int|
            0 <= i < j < self.peers@.len() ==> self.peers@[i].id != self.peers@[j].id
        &&& distinct_topics(self.subs.deep_view())
    }

    /// A fresh overlay for a process, with no peers, no subscriptions, and
    /// an empty cache retaining up to `cap` message identities.
    pub fn new(local_peer: u64, cap: usize) -> (r: FloodSub)
        requires
            cap >= 1,
        ensures
            r.wf(),
            r.local_peer == local_peer,
            r.next_seqno == 0,
            r.subs.deep_view() == Seq::<Seq<u8>>::empty(),
            r.peers@ == Seq::<PeerEntry>::empty(),
            r.seen.ids@ == Seq::<(u64, u64)>::empty(),
            r.seen.cap == cap,
    {
        let r = FloodSub {
            local_peer,
            next_seqno: 0,
            subs: Vec::new(),
            peers: Vec::new(),
            seen: SeenCache::new(cap),
        };
        proof {
            assert(r.subs.deep_view() =~= Seq::<Seq<u8>>::empty());
        }
        r
    }

    /// Whether a peer is in the connected set.
    fn peer_index(&self, id: u64) -> (r: Option<usize>)
        ensures
            match r {
                Some(i) => i < self.peers@.len() && self.peers@[i as int].id == id,
                None => !peer_ids(self.peers@).contains(id),
            },
    {
        let mut i: usize = 0;
        while i < self.peers.len()
            invariant
                i <= self.peers.len(),
                forall|k: int| 0 <= k < i ==> self.peers@[k].id != id,
            decreases self.peers.len() - i,
        {
            if self.peers[i].id == id {
                return Some(i);
            }
            i = i + 1;
        }
        proof {
            if peer_ids(self.peers@).contains(id) {
                let k = choose|k: int|
                    0 <= k < peer_ids(self.peers@).len() && peer_ids(self.peers@)[k] == id;
                assert(self.peers@[k].id == id);
            }
        }
        None
    }

    /// A new connection upgraded to this protocol: the peer joins the
    /// connected set with an empty advertised interest set. A peer already
    /// present is left untouched.
    pub fn add_peer(&mut self, id: u64)
        requires
            old(self).wf(),
        ensures
            final(self).wf(),
            final(self).local_peer == old(self).local_peer,
            final(self).next_seqno == old(self).next_seqno,
            final(self).subs == old(self).subs,
            final(self).seen == old(self).seen,
            peer_ids(old(self).peers@).contains(id) ==> final(self).peers@ == old(self).peers@,
            !peer_ids(old(self).peers@).contains(id) ==> {
                &&& final(self).peers@.len() == old(self).peers@.len() + 1
                &&& forall|k: int|
                    0 <= k < old(self).peers@.len() ==> final(self).peers@[k] == old(
                        self,
                    ).peers@[k]
                &&& final(self).peers@.last().id == id
                &&& final(self).peers@.last().topics.deep_view() == Seq::<Seq<u8>>::empty()
            },
    {
        match self.peer_index(id) {
            Some(i) => {
                proof {
                    assert(peer_ids(self.peers@)[i as int] == id);
                }
            },
            None => {
                let entry = PeerEntry { id, topics: Vec::new() };
                proof {
                    assert(entry.topics.deep_view() =~= Seq::<Seq<u8>>::empty());
                }
                let ghost before = self.peers@;
                self.peers.push(entry);
                proof {
                    assert forall|i: int, j: int|
                        0 <= i < j < self.peers@.len() implies self.peers@[i].id
                        != self.peers@[j].id by {
                        if j == self.peers@.len() - 1 {
                            assert(peer_ids(before)[i] == before[i].id);
                            assert(peer_ids(before).contains(before[i].id));
                        }
                    }
                }
            },
        }
    }

    /// A peer disconnected: it leaves the connected set; every other entry
    /// stays as it was.
    pub fn remove_peer(&mut self, id: u64)
        requires
            old(self).wf(),
        ensures
            final(self).wf(),
            final(self).local_peer == old(self).local_peer,
            final(self).next_seqno == old(self).next_seqno,
            final(self).subs == old(self).subs,
            final(self).seen == old(self).seen,
            !peer_ids(final(self).peers@).contains(id),
            forall|x: u64|
                x != id ==> peer_ids(final(self).peers@).contains(x) == peer_ids(
                    old(self).peers@,
                ).contains(x),
            forall|k: int|
                0 <= k < final(self).peers@.len() ==> old(self).peers@.contains(
                    #[trigger] final(self).peers@[k],
                ),
    {
        match self.peer_index(id) {
            Some(i) => {
                let ghost before = self.peers@;
                self.peers.remove(i);
                proof {
                    assert(self.peers@ == before.remove(i as int));
                    assert forall|k: int|
                        0 <= k < self.peers@.len() implies before.contains(
                        #[trigger] self.peers@[k],
                    ) by {
                        if k < i as int {
                            assert(self.peers@[k] == before[k]);
                        } else {
                            assert(self.peers@[k] == before[k + 1]);
                        }
                    }
                    assert forall|k1: int, k2: int|
                        0 <= k1 < k2 < self.peers@.len() implies self.peers@[k1].id
                        != self.peers@[k2].id by {
                        let b1 = if k1 < i as int {
                            k1
                        } else {
                            k1 + 1
                        };
                        let b2 = if k2 < i as int {
                            k2
                        } else {
                            k2 + 1
                        };
                        assert(self.peers@[k1] == before[b1] && self.peers@[k2] == before[b2]);
                    }
                    assert(!peer_ids(self.peers@).contains(id)) by {
                        if peer_ids(self.peers@).contains(id) {
                            let k = choose|k: int|
                                0 <= k < peer_ids(self.peers@).len() && peer_ids(self.peers@)[k]
                                    == id;
                            let b = if k < i as int {
                                k
                            } else {
                                k + 1
                            };
                            assert(before[b].id == id && before[i as int].id == id);
                        }
                    }
                    assert forall|x: u64| x != id implies peer_ids(self.peers@).contains(x)
                        == peer_ids(before).contains(x) by {
                        if peer_ids(self.peers@).contains(x) {
                            let k = choose|k: int|
                                0 <= k < peer_ids(self.peers@).len() && peer_ids(self.peers@)[k]
                                    == x;
                            let b = if k < i as int {
                                k
                            } else {
                                k + 1
                            };
                            assert(peer_ids(before)[b] == x);
                        }
                        if peer_ids(before).contains(x) {
                            let k = choose|k: int|
                                0 <= k < peer_ids(before).len() && peer_ids(before)[k] == x;
                            if k < i as int {
                                assert(peer_ids(self.peers@)[k] == x);
                            } else {
                                assert(k != i as int);
                                assert(peer_ids(self.peers@)[k - 1] == x);
                            }
                        }
                    }
                }
            },
            None => {},
        }
    }

    /// The local application layer subscribes to a topic: it is added to
    /// the local set (a second subscription changes nothing), and a
    /// subscribe control frame is owed to every connected peer, whose
    /// identifiers are returned.
    pub fn subscribe(&mut self, topic: &Vec<u8>) -> (r: Vec<u64>)
        requires
            old(self).wf(),
        ensures
            final(self).wf(),
            final(self).local_peer == old(self).local_peer,
            final(self).next_seqno == old(self).next_seqno,
            final(self).peers == old(self).peers,
            final(self).seen == old(self).seen,
            final(self).subs.deep_view() == subs_after(old(self).subs.deep_view(), topic@),
            r@ == peer_ids(old(self).peers@),
    {
        topics_add(&mut self.subs, topic);
        self.all_peer_ids()
    }

    /// The local application layer withdraws a subscription; an unsubscribe
    /// control frame is owed to every connected peer.
    pub fn unsubscribe(&mut self, topic: &Vec<u8>) -> (r: Vec<u64>)
        requires
            old(self).wf(),
        ensures
            final(self).wf(),
            final(self).local_peer == old(self).local_peer,
            final(self).next_seqno == old(self).next_seqno,
            final(self).peers == old(self).peers,
            final(self).seen == old(self).seen,
            final(self).subs.deep_view() == subs_without(old(self).subs.deep_view(), topic@),
            r@ == peer_ids(old(self).peers@),
    {
        topics_remove(&mut self.subs, topic);
        self.all_peer_ids()
    }

    /// Publishes a payload on a set of topics: builds the message stamped
    /// with this process's identity and its next sequence number, records
    /// the message's identity so it is never delivered back here, and
    /// floods it to every connected peer (plain flood: relevance is judged
    /// at the receiving end). Returns the message and the recipients.
    pub fn publish(&mut self, topics: Vec<Vec<u8>>, payload: Vec<u8>) -> (r: (Message, Vec<u64>))
        requires
            old(self).wf(),
            old(self).next_seqno < u64::MAX,
        ensures
            final(self).wf(),
            final(self).local_peer == old(self).local_peer,
            final(self).subs == old(self).subs,
            final(self).peers == old(self).peers,
            r.0.origin == old(self).local_peer,
            r.0.seqno == old(self).next_seqno,
            r.0.topics == topics,
            r.0.payload == payload,
            final(self).next_seqno == old(self).next_seqno + 1,
            final(self).seen.cap == old(self).seen.cap,
            final(self).seen.ids@ == seen_after(
                old(self).seen.ids@,
                old(self).seen.cap as int,
                (old(self).local_peer, old(self).next_seqno),
            ),
            final(self).seen.ids@.contains((r.0.origin, r.0.seqno)),
            r.1@ == peer_ids(old(self).peers@),
    {
        let seqno = self.next_seqno;
        self.next_seqno = self.next_seqno + 1;
        self.seen.insert(self.local_peer, seqno);
        let msg = Message { origin: self.local_peer, seqno, topics, payload };
        let recipients = self.all_peer_ids();
        (msg, recipients)
    }

    /// A message arrived from a connected peer. An already-seen identity is
    /// discarded: nothing is delivered, nothing is relayed, nothing
    /// changes. A new identity is recorded, delivered to the local
    /// application layer exactly when a local subscription meets the
    /// message's topics, and relayed to every connected peer except the
    /// sender.
    pub fn on_receive(&mut self, from: u64, msg: &Message) -> (r: Delivery)
        requires
            old(self).wf(),
        ensures
            final(self).wf(),
            final(self).local_peer == old(self).local_peer,
            final(self).next_seqno == old(self).next_seqno,
            final(self).subs == old(self).subs,
            final(self).peers == old(self).peers,
            final(self).seen.cap == old(self).seen.cap,
            final(self).seen.ids@ == seen_after(
                old(self).seen.ids@,
                old(self).seen.cap as int,
                (msg.origin, msg.seqno),
            ),
            r.deliver == delivers(
                old(self).seen.ids@,
                old(self).subs.deep_view(),
                msg.origin,
                msg.seqno,
                msg.topics.deep_view(),
            ),
            r.relay_to@ == relays(
                old(self).seen.ids@,
                old(self).peers@,
                from,
                (msg.origin, msg.seqno),
            ),
    {
        if self.seen.contains(msg.origin, msg.seqno) {
            return Delivery { deliver: false, relay_to: Vec::new() };
        }
        self.seen.insert(msg.origin, msg.seqno);
        let deliver = topics_intersect_exec(&self.subs, &msg.topics);
        let relay_to = relay_targets(&self.peers, from);
        Delivery { deliver, relay_to }
    }

    /// A subscribe or unsubscribe control frame arrived from a peer: that
    /// peer's advertised interest set gains or loses the topic; every other
    /// entry stays as it was. A frame from a peer that is not connected is
    /// malformed and changes nothing.
    pub fn on_control(&mut self, from: u64, subscribe: bool, topic: &Vec<u8>) -> (r: Result<
        (),
        Error,
    >)
        requires
            old(self).wf(),
        ensures
            final(self).wf(),
            final(self).local_peer == old(self).local_peer,
            final(self).next_seqno == old(self).next_seqno,
            final(self).subs == old(self).subs,
            final(self).seen == old(self).seen,
            match r {
                Ok(_) => {
                    &&& peer_ids(old(self).peers@).contains(from)
                    &&& final(self).peers@.len() == old(self).peers@.len()
                    &&& forall|k: int|
                        0 <= k < old(self).peers@.len() && old(self).peers@[k].id != from
                            ==> final(self).peers@[k] == old(self).peers@[k]
                    &&& forall|k: int|
                        0 <= k < old(self).peers@.len() && old(self).peers@[k].id == from ==> {
                            &&& final(self).peers@[k].id == from
                            &&& final(self).peers@[k].topics.deep_view() == (if subscribe {
                                subs_after(old(self).peers@[k].topics.deep_view(), topic@)
                            } else {
                                subs_without(old(self).peers@[k].topics.deep_view(), topic@)
                            })
                        }
                },
                Err(e) => {
                    &&& !peer_ids(old(self).peers@).contains(from)
                    &&& e == Error::Malformed
                    &&& final(self).peers == old(self).peers
                },
            },
    {
        match self.peer_index(from) {
            None => Err(Error::Malformed),
            Some(i) => {
                proof {
                    assert(peer_ids(self.peers@)[i as int] == from);
                }
                let ghost before = self.peers@;
                let mut entry = self.peers.remove(i);
                if subscribe {
                    topics_add(&mut entry.topics, topic);
                } else {
                    topics_remove(&mut entry.topics, topic);
                }
                let ghost changed = entry;
                self.peers.insert(i, entry);
                proof {
                    assert(self.peers@ == before.remove(i as int).insert(i as int, changed));
                    assert forall|k: int|
                        0 <= k < self.peers@.len() implies #[trigger] self.peers@[k] == (if k
                        == i as int {
                        changed
                    } else {
                        before[k]
                    }) by {}
                    assert forall|k1: int, k2: int|
                        0 <= k1 < k2 < self.peers@.len() implies self.peers@[k1].id
                        != self.peers@[k2].id by {
                        assert(before[k1].id != before[k2].id);
                        assert(changed.id == before[i as int].id);
                    }
                }
                Ok(())
            },
        }
    }

    /// The identifiers of every connected peer, in table order.
    pub fn all_peer_ids(&self) -> (r: Vec<u64>)
        ensures
            r@ == peer_ids(self.peers@),
    {
        let mut out: Vec<u64> = Vec::new();
        let mut i: usize = 0;
        proof {
            assert(peer_ids(self.peers@.subrange(0, 0)) =~= Seq::<u64>::empty());
        }
        while i < self.peers.len()
            invariant
                i <= self.peers.len(),
                out@ == peer_ids(self.peers@.subrange(0, i as int)),
            decreases self.peers.len() - i,
        {
            out.push(self.peers[i].id);
            proof {
                assert(self.peers@.subrange(0, i as int + 1) =~= self.peers@.subrange(
                    0,
                    i as int,
                ).push(self.peers@[i as int]));
                assert(peer_ids(self.peers@.subrange(0, i as int + 1)) =~= peer_ids(
                    self.peers@.subrange(0, i as int),
                ).push(self.peers@[i as int].id));
            }
            i = i + 1;
        }
        proof {
            assert(self.peers@.subrange(0, self.peers@.len() as int) =~= self.peers@);
        }
        out
    }
}

impl FloodSub {
    /// Dispatches one wire frame from a connected peer: control frames
    /// update that peer's advertised interest and deliver nothing; data
    /// frames go through receive-side dedup, delivery and relay. A frame
    /// from an unconnected peer is malformed: it is dropped, nothing
    /// changes, and no other peer is affected.
    pub fn on_frame(&mut self, from: u64, frame: &Frame) -> (r: Result<Delivery, Error>)
        requires
            old(self).wf(),
        ensures
            final(self).wf(),
            final(self).local_peer == old(self).local_peer,
            final(self).next_seqno == old(self).next_seqno,
            final(self).subs == old(self).subs,
            r is Err ==> *final(self) == *old(self) && (r matches Err(e) && e == Error::Malformed)
                && !peer_ids(old(self).peers@).contains(from),
            r is Ok ==> peer_ids(old(self).peers@).contains(from),
            match frame {
                Frame::Subscribe(t) => r is Ok ==> {
                    &&& (r matches Ok(d) && !d.deliver && d.relay_to@ == Seq::<u64>::empty())
                    &&& final(self).seen == old(self).seen
                },
                Frame::Unsubscribe(t) => r is Ok ==> {
                    &&& (r matches Ok(d) && !d.deliver && d.relay_to@ == Seq::<u64>::empty())
                    &&& final(self).seen == old(self).seen
                },
                Frame::Publish(m) => r is Ok ==> {
                    &&& final(self).peers == old(self).peers
                    &&& final(self).seen.ids@ == seen_after(
                        old(self).seen.ids@,
                        old(self).seen.cap as int,
                        (m.origin, m.seqno),
                    )
                    &&& (r matches Ok(d) && d.deliver == delivers(
                        old(self).seen.ids@,
                        old(self).subs.deep_view(),
                        m.origin,
                        m.seqno,
                        m.topics.deep_view(),
                    ) && d.relay_to@ == relays(
                        old(self).seen.ids@,
                        old(self).peers@,
                        from,
                        (m.origin, m.seqno),
                    ))
                },
            },
    {
        match frame {
            Frame::Subscribe(t) => {
                match self.on_control(from, true, t) {
                    Ok(_) => Ok(Delivery { deliver: false, relay_to: Vec::new() }),
                    Err(e) => Err(e),
                }
            },
            Frame::Unsubscribe(t) => {
                match self.on_control(from, false, t) {
                    Ok(_) => Ok(Delivery { deliver: false, relay_to: Vec::new() }),
                    Err(e) => Err(e),
                }
            },
            Frame::Publish(m) => {
                match self.peer_index(from) {
                    None => Err(Error::Malformed),
                    Some(i) => {
                        proof {
                            assert(peer_ids(self.peers@)[i as int] == from);
                        }
                        Ok(self.on_receive(from, m))
                    },
                }
            },
        }
    }
}

/// Flood deduplication, at one node of the mesh: once a message's identity
/// is recorded — on first receipt, or on local publish — receiving the
/// same message again delivers nothing to the application layer and relays
/// nothing, whoever hands it in and however many mesh paths carry it here.
/// Across a mesh this bounds each peer's deliveries of one message to one
/// while the identity stays cached.
pub proof fn lemma_flood_dedup(
    seen: Seq<(u64, u64)>,
    cap: int,
    subs: Seq<Seq<u8>>,
    peers: Seq<PeerEntry>,
    from: u64,
    origin: u64,
    seqno: u64,
    mtopics: Seq<Seq<u8>>,
)
    requires
        cap >= 1,
    ensures
        !delivers(seen_after(seen, cap, (origin, seqno)), subs, origin, seqno, mtopics),
        relays(seen_after(seen, cap, (origin, seqno)), peers, from, (origin, seqno)) == Seq::<
            u64,
        >::empty(),
{
    lemma_seen_after_contains(seen, cap, (origin, seqno));
}

} // verus!
