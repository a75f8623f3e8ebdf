//! Protocol-upgrade negotiation: on top of a fresh connection the two ends
//! exchange ordered lists of protocol identifiers, and the first identifier
//! of the offering side's list that the other side also supports is
//! selected. Disjoint lists fail the negotiation with
//! [`Error::NoCommonProtocol`](crate::Error) and nothing is handed to any
//! protocol handler.

use vstd::prelude::*;
use crate::Error;

verus! {

/// The first element of `offered` contained in `supported`, in `offered`'s
/// order: the offering side's preference wins ties.
pub open spec fn first_common(offered: Seq<u64>, supported: Seq<u64>) -> Option<u64>
    decreases offered.len(),
{
    if offered.len() == 0 {
        None
    } else if supported.contains(offered[0]) {
        Some(offered[0])
    } else {
        first_common(offered.drop_first(), supported)
    }
}

/// What negotiation selects lies in both lists; when it selects nothing,
/// the lists share no identifier.
pub proof fn lemma_first_common_in_intersection(offered: Seq<u64>, supported: Seq<u64>)
    ensures
        match first_common(offered, supported) {
            Some(p) => offered.contains(p) && supported.contains(p),
            None => forall|p: u64| !(offered.contains(p) && supported.contains(p)),
        },
    decreases offered.len(),
{
    if offered.len() > 0 {
        lemma_first_common_in_intersection(offered.drop_first(), supported);
        match first_common(offered, supported) {
            Some(p) => {
                if !supported.contains(offered[0]) {
                    let rest = offered.drop_first();
                    assert(rest.contains(p));
                    let i = choose|i: int| 0 <= i < rest.len() && rest[i] == p;
                    assert(offered[i + 1] == p);
                }
            },
            None => {
                assert forall|p: u64| !(offered.contains(p) && supported.contains(p)) by {
                    if offered.contains(p) && supported.contains(p) {
                        let i = choose|i: int| 0 <= i < offered.len() && offered[i] == p;
                        if i > 0 {
                            assert(offered.drop_first()[i - 1] == p);
                        }
                    }
                }
            },
        }
    }
}

/// Moreover the selection is the *first* such element of `offered`.
pub proof fn lemma_first_common_is_first(offered: Seq<u64>, supported: Seq<u64>, i: int)
    requires
        0 <= i < offered.len(),
        supported.contains(offered[i]),
        forall|k: int| 0 <= k < i ==> !supported.contains(#[trigger] offered[k]),
    ensures
        first_common(offered, supported) == Some(offered[i]),
    decreases i,
{
    if i > 0 {
        assert(offered.drop_first()[i - 1] == offered[i]);
        assert forall|k: int| 0 <= k < i - 1 implies !supported.contains(
            #[trigger] offered.drop_first()[k],
        ) by {
            assert(offered.drop_first()[k] == offered[k + 1]);
        }
        lemma_first_common_is_first(offered.drop_first(), supported, i - 1);
    }
}

/// Whether a list contains an identifier.
fn list_contains(v: &Vec<u64>, x: u64) -> (r: bool)
    ensures
        r == v@.contains(x),
{
    let mut i: usize = 0;
    while i < v.len()
        invariant
            i <= v.len(),
            forall|k: int| 0 <= k < i ==> v@[k] != x,
        decreases v.len() - i,
    {
        if v[i] == x {
            return true;
        }
        i = i + 1;
    }
    false
}

/// Selects the protocol both ends support, favouring `offered`'s order, or
/// fails with `NoCommonProtocol` when the two lists are disjoint.
pub fn select_protocol(offered: &Vec<u64>, supported: &Vec<u64>) -> (r: Result<u64, Error>)
    ensures
        match r {
            Ok(p) => first_common(offered@, supported@) == Some(p),
            Err(e) => first_common(offered@, supported@) is None && e == Error::NoCommonProtocol,
        },
{
    let mut i: usize = 0;
    while i < offered.len()
        invariant
            i <= offered.len(),
            forall|k: int| 0 <= k < i ==> !supported@.contains(#[trigger] offered@[k]),
        decreases offered.len() - i,
    {
        if list_contains(supported, offered[i]) {
            proof {
                lemma_first_common_is_first(offered@, supported@, i as int);
            }
            return Ok(offered[i]);
        }
        i = i + 1;
    }
    proof {
        lemma_no_common_when_none_supported(offered@, supported@);
    }
    Err(Error::NoCommonProtocol)
}

/// Where no offered identifier is supported, negotiation selects nothing.
proof fn lemma_no_common_when_none_supported(offered: Seq<u64>, supported: Seq<u64>)
    requires
        forall|k: int| 0 <= k < offered.len() ==> !supported.contains(#[trigger] offered[k]),
    ensures
        first_common(offered, supported) is None,
    decreases offered.len(),
{
    if offered.len() > 0 {
        assert forall|k: int| 0 <= k < offered.drop_first().len() implies !supported.contains(
            #[trigger] offered.drop_first()[k],
        ) by {
            assert(offered.drop_first()[k] == offered[k + 1]);
        }
        lemma_no_common_when_none_supported(offered.drop_first(), supported);
    }
}

/// Which end of the connection this negotiator is. Selection is the first
/// protocol of the *listener's* list that the dialer also supports, so both
/// ends compute the same value from the same pair of lists.
#[derive(Clone, Copy, Debug, PartialEq, Eq, Structural)]
pub enum Role {
    Listener,
    Dialer,
}

/// The per-connection negotiation state machine.
#[derive(Clone, Copy, Debug, PartialEq, Eq, Structural)]
pub enum NegState {
    /// No list has been sent or received yet.
    Start,
    /// Our list is on the wire; the remote list is awaited.
    Exchanging,
    /// Negotiation picked this protocol; its handler owns the stream now.
    Selected(u64),
    /// The lists were disjoint; the connection is to be closed.
    Failed,
}

/// One end of a protocol negotiation, holding its role and the protocols
/// this end supports in preference order.
#[derive(Clone, Debug)]
pub struct Negotiator {
    pub role: Role,
    pub supported: Vec<u64>,
    pub state: NegState,
}

/// The listener's preference list and the dialer's, ordered by role: what
/// either end selects is `first_common` of this pair, so the two ends of
/// one connection agree.
pub open spec fn role_lists(role: Role, own: Seq<u64>, remote: Seq<u64>) -> (Seq<u64>, Seq<u64>) {
    match role {
        Role::Listener => (own, remote),
        Role::Dialer => (remote, own),
    }
}

impl Negotiator {
    /// A fresh negotiator for one connection.
    pub fn new(role: Role, supported: Vec<u64>) -> (r: Negotiator)
        ensures
            r.state == NegState::Start,
            r.role == role,
            r.supported@ == supported@,
    {
        Negotiator { role, supported, state: NegState::Start }
    }

    /// Produces the identifier list to send to the remote end and moves to
    /// the exchanging state.
    pub fn begin(&mut self) -> (offer: Vec<u64>)
        requires
            old(self).state == NegState::Start,
        ensures
            offer@ == final(self).supported@,
            final(self).supported@ == old(self).supported@,
            final(self).state == NegState::Exchanging,
    {
        self.state = NegState::Exchanging;
        let mut offer: Vec<u64> = Vec::new();
        let mut i: usize = 0;
        while i < self.supported.len()
            invariant
                i <= self.supported.len(),
                offer@ == self.supported@.subrange(0, i as int),
            decreases self.supported.len() - i,
        {
            offer.push(self.supported[i]);
            proof {
                assert(self.supported@.subrange(0, i as int + 1) =~= self.supported@.subrange(
                    0,
                    i as int,
                ).push(self.supported@[i as int]));
            }
            i = i + 1;
        }
        proof {
            assert(self.supported@.subrange(0, self.supported@.len() as int) =~= self.supported@);
        }
        offer
    }

    /// Consumes the remote end's list and selects the first protocol of
    /// the listener's list that the dialer also supports, or fails. Both
    /// ends compute the same selection from the same exchanged pair of
    /// lists. On failure the connection is closed, so no payload byte ever
    /// reaches a protocol handler.
    pub fn on_remote_list(&mut self, remote: &Vec<u64>) -> (r: Result<u64, Error>)
        requires
            old(self).state == NegState::Exchanging,
        ensures
            final(self).supported@ == old(self).supported@,
            final(self).role == old(self).role,
            ({
                let (lis, dia) = role_lists(old(self).role, old(self).supported@, remote@);
                match r {
                    Ok(p) => {
                        &&& first_common(lis, dia) == Some(p)
                        &&& final(self).state == NegState::Selected(p)
                    },
                    Err(e) => {
                        &&& first_common(lis, dia) is None
                        &&& e == Error::NoCommonProtocol
                        &&& final(self).state == NegState::Failed
                    },
                }
            }),
    {
        let picked = match self.role {
            Role::Listener => select_protocol(&self.supported, remote),
            Role::Dialer => select_protocol(remote, &self.supported),
        };
        match picked {
            Ok(p) => {
                self.state = NegState::Selected(p);
                Ok(p)
            },
            Err(e) => {
                self.state = NegState::Failed;
                Err(e)
            },
        }
    }
}

/// The two ends of one connection agree: with the same pair of exchanged
/// lists, the listener's selection and the dialer's selection are the same
/// value, `first_common` of the listener's list in the dialer's.
pub proof fn lemma_negotiation_agreement(lis: Seq<u64>, dia: Seq<u64>)
    ensures
        role_lists(Role::Listener, lis, dia) == role_lists(Role::Dialer, dia, lis),
{
}

} // verus!
