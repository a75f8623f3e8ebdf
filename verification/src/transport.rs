//! Transport selection: a process registers an ordered list of carriers
//! (plain stream sockets, or WebSocket over them), and a combinator picks,
//! for each address, the first registered carrier whose protocol tags match
//! the address — first match wins, no racing.

use vstd::prelude::*;
use crate::addr::Addr;
use crate::addr::wf_segs;
use crate::addr::Segment;

verus! {

/// One concrete carrier of raw byte-duplex connections.
#[derive(Clone, Copy, Debug, PartialEq, Eq, Structural)]
pub enum Carrier {
    /// Plain TCP stream sockets.
    Tcp,
    /// WebSocket framing over a TCP stream.
    Ws,
}

/// Whether a carrier handles an address: the plain stream carrier takes
/// addresses without the WebSocket marker, the WebSocket carrier those
/// with it.
pub open spec fn supports(c: Carrier, a: Seq<Segment>) -> bool {
    match c {
        Carrier::Tcp => wf_segs(a) && a.len() == 2,
        Carrier::Ws => wf_segs(a) && a.len() == 3,
    }
}

/// The first carrier of the list that handles the address.
pub open spec fn first_carrier(cs: Seq<Carrier>, a: Seq<Segment>) -> Option<Carrier>
    decreases cs.len(),
{
    if cs.len() == 0 {
        None
    } else if supports(cs[0], a) {
        Some(cs[0])
    } else {
        first_carrier(cs.drop_first(), a)
    }
}

/// What the combinator picks is a registered carrier that handles the
/// address; where it picks nothing, no registered carrier does.
pub proof fn lemma_first_carrier_supports(cs: Seq<Carrier>, a: Seq<Segment>)
    ensures
        match first_carrier(cs, a) {
            Some(c) => cs.contains(c) && supports(c, a),
            None => forall|k: int| 0 <= k < cs.len() ==> !supports(#[trigger] cs[k], a),
        },
    decreases cs.len(),
{
    if cs.len() > 0 {
        lemma_first_carrier_supports(cs.drop_first(), a);
        match first_carrier(cs, a) {
            Some(c) => {
                if !supports(cs[0], a) {
                    let rest = cs.drop_first();
                    assert(rest.contains(c));
                    let i = choose|i: int| 0 <= i < rest.len() && rest[i] == c;
                    assert(cs[i + 1] == c);
                }
            },
            None => {
                assert forall|k: int| 0 <= k < cs.len() implies !supports(#[trigger] cs[k], a) by {
                    if k > 0 {
                        assert(cs.drop_first()[k - 1] == cs[k]);
                    }
                }
            },
        }
    }
}

/// Picks the first registered carrier that handles the address, as the
/// dial side of a combinator transport does.
pub fn carrier_for(carriers: &Vec<Carrier>, a: &Addr) -> (r: Option<Carrier>)
    requires
        a.wf(),
    ensures
        r == first_carrier(carriers@, a@),
{
    let want_ws = a.uses_ws();
    let mut i: usize = 0;
    while i < carriers.len()
        invariant
            i <= carriers.len(),
            a.wf(),
            want_ws == (a@.len() == 3),
            forall|k: int| 0 <= k < i ==> !supports(#[trigger] carriers@[k], a@),
        decreases carriers.len() - i,
    {
        let c = carriers[i];
        let handles = match c {
            Carrier::Tcp => !want_ws,
            Carrier::Ws => want_ws,
        };
        if handles {
            proof {
                lemma_first_carrier_prefix(carriers@, a@, i as int);
            }
            return Some(c);
        }
        i = i + 1;
    }
    proof {
        lemma_first_carrier_none(carriers@, a@);
    }
    None
}

/// Where every carrier before position `i` fails and the one at `i`
/// handles the address, the combinator picks the one at `i`.
proof fn lemma_first_carrier_prefix(cs: Seq<Carrier>, a: Seq<Segment>, i: int)
    requires
        0 <= i < cs.len(),
        supports(cs[i], a),
        forall|k: int| 0 <= k < i ==> !supports(#[trigger] cs[k], a),
    ensures
        first_carrier(cs, a) == Some(cs[i]),
    decreases i,
{
    if i > 0 {
        assert(cs.drop_first()[i - 1] == cs[i]);
        assert forall|k: int| 0 <= k < i - 1 implies !supports(
            #[trigger] cs.drop_first()[k],
            a,
        ) by {
            assert(cs.drop_first()[k] == cs[k + 1]);
        }
        lemma_first_carrier_prefix(cs.drop_first(), a, i - 1);
    }
}

/// Where no carrier handles the address, the combinator picks none.
proof fn lemma_first_carrier_none(cs: Seq<Carrier>, a: Seq<Segment>)
    requires
        forall|k: int| 0 <= k < cs.len() ==> !supports(#[trigger] cs[k], a),
    ensures
        first_carrier(cs, a) is None,
    decreases cs.len(),
{
    if cs.len() > 0 {
        assert forall|k: int| 0 <= k < cs.drop_first().len() implies !supports(
            #[trigger] cs.drop_first()[k],
            a,
        ) by {
            assert(cs.drop_first()[k] == cs[k + 1]);
        }
        lemma_first_carrier_none(cs.drop_first(), a);
    }
}

} // verus!
