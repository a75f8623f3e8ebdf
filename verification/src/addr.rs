//! Self-describing endpoint addresses: an ordered list of protocol segments,
//! written `/ip4/A.B.C.D/tcp/PORT` with an optional trailing `/ws` segment.
//!
//! `parse` accepts exactly the canonical text form (decimal numbers without
//! leading zeros) and `render` produces it, so the two functions are mutually
//! inverse; `lemma_parse_render` and `lemma_render_parse` state the round
//! trip in both directions.

use vstd::prelude::*;
use crate::Error;

verus! {

/// One segment of an address: a network-layer host, a transport-layer port,
/// or the WebSocket application-layer marker.
#[derive(Clone, Copy, Debug, PartialEq, Eq, Structural)]
pub enum Segment {
    /// An IPv4 host, one field per dotted-decimal octet.
    Ip4(u8, u8, u8, u8),
    /// A TCP port; port 0 stands for "any port" until a listener resolves it.
    Tcp(u16),
    /// Selects a WebSocket carrier on top of the stream transport.
    Ws,
}

/// An address: an immutable, ordered sequence of segments.
#[derive(Clone, Debug)]
pub struct Addr {
    pub segs: Vec<Segment>,
}

impl View for Addr {
    type V = Seq<Segment>;

    open spec fn view(&self) -> Seq<Segment> {
        self.segs@
    }
}

/// The segment shapes this address family admits: an IPv4 host, then a TCP
/// port, then optionally the WebSocket marker.
pub open spec fn wf_segs(s: Seq<Segment>) -> bool {
    &&& s.len() == 2 || s.len() == 3
    &&& s[0] is Ip4
    &&& s[1] is Tcp
    &&& s.len() == 3 ==> s[2] is Ws
}

impl Addr {
    /// A well-formed address has the ip4/tcp[/ws] segment shape.
    pub open spec fn wf(&self) -> bool {
        wf_segs(self@)
    }
}

/// An ASCII decimal digit.
pub open spec fn is_digit(b: u8) -> bool {
    48 <= b && b <= 57
}

/// The end of the run of digits starting at position `i`.
pub open spec fn digits_end(s: Seq<u8>, i: int) -> int
    decreases s.len() - i
        when 0 <= i <= s.len()
{
    if i < s.len() && is_digit(s[i]) {
        digits_end(s, i + 1)
    } else {
        i
    }
}

/// The numeric value of a sequence of decimal digit bytes.
pub open spec fn chunk_val(s: Seq<u8>) -> int
    decreases s.len(),
{
    if s.len() == 0 {
        0
    } else {
        chunk_val(s.drop_last()) * 10 + s.last() - 48
    }
}

/// A canonical decimal number: at least one digit, and no leading zero.
pub open spec fn canonical_chunk(s: Seq<u8>) -> bool {
    &&& s.len() >= 1
    &&& forall|i: int| 0 <= i < s.len() ==> is_digit(#[trigger] s[i])
    &&& s.len() > 1 ==> s[0] != 48
}

/// The canonical decimal representation of a nonnegative number.
pub open spec fn dec_rep(n: int) -> Seq<u8>
    decreases n
        when n >= 0
{
    if n < 10 {
        seq![(48 + n) as u8]
    } else {
        dec_rep(n / 10).push((48 + n % 10) as u8)
    }
}

/// The bytes of `"/ip4/"`.
pub open spec fn tag_ip4() -> Seq<u8> {
    seq![47u8, 105u8, 112u8, 52u8, 47u8]
}

/// The bytes of `"/tcp/"`.
pub open spec fn tag_tcp() -> Seq<u8> {
    seq![47u8, 116u8, 99u8, 112u8, 47u8]
}

/// The bytes of `"/ws"`.
pub open spec fn tag_ws() -> Seq<u8> {
    seq![47u8, 119u8, 115u8]
}

/// Reads the canonical decimal number starting at position `i`, bounded by
/// `max`: the value and the position just past its digits, or `None` if the
/// digits are missing, have a leading zero, or exceed the bound.
pub open spec fn parse_num_at(s: Seq<u8>, i: int, max: int) -> Option<(int, int)> {
    let j = digits_end(s, i);
    let c = s.subrange(i, j);
    if canonical_chunk(c) && chunk_val(c) <= max {
        Some((chunk_val(c), j))
    } else {
        None
    }
}

/// The address denoted by a byte string, or `None` where the string is not
/// the canonical text form of any well-formed address.
pub open spec fn parse_spec(s: Seq<u8>) -> Option<Seq<Segment>> {
    if s.len() < 5 || s.subrange(0, 5) != tag_ip4() {
        None
    } else {
        match parse_num_at(s, 5, 255) {
            None => None,
            Some((o1, i1)) => {
                if !(i1 < s.len() && s[i1] == 46) {
                    None
                } else {
                    match parse_num_at(s, i1 + 1, 255) {
                        None => None,
                        Some((o2, i2)) => {
                            if !(i2 < s.len() && s[i2] == 46) {
                                None
                            } else {
                                match parse_num_at(s, i2 + 1, 255) {
                                    None => None,
                                    Some((o3, i3)) => {
                                        if !(i3 < s.len() && s[i3] == 46) {
                                            None
                                        } else {
                                            match parse_num_at(s, i3 + 1, 255) {
                                                None => None,
                                                Some((o4, i4)) => parse_tail(s, i4, o1, o2, o3, o4),
                                            }
                                        }
                                    },
                                }
                            }
                        },
                    }
                }
            },
        }
    }
}

/// The rest of `parse_spec` after the four host octets: the `/tcp/` tag, the
/// port, and either the end of the string or the `/ws` tag.
pub open spec fn parse_tail(s: Seq<u8>, i4: int, o1: int, o2: int, o3: int, o4: int) -> Option<
    Seq<Segment>,
> {
    if !(i4 + 5 <= s.len() && s.subrange(i4, i4 + 5) == tag_tcp()) {
        None
    } else {
        match parse_num_at(s, i4 + 5, 65535) {
            None => None,
            Some((p, i5)) => {
                let head = seq![
                    Segment::Ip4(o1 as u8, o2 as u8, o3 as u8, o4 as u8),
                    Segment::Tcp(p as u16),
                ];
                if i5 == s.len() {
                    Some(head)
                } else if i5 + 3 == s.len() && s.subrange(i5, s.len() as int) == tag_ws() {
                    Some(head.push(Segment::Ws))
                } else {
                    None
                }
            },
        }
    }
}

/// The canonical byte form of one segment.
pub open spec fn seg_rep(g: Segment) -> Seq<u8> {
    match g {
        Segment::Ip4(a, b, c, d) => tag_ip4() + dec_rep(a as int) + seq![46u8] + dec_rep(b as int)
            + seq![46u8] + dec_rep(c as int) + seq![46u8] + dec_rep(d as int),
        Segment::Tcp(p) => tag_tcp() + dec_rep(p as int),
        Segment::Ws => tag_ws(),
    }
}

/// The canonical byte form of a whole segment sequence.
pub open spec fn render_segs(s: Seq<Segment>) -> Seq<u8>
    decreases s.len(),
{
    if s.len() == 0 {
        Seq::empty()
    } else {
        seg_rep(s[0]) + render_segs(s.drop_first())
    }
}

/// `dec_rep` produces at least one digit, never a leading zero, and one
/// digit exactly for numbers below ten.
pub proof fn lemma_dec_rep_props(n: int)
    requires
        n >= 0,
    ensures
        dec_rep(n).len() >= 1,
        forall|i: int| 0 <= i < dec_rep(n).len() ==> is_digit(#[trigger] dec_rep(n)[i]),
        n >= 1 ==> dec_rep(n)[0] != 48,
        (n < 10 <==> dec_rep(n).len() == 1),
    decreases n,
{
    if n >= 10 {
        lemma_dec_rep_props(n / 10);
    }
}

/// `chunk_val` recovers the number that `dec_rep` wrote down.
pub proof fn lemma_chunk_val_dec_rep(n: int)
    requires
        n >= 0,
    ensures
        chunk_val(dec_rep(n)) == n,
    decreases n,
{
    assert(chunk_val(Seq::<u8>::empty()) == 0);
    if n < 10 {
        assert(dec_rep(n).drop_last() =~= Seq::<u8>::empty());
        assert(dec_rep(n).last() == (48 + n) as u8);
    } else {
        lemma_chunk_val_dec_rep(n / 10);
        assert(dec_rep(n).drop_last() =~= dec_rep(n / 10));
        assert(dec_rep(n).last() == (48 + n % 10) as u8);
        vstd::arithmetic::div_mod::lemma_fundamental_div_mod(n, 10);
    }
}

/// A digit string's value is nonnegative, and positive when its first digit
/// is not zero.
pub proof fn lemma_chunk_val_bounds(c: Seq<u8>)
    requires
        forall|i: int| 0 <= i < c.len() ==> is_digit(#[trigger] c[i]),
    ensures
        chunk_val(c) >= 0,
        c.len() >= 1 && c[0] != 48 ==> chunk_val(c) >= 1,
    decreases c.len(),
{
    if c.len() > 0 {
        let dl = c.drop_last();
        assert(forall|i: int| 0 <= i < dl.len() ==> is_digit(#[trigger] dl[i]));
        lemma_chunk_val_bounds(dl);
    }
}

/// Canonical digit strings are exactly the `dec_rep` images: a digit string
/// without a leading zero renders back to itself.
pub proof fn lemma_canonical_dec_rep(c: Seq<u8>)
    requires
        canonical_chunk(c),
    ensures
        dec_rep(chunk_val(c)) == c,
    decreases c.len(),
{
    lemma_chunk_val_bounds(c);
    if c.len() == 1 {
        assert(chunk_val(Seq::<u8>::empty()) == 0);
        assert(c.drop_last() =~= Seq::<u8>::empty());
        assert(c.last() == c[0]);
        assert(chunk_val(c) == c[0] - 48);
        assert(dec_rep(chunk_val(c)) == seq![(48 + (c[0] - 48)) as u8]);
        assert(dec_rep(chunk_val(c)) =~= c);
    } else {
        let dl = c.drop_last();
        assert(canonical_chunk(dl));
        lemma_canonical_dec_rep(dl);
        lemma_chunk_val_bounds(dl);
        let v = chunk_val(c);
        let b = c.last() - 48;
        assert(v == chunk_val(dl) * 10 + b);
        vstd::arithmetic::div_mod::lemma_fundamental_div_mod_converse(v, 10, chunk_val(dl), b);
        assert(v / 10 == chunk_val(dl) && v % 10 == b);
        assert(v >= 10);
        assert(dec_rep(v) == dec_rep(v / 10).push((48 + v % 10) as u8));
        assert((48 + v % 10) as u8 == c.last());
        assert(dl.push(c.last()) =~= c);
    }
}

/// Where the bytes from `i` up to `j` are digits and `j` is the string's end
/// or a non-digit, the digit run starting at `i` ends exactly at `j`.
pub proof fn lemma_digits_end_at(s: Seq<u8>, i: int, j: int)
    requires
        0 <= i <= j <= s.len(),
        forall|k: int| i <= k < j ==> is_digit(#[trigger] s[k]),
        j == s.len() || !is_digit(s[j]),
    ensures
        digits_end(s, i) == j,
    decreases j - i,
{
    if i < j {
        lemma_digits_end_at(s, i + 1, j);
    }
}

/// Scans the digit run starting at `i`, returning its end position.
fn scan_digits(s: &[u8], i: usize) -> (j: usize)
    requires
        i <= s@.len(),
    ensures
        i <= j <= s@.len(),
        j == digits_end(s@, i as int),
        forall|k: int| i <= k < j ==> is_digit(#[trigger] s@[k]),
        j < s@.len() ==> !is_digit(s@[j as int]),
{
    let mut j = i;
    while j < s.len() && 48 <= s[j] && s[j] <= 57
        invariant
            i <= j <= s@.len(),
            digits_end(s@, i as int) == digits_end(s@, j as int),
            forall|k: int| i <= k < j ==> is_digit(#[trigger] s@[k]),
        decreases s@.len() - j,
    {
        j = j + 1;
    }
    j
}

/// Computes the value of the digit run `s[i..j]`, or `None` where it exceeds
/// the largest port number.
fn chunk_value(s: &[u8], i: usize, j: usize) -> (r: Option<u16>)
    requires
        i <= j <= s@.len(),
        forall|k: int| i <= k < j ==> is_digit(#[trigger] s@[k]),
    ensures
        match r {
            Some(v) => v as int == chunk_val(s@.subrange(i as int, j as int)),
            None => chunk_val(s@.subrange(i as int, j as int)) > 65535,
        },
{
    let mut v: u32 = 0;
    let mut big = false;
    let mut k = i;
    while k < j
        invariant
            i <= k <= j <= s@.len(),
            forall|m: int| i <= m < j ==> is_digit(#[trigger] s@[m]),
            !big ==> v as int == chunk_val(s@.subrange(i as int, k as int)) && v <= 65535,
            big ==> chunk_val(s@.subrange(i as int, k as int)) > 65535,
        decreases j - k,
    {
        let d = (s[k] - 48) as u32;
        proof {
            let pre = s@.subrange(i as int, k as int);
            let ext = s@.subrange(i as int, k as int + 1);
            assert(ext.drop_last() =~= pre);
            assert(ext.last() == s@[k as int]);
        }
        if !big {
            let w = v * 10 + d;
            if w > 65535 {
                big = true;
            } else {
                v = w;
            }
        }
        k = k + 1;
    }
    if big {
        None
    } else {
        Some(v as u16)
    }
}

/// Reads a bounded canonical decimal number at position `i`, exactly as
/// `parse_num_at` describes it.
fn parse_num(s: &[u8], i: usize, max: u16) -> (r: Option<(u16, usize)>)
    requires
        i <= s@.len(),
    ensures
        match r {
            Some((v, j)) => {
                &&& parse_num_at(s@, i as int, max as int) == Some((v as int, j as int))
                &&& i <= j <= s@.len()
                &&& v <= max
            },
            None => parse_num_at(s@, i as int, max as int) is None,
        },
{
    let j = scan_digits(s, i);
    let ghost c = s@.subrange(i as int, j as int);
    if j == i {
        return None;
    }
    if j - i > 1 && s[i] == 48 {
        assert(c[0] == 48);
        return None;
    }
    assert(canonical_chunk(c));
    match chunk_value(s, i, j) {
        None => {
            assert(chunk_val(c) > max as int);
            None
        },
        Some(v) => {
            if v > max {
                None
            } else {
                Some((v, j))
            }
        },
    }
}

/// Adjacent subranges of one sequence concatenate back to the enclosing
/// subrange.
pub proof fn lemma_subrange_join(s: Seq<u8>, i: int, j: int, k: int)
    requires
        0 <= i <= j <= k <= s.len(),
    ensures
        s.subrange(i, j) + s.subrange(j, k) == s.subrange(i, k),
{
    assert(s.subrange(i, j) + s.subrange(j, k) =~= s.subrange(i, k));
}

/// Parses the canonical text form of an address, as bytes. Returns
/// `Error::Malformed` exactly on the strings that denote no address.
pub fn parse(s: &[u8]) -> (r: Result<Addr, Error>)
    ensures
        match r {
            Ok(a) => parse_spec(s@) == Some(a@) && a.wf(),
            Err(e) => parse_spec(s@) is None && e == Error::Malformed,
        },
{
    if s.len() < 5 {
        return Err(Error::Malformed);
    }
    if !(s[0] == 47 && s[1] == 105 && s[2] == 112 && s[3] == 52 && s[4] == 47) {
        proof {
            assert(s@.subrange(0, 5)[0] == s@[0]);
            assert(s@.subrange(0, 5)[1] == s@[1]);
            assert(s@.subrange(0, 5)[2] == s@[2]);
            assert(s@.subrange(0, 5)[3] == s@[3]);
            assert(s@.subrange(0, 5)[4] == s@[4]);
        }
        return Err(Error::Malformed);
    }
    proof {
        assert(s@.subrange(0, 5) =~= tag_ip4());
    }
    let (o1, i1) = match parse_num(s, 5, 255) {
        Some(x) => x,
        None => {
            return Err(Error::Malformed);
        },
    };
    if !(i1 < s.len() && s[i1] == 46) {
        return Err(Error::Malformed);
    }
    let (o2, i2) = match parse_num(s, i1 + 1, 255) {
        Some(x) => x,
        None => {
            return Err(Error::Malformed);
        },
    };
    if !(i2 < s.len() && s[i2] == 46) {
        return Err(Error::Malformed);
    }
    let (o3, i3) = match parse_num(s, i2 + 1, 255) {
        Some(x) => x,
        None => {
            return Err(Error::Malformed);
        },
    };
    if !(i3 < s.len() && s[i3] == 46) {
        return Err(Error::Malformed);
    }
    let (o4, i4) = match parse_num(s, i3 + 1, 255) {
        Some(x) => x,
        None => {
            return Err(Error::Malformed);
        },
    };
    if !(i4 <= s.len() - 5) {
        return Err(Error::Malformed);
    }
    if !(s[i4] == 47 && s[i4 + 1] == 116 && s[i4 + 2] == 99 && s[i4 + 3] == 112 && s[i4 + 4]
        == 47) {
        proof {
            let t = s@.subrange(i4 as int, i4 as int + 5);
            assert(t[0] == s@[i4 as int]);
            assert(t[1] == s@[i4 as int + 1]);
            assert(t[2] == s@[i4 as int + 2]);
            assert(t[3] == s@[i4 as int + 3]);
            assert(t[4] == s@[i4 as int + 4]);
        }
        return Err(Error::Malformed);
    }
    proof {
        assert(s@.subrange(i4 as int, i4 as int + 5) =~= tag_tcp());
    }
    let (p, i5) = match parse_num(s, i4 + 5, 65535) {
        Some(x) => x,
        None => {
            return Err(Error::Malformed);
        },
    };
    let head = Segment::Ip4(o1 as u8, o2 as u8, o3 as u8, o4 as u8);
    if i5 == s.len() {
        let a = Addr { segs: vec![head, Segment::Tcp(p)] };
        proof {
            assert(a@ =~= seq![
                Segment::Ip4(o1 as u8, o2 as u8, o3 as u8, o4 as u8),
                Segment::Tcp(p as u16),
            ]);
        }
        Ok(a)
    } else if s.len() - i5 == 3 && s[i5] == 47 && s[i5 + 1] == 119 && s[i5 + 2] == 115 {
        proof {
            assert(s@.subrange(i5 as int, s@.len() as int) =~= tag_ws());
        }
        let a = Addr { segs: vec![head, Segment::Tcp(p), Segment::Ws] };
        proof {
            assert(a@ =~= seq![
                Segment::Ip4(o1 as u8, o2 as u8, o3 as u8, o4 as u8),
                Segment::Tcp(p as u16),
            ].push(Segment::Ws));
        }
        Ok(a)
    } else {
        proof {
            if i5 as int + 3 == s@.len() {
                let t = s@.subrange(i5 as int, s@.len() as int);
                assert(t[0] == s@[i5 as int]);
                assert(t[1] == s@[i5 as int + 1]);
                assert(t[2] == s@[i5 as int + 2]);
            }
        }
        Err(Error::Malformed)
    }
}

/// Appends the canonical decimal digits of `n`.
fn push_dec(out: &mut Vec<u8>, n: u16)
    ensures
        final(out)@ == old(out)@ + dec_rep(n as int),
    decreases n,
{
    if n < 10 {
        out.push((48 + n) as u8);
        proof {
            assert(out@ =~= old(out)@ + dec_rep(n as int));
        }
    } else {
        push_dec(out, n / 10);
        out.push((48 + n % 10) as u8);
        proof {
            assert(out@ =~= old(out)@ + dec_rep(n as int));
        }
    }
}

/// Appends the canonical byte form of one segment.
fn push_seg(out: &mut Vec<u8>, g: &Segment)
    ensures
        final(out)@ == old(out)@ + seg_rep(*g),
{
    match g {
        Segment::Ip4(a, b, c, d) => {
            out.push(47);
            out.push(105);
            out.push(112);
            out.push(52);
            out.push(47);
            proof {
                assert(out@ =~= old(out)@ + tag_ip4());
            }
            push_dec(out, *a as u16);
            out.push(46);
            proof {
                assert(out@ =~= old(out)@ + tag_ip4() + dec_rep(*a as int) + seq![46u8]);
            }
            push_dec(out, *b as u16);
            out.push(46);
            proof {
                assert(out@ =~= old(out)@ + tag_ip4() + dec_rep(*a as int) + seq![46u8] + dec_rep(
                    *b as int,
                ) + seq![46u8]);
            }
            push_dec(out, *c as u16);
            out.push(46);
            proof {
                assert(out@ =~= old(out)@ + tag_ip4() + dec_rep(*a as int) + seq![46u8] + dec_rep(
                    *b as int,
                ) + seq![46u8] + dec_rep(*c as int) + seq![46u8]);
            }
            push_dec(out, *d as u16);
        },
        Segment::Tcp(p) => {
            out.push(47);
            out.push(116);
            out.push(99);
            out.push(112);
            out.push(47);
            proof {
                assert(out@ =~= old(out)@ + tag_tcp());
            }
            push_dec(out, *p);
        },
        Segment::Ws => {
            out.push(47);
            out.push(119);
            out.push(115);
            proof {
                assert(out@ =~= old(out)@ + tag_ws());
            }
        },
    }
}

/// Appending a segment to a sequence appends its bytes to the rendering.
pub proof fn lemma_render_segs_snoc(s: Seq<Segment>, g: Segment)
    ensures
        render_segs(s.push(g)) == render_segs(s) + seg_rep(g),
    decreases s.len(),
{
    if s.len() == 0 {
        assert(s.push(g).drop_first() =~= s);
        assert(render_segs(s.push(g)) =~= render_segs(s) + seg_rep(g));
    } else {
        assert(s.push(g).drop_first() =~= s.drop_first().push(g));
        lemma_render_segs_snoc(s.drop_first(), g);
        assert(s.push(g)[0] == s[0]);
        assert((seg_rep(s[0]) + render_segs(s.drop_first())) + seg_rep(g) =~= seg_rep(s[0]) + (
        render_segs(s.drop_first()) + seg_rep(g)));
    }
}

/// Renders an address in its canonical text form, as bytes.
pub fn render(a: &Addr) -> (r: Vec<u8>)
    ensures
        r@ == render_segs(a@),
{
    let mut out: Vec<u8> = Vec::new();
    let mut i: usize = 0;
    proof {
        assert(a@.subrange(0, 0) =~= Seq::<Segment>::empty());
    }
    while i < a.segs.len()
        invariant
            i <= a.segs.len(),
            out@ == render_segs(a@.subrange(0, i as int)),
        decreases a.segs.len() - i,
    {
        push_seg(&mut out, &a.segs[i]);
        proof {
            assert(a@.subrange(0, i as int + 1) =~= a@.subrange(0, i as int).push(a@[i as int]));
            lemma_render_segs_snoc(a@.subrange(0, i as int), a@[i as int]);
        }
        i = i + 1;
    }
    proof {
        assert(a@.subrange(0, a@.len() as int) =~= a@);
    }
    out
}

/// The digit run starting at `i` ends between `i` and the end of the string.
pub proof fn lemma_digits_end_bounds(s: Seq<u8>, i: int)
    requires
        0 <= i <= s.len(),
    ensures
        i <= digits_end(s, i) <= s.len(),
    decreases s.len() - i,
{
    if i < s.len() && is_digit(s[i]) {
        lemma_digits_end_bounds(s, i + 1);
    }
}

/// Reading a number at the position where a rendered number stands recovers
/// that number, provided what follows does not begin with a digit.
pub proof fn lemma_parse_num_at_prefix(s: Seq<u8>, pre: Seq<u8>, n: int, rest: Seq<u8>, max: int)
    requires
        0 <= n <= max,
        s == pre + dec_rep(n) + rest,
        rest.len() == 0 || !is_digit(rest[0]),
    ensures
        parse_num_at(s, pre.len() as int, max) == Some(
            (n, pre.len() + dec_rep(n).len() as int),
        ),
{
    let i = pre.len() as int;
    let j = i + dec_rep(n).len();
    lemma_dec_rep_props(n);
    assert forall|k: int| i <= k < j implies is_digit(#[trigger] s[k]) by {
        assert(s[k] == dec_rep(n)[k - i]);
    }
    if j < s.len() {
        assert(s[j] == rest[0]);
    }
    lemma_digits_end_at(s, i, j);
    assert(s.subrange(i, j) =~= dec_rep(n));
    lemma_chunk_val_dec_rep(n);
}

/// Concatenation of sequences is associative.
pub proof fn lemma_seq_assoc(a: Seq<u8>, b: Seq<u8>, c: Seq<u8>)
    ensures
        (a + b) + c == a + (b + c),
{
    assert((a + b) + c =~= a + (b + c));
}

/// The canonical form of a whole address, grouped from the right: each
/// rendered number is followed by the rest of the string.
pub open spec fn flat_rep(x1: u8, x2: u8, x3: u8, x4: u8, p: u16, tail: Seq<u8>) -> Seq<u8> {
    tag_ip4() + dec_rep(x1 as int) + (seq![46u8] + (dec_rep(x2 as int) + (seq![46u8] + (dec_rep(
        x3 as int,
    ) + (seq![46u8] + (dec_rep(x4 as int) + (tag_tcp() + (dec_rep(p as int) + tail))))))))
}

/// Parsing the rendered form of a host, a port, and an optional trailing
/// `/ws` tag yields exactly those components.
#[verifier::spinoff_prover]
#[verifier::rlimit(80)]
proof fn lemma_parse_render_core(x1: u8, x2: u8, x3: u8, x4: u8, p: u16, tail: Seq<u8>)
    requires
        tail == Seq::<u8>::empty() || tail == tag_ws(),
    ensures
        ({
            let head = seq![Segment::Ip4(x1, x2, x3, x4), Segment::Tcp(p)];
            parse_spec(flat_rep(x1, x2, x3, x4, p, tail)) == Some(
                if tail.len() == 0 {
                    head
                } else {
                    head.push(Segment::Ws)
                },
            )
        }),
{
    let d1 = dec_rep(x1 as int);
    let d2 = dec_rep(x2 as int);
    let d3 = dec_rep(x3 as int);
    let d4 = dec_rep(x4 as int);
    let d5 = dec_rep(p as int);
    let dot = seq![46u8];
    let rest4 = tag_tcp() + (d5 + tail);
    let rest3 = dot + (d4 + rest4);
    let rest2 = dot + (d3 + rest3);
    let rest1 = dot + (d2 + rest2);
    let s = flat_rep(x1, x2, x3, x4, p, tail);
    assert(s == tag_ip4() + d1 + rest1);
    lemma_dec_rep_props(x1 as int);
    lemma_dec_rep_props(x2 as int);
    lemma_dec_rep_props(x3 as int);
    lemma_dec_rep_props(x4 as int);
    lemma_dec_rep_props(p as int);

    let pre1 = tag_ip4();
    assert(s.subrange(0, 5) =~= tag_ip4());
    lemma_parse_num_at_prefix(s, pre1, x1 as int, rest1, 255);
    let i1 = 5 + d1.len() as int;
    assert(s[i1] == rest1[0]);

    let pre2 = pre1 + d1 + dot;
    lemma_seq_assoc(pre1 + d1, dot, d2 + rest2);
    lemma_seq_assoc(pre2, d2, rest2);
    assert(s == pre2 + d2 + rest2);
    lemma_parse_num_at_prefix(s, pre2, x2 as int, rest2, 255);
    let i2 = pre2.len() + d2.len() as int;
    assert(s[i2] == rest2[0]);

    let pre3 = pre2 + d2 + dot;
    lemma_seq_assoc(pre2 + d2, dot, d3 + rest3);
    lemma_seq_assoc(pre3, d3, rest3);
    assert(s == pre3 + d3 + rest3);
    lemma_parse_num_at_prefix(s, pre3, x3 as int, rest3, 255);
    let i3 = pre3.len() + d3.len() as int;
    assert(s[i3] == rest3[0]);

    let pre4 = pre3 + d3 + dot;
    lemma_seq_assoc(pre3 + d3, dot, d4 + rest4);
    lemma_seq_assoc(pre4, d4, rest4);
    assert(s == pre4 + d4 + rest4);
    lemma_parse_num_at_prefix(s, pre4, x4 as int, rest4, 255);
    let i4 = pre4.len() + d4.len() as int;

    assert(s.subrange(i4, i4 + 5) =~= tag_tcp()) by {
        assert(s == (pre4 + d4) + (tag_tcp() + (d5 + tail)));
        assert forall|k: int| 0 <= k < 5 implies s[i4 + k] == tag_tcp()[k] by {
            assert(s[i4 + k] == rest4[k]);
            assert(rest4[k] == tag_tcp()[k]);
        }
    }

    let pre5 = pre4 + d4 + tag_tcp();
    lemma_seq_assoc(pre4 + d4, tag_tcp(), d5 + tail);
    lemma_seq_assoc(pre5, d5, tail);
    assert(s == pre5 + d5 + tail);
    lemma_parse_num_at_prefix(s, pre5, p as int, tail, 65535);
    let i5 = pre5.len() + d5.len() as int;

    if tail.len() == 0 {
        assert(i5 == s.len());
    } else {
        assert(i5 + 3 == s.len());
        assert(s.subrange(i5, s.len() as int) =~= tag_ws());
    }
}

/// The rendering of a host segment, a port segment, and a tail regroups into
/// the right-nested canonical form.
proof fn lemma_flat_shape(x1: u8, x2: u8, x3: u8, x4: u8, p: u16, tail: Seq<u8>)
    ensures
        seg_rep(Segment::Ip4(x1, x2, x3, x4)) + (seg_rep(Segment::Tcp(p)) + tail) == flat_rep(
            x1,
            x2,
            x3,
            x4,
            p,
            tail,
        ),
{
    let d1 = dec_rep(x1 as int);
    let d2 = dec_rep(x2 as int);
    let d3 = dec_rep(x3 as int);
    let d4 = dec_rep(x4 as int);
    let d5 = dec_rep(p as int);
    let dot = seq![46u8];
    let t = tag_ip4();
    let tt = tag_tcp();
    let r4 = tt + (d5 + tail);
    let r3 = dot + (d4 + r4);
    let r2 = dot + (d3 + r3);
    let r1 = dot + (d2 + r2);
    assert(flat_rep(x1, x2, x3, x4, p, tail) == (t + d1) + r1);
    lemma_seq_assoc(t + d1, dot, d2 + r2);
    lemma_seq_assoc(t + d1 + dot, d2, r2);
    lemma_seq_assoc(t + d1 + dot + d2, dot, d3 + r3);
    lemma_seq_assoc(t + d1 + dot + d2 + dot, d3, r3);
    lemma_seq_assoc(t + d1 + dot + d2 + dot + d3, dot, d4 + r4);
    lemma_seq_assoc(t + d1 + dot + d2 + dot + d3 + dot, d4, r4);
    lemma_seq_assoc(t + d1 + dot + d2 + dot + d3 + dot + d4, tt, d5 + tail);
    lemma_seq_assoc(t + d1 + dot + d2 + dot + d3 + dot + d4 + tt, d5, tail);
    assert(seg_rep(Segment::Tcp(p)) + tail == (tt + d5) + tail);
    lemma_seq_assoc(tt, d5, tail);
    lemma_seq_assoc(seg_rep(Segment::Ip4(x1, x2, x3, x4)), tt, d5 + tail);
}

/// Parsing the rendering of a well-formed address yields that address back:
/// `render` loses nothing.
pub proof fn lemma_parse_render(a: Seq<Segment>)
    requires
        wf_segs(a),
    ensures
        parse_spec(render_segs(a)) == Some(a),
{
    let t1 = a.drop_first();
    let s = render_segs(a);
    assert(s == seg_rep(a[0]) + render_segs(t1));
    assert(t1[0] == a[1]);
    assert(render_segs(t1) == seg_rep(a[1]) + render_segs(t1.drop_first()));
    match (a[0], a[1]) {
        (Segment::Ip4(x1, x2, x3, x4), Segment::Tcp(p)) => {
            if a.len() == 2 {
                assert(t1.drop_first() =~= Seq::<Segment>::empty());
                assert(render_segs(t1.drop_first()) =~= Seq::<u8>::empty());
                lemma_parse_render_core(x1, x2, x3, x4, p, Seq::<u8>::empty());
                lemma_flat_shape(x1, x2, x3, x4, p, Seq::<u8>::empty());
                assert(s == flat_rep(x1, x2, x3, x4, p, Seq::<u8>::empty()));
                assert(a =~= seq![Segment::Ip4(x1, x2, x3, x4), Segment::Tcp(p)]);
            } else {
                let t2 = t1.drop_first();
                assert(t2[0] == a[2]);
                assert(a[2] is Ws);
                assert(render_segs(t2) == seg_rep(a[2]) + render_segs(t2.drop_first()));
                assert(t2.drop_first() =~= Seq::<Segment>::empty());
                assert(render_segs(t2.drop_first()) =~= Seq::<u8>::empty());
                lemma_parse_render_core(x1, x2, x3, x4, p, tag_ws());
                lemma_flat_shape(x1, x2, x3, x4, p, tag_ws());
                assert(tag_ws() + Seq::<u8>::empty() =~= tag_ws());
                assert(s == flat_rep(x1, x2, x3, x4, p, tag_ws()));
                assert(a =~= seq![Segment::Ip4(x1, x2, x3, x4), Segment::Tcp(p)].push(Segment::Ws));
            }
        },
        _ => {},
    }
}

/// The rendering of the two- or three-segment address built from explicit
/// components is its right-nested canonical form.
proof fn lemma_render_flat(x1: u8, x2: u8, x3: u8, x4: u8, p: u16, ws: bool)
    ensures
        ({
            let head = seq![Segment::Ip4(x1, x2, x3, x4), Segment::Tcp(p)];
            if ws {
                render_segs(head.push(Segment::Ws)) == flat_rep(x1, x2, x3, x4, p, tag_ws())
            } else {
                render_segs(head) == flat_rep(x1, x2, x3, x4, p, Seq::<u8>::empty())
            }
        }),
{
    let head = seq![Segment::Ip4(x1, x2, x3, x4), Segment::Tcp(p)];
    let a = if ws {
        head.push(Segment::Ws)
    } else {
        head
    };
    let t1 = a.drop_first();
    assert(a[0] == Segment::Ip4(x1, x2, x3, x4));
    assert(t1[0] == Segment::Tcp(p));
    assert(render_segs(a) == seg_rep(a[0]) + render_segs(t1));
    assert(render_segs(t1) == seg_rep(t1[0]) + render_segs(t1.drop_first()));
    if ws {
        let t2 = t1.drop_first();
        assert(t2[0] == Segment::Ws);
        assert(render_segs(t2) == seg_rep(t2[0]) + render_segs(t2.drop_first()));
        assert(t2.drop_first() =~= Seq::<Segment>::empty());
        assert(render_segs(t2.drop_first()) =~= Seq::<u8>::empty());
        assert(tag_ws() + Seq::<u8>::empty() =~= tag_ws());
        lemma_flat_shape(x1, x2, x3, x4, p, tag_ws());
    } else {
        assert(t1.drop_first() =~= Seq::<Segment>::empty());
        assert(render_segs(t1.drop_first()) =~= Seq::<u8>::empty());
        lemma_flat_shape(x1, x2, x3, x4, p, Seq::<u8>::empty());
    }
}

/// Rendering the address that a string parses to yields that string back:
/// `parse` accepts only the canonical form, so the round trip is exact, with
/// no "modulo formatting" slack.
#[verifier::spinoff_prover]
#[verifier::rlimit(80)]
pub proof fn lemma_render_parse(s: Seq<u8>, a: Seq<Segment>)
    requires
        parse_spec(s) == Some(a),
    ensures
        wf_segs(a),
        render_segs(a) == s,
{
    let len = s.len() as int;
    assert(s.len() >= 5 && s.subrange(0, 5) == tag_ip4());
    match parse_num_at(s, 5, 255) {
        None => {},
        Some((v1, i1)) => {
            assert(i1 < len && s[i1] == 46);
            match parse_num_at(s, i1 + 1, 255) {
                None => {},
                Some((v2, i2)) => {
                    assert(i2 < len && s[i2] == 46);
                    match parse_num_at(s, i2 + 1, 255) {
                        None => {},
                        Some((v3, i3)) => {
                            assert(i3 < len && s[i3] == 46);
                            match parse_num_at(s, i3 + 1, 255) {
                                None => {},
                                Some((v4, i4)) => {
                                    assert(i4 + 5 <= len && s.subrange(i4, i4 + 5) == tag_tcp());
                                    match parse_num_at(s, i4 + 5, 65535) {
                                        None => {},
                                        Some((p, i5)) => {
                                            lemma_render_parse_tail(
                                                s,
                                                a,
                                                v1,
                                                i1,
                                                v2,
                                                i2,
                                                v3,
                                                i3,
                                                v4,
                                                i4,
                                                p,
                                                i5,
                                            );
                                        },
                                    }
                                },
                            }
                        },
                    }
                },
            }
        },
    }
}

/// The gluing step of `lemma_render_parse`: with every component of the
/// parse in hand, the string is the canonical form of its address.
#[verifier::spinoff_prover]
#[verifier::rlimit(80)]
proof fn lemma_render_parse_tail(
    s: Seq<u8>,
    a: Seq<Segment>,
    v1: int,
    i1: int,
    v2: int,
    i2: int,
    v3: int,
    i3: int,
    v4: int,
    i4: int,
    p: int,
    i5: int,
)
    requires
        parse_spec(s) == Some(a),
        parse_num_at(s, 5, 255) == Some((v1, i1)),
        i1 < s.len() && s[i1] == 46,
        parse_num_at(s, i1 + 1, 255) == Some((v2, i2)),
        i2 < s.len() && s[i2] == 46,
        parse_num_at(s, i2 + 1, 255) == Some((v3, i3)),
        i3 < s.len() && s[i3] == 46,
        parse_num_at(s, i3 + 1, 255) == Some((v4, i4)),
        i4 + 5 <= s.len() && s.subrange(i4, i4 + 5) == tag_tcp(),
        parse_num_at(s, i4 + 5, 65535) == Some((p, i5)),
        s.len() >= 5 && s.subrange(0, 5) == tag_ip4(),
    ensures
        wf_segs(a),
        render_segs(a) == s,
{
    let len = s.len() as int;
    lemma_digits_end_bounds(s, 5);
    lemma_digits_end_bounds(s, i1 + 1);
    lemma_digits_end_bounds(s, i2 + 1);
    lemma_digits_end_bounds(s, i3 + 1);
    lemma_digits_end_bounds(s, i4 + 5);
    let c1 = s.subrange(5, i1);
    let c2 = s.subrange(i1 + 1, i2);
    let c3 = s.subrange(i2 + 1, i3);
    let c4 = s.subrange(i3 + 1, i4);
    let c5 = s.subrange(i4 + 5, i5);
    assert(canonical_chunk(c1) && chunk_val(c1) == v1 && 0 <= v1 <= 255) by {
        lemma_chunk_val_bounds(c1);
    }
    assert(canonical_chunk(c2) && chunk_val(c2) == v2 && 0 <= v2 <= 255) by {
        lemma_chunk_val_bounds(c2);
    }
    assert(canonical_chunk(c3) && chunk_val(c3) == v3 && 0 <= v3 <= 255) by {
        lemma_chunk_val_bounds(c3);
    }
    assert(canonical_chunk(c4) && chunk_val(c4) == v4 && 0 <= v4 <= 255) by {
        lemma_chunk_val_bounds(c4);
    }
    assert(canonical_chunk(c5) && chunk_val(c5) == p && 0 <= p <= 65535) by {
        lemma_chunk_val_bounds(c5);
    }
    lemma_canonical_dec_rep(c1);
    lemma_canonical_dec_rep(c2);
    lemma_canonical_dec_rep(c3);
    lemma_canonical_dec_rep(c4);
    lemma_canonical_dec_rep(c5);
    let x1 = v1 as u8;
    let x2 = v2 as u8;
    let x3 = v3 as u8;
    let x4 = v4 as u8;
    let pp = p as u16;
    assert(dec_rep(x1 as int) == c1 && dec_rep(x2 as int) == c2 && dec_rep(x3 as int) == c3
        && dec_rep(x4 as int) == c4 && dec_rep(pp as int) == c5);
    let dot1 = s.subrange(i1, i1 + 1);
    let dot2 = s.subrange(i2, i2 + 1);
    let dot3 = s.subrange(i3, i3 + 1);
    assert(dot1 =~= seq![46u8]);
    assert(dot2 =~= seq![46u8]);
    assert(dot3 =~= seq![46u8]);
    let head = seq![Segment::Ip4(x1, x2, x3, x4), Segment::Tcp(pp)];
    let tailw = if i5 == len {
        Seq::<u8>::empty()
    } else {
        tag_ws()
    };
    if i5 == len {
        assert(a == head);
        assert(s.subrange(i5, len) =~= Seq::<u8>::empty());
        lemma_render_flat(x1, x2, x3, x4, pp, false);
    } else {
        assert(i5 + 3 == len && s.subrange(i5, len) == tag_ws());
        assert(a == head.push(Segment::Ws));
        lemma_render_flat(x1, x2, x3, x4, pp, true);
    }
    assert(tailw == s.subrange(i5, len));
    // Glue the subranges back together, innermost first, matching the
    // right-nested shape of the canonical form.
    lemma_subrange_join(s, i4 + 5, i5, len);
    assert(dec_rep(pp as int) + tailw == s.subrange(i4 + 5, len));
    lemma_subrange_join(s, i4, i4 + 5, len);
    assert(tag_tcp() + (dec_rep(pp as int) + tailw) == s.subrange(i4, len));
    lemma_subrange_join(s, i3 + 1, i4, len);
    assert(dec_rep(x4 as int) + (tag_tcp() + (dec_rep(pp as int) + tailw)) == s.subrange(
        i3 + 1,
        len,
    ));
    lemma_subrange_join(s, i3, i3 + 1, len);
    lemma_subrange_join(s, i2 + 1, i3, len);
    lemma_subrange_join(s, i2, i2 + 1, len);
    lemma_subrange_join(s, i1 + 1, i2, len);
    lemma_subrange_join(s, i1, i1 + 1, len);
    lemma_subrange_join(s, 5, i1, len);
    assert(dec_rep(x1 as int) + s.subrange(i1, len) == s.subrange(5, len));
    lemma_subrange_join(s, 0, 5, len);
    assert(tag_ip4() + s.subrange(5, len) == s.subrange(0, len));
    lemma_seq_assoc(tag_ip4(), dec_rep(x1 as int), s.subrange(i1, len));
    assert(s.subrange(0, len) =~= s);
    assert(flat_rep(x1, x2, x3, x4, pp, tailw) == s);
}

impl Addr {
    /// Structural equality of two addresses.
    pub fn same_as(&self, other: &Addr) -> (r: bool)
        ensures
            r == (self@ == other@),
    {
        if self.segs.len() != other.segs.len() {
            return false;
        }
        let mut i: usize = 0;
        while i < self.segs.len()
            invariant
                i <= self.segs.len() == other.segs.len(),
                forall|k: int| 0 <= k < i ==> self@[k] == other@[k],
            decreases self.segs.len() - i,
        {
            if self.segs[i] != other.segs[i] {
                return false;
            }
            i = i + 1;
        }
        proof {
            assert(self@ =~= other@);
        }
        true
    }

    /// The TCP port segment's value.
    pub fn port(&self) -> (r: u16)
        requires
            self.wf(),
        ensures
            self@[1] == Segment::Tcp(r),
    {
        match self.segs[1] {
            Segment::Tcp(p) => p,
            _ => {
                proof {
                    assert(false);
                }
                0
            },
        }
    }

    /// Whether the address asks for "any port", to be resolved on listen.
    pub fn is_wildcard_port(&self) -> (r: bool)
        requires
            self.wf(),
        ensures
            r == (self@[1] == Segment::Tcp(0u16)),
    {
        match self.segs[1] {
            Segment::Tcp(p) => p == 0,
            _ => {
                proof {
                    assert(false);
                }
                false
            },
        }
    }

    /// Whether the address selects the WebSocket carrier.
    pub fn uses_ws(&self) -> (r: bool)
        requires
            self.wf(),
        ensures
            r == (self@.len() == 3),
    {
        self.segs.len() == 3
    }
}

/// A structural copy of an address.
pub fn copy_addr(a: &Addr) -> (r: Addr)
    ensures
        r@ == a@,
{
    let mut segs: Vec<Segment> = Vec::new();
    let mut i: usize = 0;
    while i < a.segs.len()
        invariant
            i <= a.segs.len(),
            segs@ == a@.subrange(0, i as int),
        decreases a.segs.len() - i,
    {
        segs.push(a.segs[i]);
        proof {
            assert(a@.subrange(0, i as int + 1) =~= a@.subrange(0, i as int).push(a@[i as int]));
        }
        i = i + 1;
    }
    proof {
        assert(a@.subrange(0, a@.len() as int) =~= a@);
    }
    Addr { segs }
}

/// A copy of the address whose port segment is replaced by the concrete
/// port a listener reports once bound.
pub fn with_resolved_port(a: &Addr, port: u16) -> (r: Addr)
    requires
        a.wf(),
    ensures
        r@ == a@.update(1, Segment::Tcp(port)),
        r.wf(),
{
    let mut segs: Vec<Segment> = Vec::new();
    segs.push(a.segs[0]);
    segs.push(Segment::Tcp(port));
    if a.segs.len() == 3 {
        segs.push(a.segs[2]);
    }
    let r = Addr { segs };
    proof {
        assert(r@ =~= a@.update(1, Segment::Tcp(port)));
    }
    r
}

} // verus!
