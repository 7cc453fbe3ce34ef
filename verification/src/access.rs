//! The agent API's access key and the addresses it is reachable on.

use vstd::prelude::*;
use crate::text::{decimal, push_decimal, string_of};

verus! {

/// The lower-case hexadecimal digit for `n < 16`.
pub open spec fn hex_digit(n: int) -> char {
    if n < 10 {
        ((48 + n) as u8) as char
    } else {
        ((87 + n) as u8) as char
    }
}

/// Each byte of `b` as two lower-case hexadecimal digits.
pub open spec fn hex(b: Seq<u8>) -> Seq<char>
    decreases b.len(),
{
    if b.len() == 0 {
        seq![]
    } else {
        hex(b.drop_last()) + seq![
            hex_digit((b.last() / 16) as int),
            hex_digit((b.last() % 16) as int),
        ]
    }
}

fn hex_digit_exec(n: u8) -> (r: char)
    requires
        n < 16,
    ensures
        r == hex_digit(n as int),
{
    if n < 10 {
        (48u8 + n) as char
    } else {
        (87u8 + n) as char
    }
}

/// `bytes` as lower-case hexadecimal, two digits per byte.
pub fn hex_encode(bytes: &Vec<u8>) -> (r: String)
    ensures
        r@ == hex(bytes@),
{
    let mut out: Vec<char> = Vec::new();
    let mut i: usize = 0;
    assert(bytes@.take(0) =~= Seq::<u8>::empty());
    while i < bytes.len()
        invariant
            i <= bytes@.len(),
            out@ == hex(bytes@.take(i as int)),
        decreases bytes@.len() - i,
    {
        let b = bytes[i];
        out.push(hex_digit_exec(b / 16));
        out.push(hex_digit_exec(b % 16));
        assert(bytes@.take(i + 1).drop_last() =~= bytes@.take(i as int));
        assert(out@ =~= hex(bytes@.take(i + 1)));
        i += 1;
    }
    assert(bytes@.take(i as int) =~= bytes@);
    string_of(&out)
}

/// Fills `buf` from the operating system's random source with
/// `getrandom::fill`; `false` when that source is unavailable. Claims only
/// that the length is unchanged: the bytes are random.
#[verifier::external_body]
fn fill_random(buf: &mut Vec<u8>) -> (ok: bool)
    ensures
        final(buf)@.len() == old(buf)@.len(),
{
    getrandom::fill(buf.as_mut_slice()).is_ok()
}

/// The key made from a fill of the random buffer: the buffer in hex when
/// the fill succeeded, and no key when it did not.
pub fn key_from_fill(filled: bool, buf: &Vec<u8>) -> (r: Option<String>)
    ensures
        filled ==> (r matches Some(k) && k@ == hex(buf@)),
        !filled ==> r is None,
{
    if filled {
        Some(hex_encode(buf))
    } else {
        None
    }
}

/// A fresh API key: 24 random bytes as 48 hexadecimal digits. `None` when
/// the operating system has no random source, since there is no sensible
/// weaker key to fall back to. Whether the source answers is the
/// operating system's; what is made of its answer is `key_from_fill`.
pub fn generate_key() -> (r: Option<String>)
    ensures
        r matches Some(k) ==> exists|b: Seq<u8>| b.len() == 24 && k@ == hex(b),
{
    let mut buf: Vec<u8> = vec![0u8; 24];
    let filled = fill_random(&mut buf);
    let r = key_from_fill(filled, &buf);
    assert(r matches Some(k) ==> buf@.len() == 24 && k@ == hex(buf@));
    r
}

/// An IPv4 address as its four octets.
pub type Ipv4 = (u8, u8, u8, u8);

/// Whether an address is in a private range (10/8, 172.16/12, 192.168/16).
pub open spec fn is_private(a: Ipv4) -> bool {
    a.0 == 10 || (a.0 == 172 && 16 <= a.1 && a.1 <= 31) || (a.0 == 192 && a.1 == 168)
}

/// Whether an address could be offered to another device: not loopback
/// (127/8) and not unspecified (0.0.0.0).
pub open spec fn is_offerable(a: Ipv4) -> bool {
    a.0 != 127 && !(a.0 == 0 && a.1 == 0 && a.2 == 0 && a.3 == 0)
}

/// The offerable addresses among `probed`, each once, in the order first
/// seen.
pub open spec fn offerable(probed: Seq<Ipv4>) -> Seq<Ipv4>
    decreases probed.len(),
{
    if probed.len() == 0 {
        seq![]
    } else {
        let r = offerable(probed.drop_last());
        let x = probed.last();
        if is_offerable(x) && !r.contains(x) {
            r.push(x)
        } else {
            r
        }
    }
}

/// The addresses of `s` that are (or are not) private, in order.
pub open spec fn with_privacy(s: Seq<Ipv4>, private: bool) -> Seq<Ipv4>
    decreases s.len(),
{
    if s.len() == 0 {
        seq![]
    } else {
        let r = with_privacy(s.drop_last(), private);
        if is_private(s.last()) == private {
            r.push(s.last())
        } else {
            r
        }
    }
}

/// An address in dotted-quad form.
pub open spec fn dotted(a: Ipv4) -> Seq<char> {
    decimal(a.0 as nat) + seq!['.'] + decimal(a.1 as nat) + seq!['.'] + decimal(a.2 as nat)
        + seq!['.'] + decimal(a.3 as nat)
}

/// The addresses another device could reach this machine on, best first:
/// private ranges before the rest, otherwise in the order found.
pub open spec fn spec_rank_addresses(probed: Seq<Ipv4>) -> Seq<Seq<char>> {
    ranked(probed).map_values(|a: Ipv4| dotted(a))
}

/// The offerable addresses of `probed`, private ranges first.
pub open spec fn ranked(probed: Seq<Ipv4>) -> Seq<Ipv4> {
    let o = offerable(probed);
    with_privacy(o, true) + with_privacy(o, false)
}

fn contains_addr(v: &Vec<Ipv4>, x: Ipv4) -> (r: bool)
    ensures
        r == v@.contains(x),
{
    let mut i: usize = 0;
    while i < v.len()
        invariant
            i <= v@.len(),
            forall|k: int| 0 <= k < i ==> v@[k] != x,
        decreases v@.len() - i,
    {
        if v[i].0 == x.0 && v[i].1 == x.1 && v[i].2 == x.2 && v[i].3 == x.3 {
            assert(v@[i as int] == x);
            return true;
        }
        i += 1;
    }
    false
}

fn dotted_exec(a: Ipv4) -> (r: Vec<char>)
    ensures
        r@ == dotted(a),
{
    let mut out: Vec<char> = Vec::new();
    push_decimal(&mut out, a.0 as u64);
    out.push('.');
    push_decimal(&mut out, a.1 as u64);
    out.push('.');
    push_decimal(&mut out, a.2 as u64);
    out.push('.');
    push_decimal(&mut out, a.3 as u64);
    assert(out@ =~= dotted(a));
    out
}

/// Order the addresses the routing table gave for each probe: drop loopback,
/// unspecified and repeated ones, put private ranges first (stable
/// otherwise), and write each in dotted-quad form.
pub fn rank_addresses(probed: &Vec<Ipv4>) -> (r: Vec<String>)
    ensures
        r.deep_view() == spec_rank_addresses(probed@),
{
    let mut found: Vec<Ipv4> = Vec::new();
    let mut i: usize = 0;
    assert(probed@.take(0) =~= Seq::<Ipv4>::empty());
    while i < probed.len()
        invariant
            i <= probed@.len(),
            found@ == offerable(probed@.take(i as int)),
        decreases probed@.len() - i,
    {
        let x = probed[i];
        assert(probed@.take(i + 1).drop_last() =~= probed@.take(i as int));
        let usable = x.0 != 127 && !(x.0 == 0 && x.1 == 0 && x.2 == 0 && x.3 == 0);
        if usable && !contains_addr(&found, x) {
            found.push(x);
        }
        i += 1;
    }
    assert(probed@.take(i as int) =~= probed@);
    let ghost o = found@;
    let mut ordered: Vec<Ipv4> = Vec::new();
    let mut pass: usize = 0;
    while pass < 2
        invariant
            pass <= 2,
            o == found@,
            pass == 0 ==> ordered@.len() == 0,
            pass == 1 ==> ordered@ == with_privacy(o, true),
            pass == 2 ==> ordered@ == with_privacy(o, true) + with_privacy(o, false),
        decreases 2 - pass,
    {
        let want = pass == 0;
        let ghost base = ordered@;
        let mut k: usize = 0;
        assert(o.take(0) =~= Seq::<Ipv4>::empty());
        assert(base + with_privacy(o.take(0), want) =~= base);
        while k < found.len()
            invariant
                k <= found@.len(),
                o == found@,
                ordered@ == base + with_privacy(o.take(k as int), want),
            decreases found@.len() - k,
        {
            let x = found[k];
            assert(o.take(k + 1).drop_last() =~= o.take(k as int));
            let private = x.0 == 10 || (x.0 == 172 && 16 <= x.1 && x.1 <= 31) || (x.0 == 192 && x.1
                == 168);
            if private == want {
                ordered.push(x);
                assert(ordered@ =~= base + with_privacy(o.take(k + 1), want));
            }
            k += 1;
        }
        assert(o.take(k as int) =~= o);
        if pass == 0 {
            assert(ordered@ =~= with_privacy(o, true));
        }
        pass += 1;
    }
    let mut out: Vec<String> = Vec::new();
    let ghost want = ordered@.map_values(|a: Ipv4| dotted(a));
    let mut j: usize = 0;
    while j < ordered.len()
        invariant
            j <= ordered@.len(),
            want == ordered@.map_values(|a: Ipv4| dotted(a)),
            out.deep_view() == want.take(j as int),
        decreases ordered@.len() - j,
    {
        let s = string_of(dotted_exec(ordered[j]).as_slice());
        let ghost before = out.deep_view();
        out.push(s);
        assert(out.deep_view() =~= before.push(s@));
        assert(want.take(j + 1) =~= want.take(j as int).push(want[j as int]));
        j += 1;
    }
    assert(want.take(j as int) =~= want);
    out
}

} // verus!
