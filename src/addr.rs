//! IPv4 addresses and client transport endpoints, held as plain values.

use vstd::prelude::*;

verus! {

/// An IPv4 address given by its four octets, most significant first.
#[derive(Clone, Copy, Debug, PartialEq, Eq, Structural)]
pub struct Ipv4(pub u8, pub u8, pub u8, pub u8);

/// The transport source of a datagram: the key under which a client's
/// lease is tracked.
#[derive(Clone, Copy, Debug, PartialEq, Eq, Structural)]
pub struct ClientAddr {
    pub ip: Ipv4,
    pub port: u16,
}

/// The ASCII digit for `d`, which is below ten.
pub open spec fn digit(d: int) -> u8 {
    (d + 48) as u8
}

/// An ASCII decimal digit.
pub open spec fn is_digit(b: u8) -> bool {
    48 <= b <= 57
}

/// The decimal text of `n`, without leading zeros.
pub open spec fn dec_text(n: u8) -> Seq<u8> {
    if n < 10 {
        seq![digit(n as int)]
    } else if n < 100 {
        seq![digit(n as int / 10), digit(n as int % 10)]
    } else {
        seq![digit(n as int / 100), digit((n as int / 10) % 10), digit(n as int % 10)]
    }
}

/// The decimal digits of an octet and the length of its text.
pub proof fn lemma_octet_digits(n: u8)
    ensures
        n as int == 100 * (n as int / 100) + 10 * ((n as int / 10) % 10) + n as int % 10,
        n < 10 ==> dec_text(n).len() == 1,
        10 <= n < 100 ==> dec_text(n).len() == 2,
        100 <= n ==> dec_text(n).len() == 3,
{
    let x = n as int;
    assert(x == 100 * (x / 100) + 10 * ((x / 10) % 10) + x % 10) by (nonlinear_arith)
        requires
            0 <= x < 256,
    ;
}

/// Reads the decimal text of an octet from `s[lo..hi]`: `Some(n)` exactly
/// when that text is `dec_text(n)`.
pub fn parse_octet(s: &[u8], lo: usize, hi: usize) -> (r: Option<u8>)
    requires
        lo <= hi <= s@.len(),
    ensures
        forall|n: u8| (r == Some(n)) <==> s@.subrange(lo as int, hi as int) == #[trigger] dec_text(n),
{
    let ghost t = s@.subrange(lo as int, hi as int);
    let len = hi - lo;
    if len == 1 {
        let d0 = s[lo];
        if 48 <= d0 && d0 <= 57 {
            let v: u8 = d0 - 48;
            proof {
                assert(t =~= dec_text(v));
                assert forall|n: u8| t == #[trigger] dec_text(n) implies n == v by {
                    assert(t[0] == dec_text(n)[0]);
                }
            }
            return Some(v);
        }
        proof {
            assert forall|n: u8| t != #[trigger] dec_text(n) by {
                if t == dec_text(n) {
                    assert(t[0] == dec_text(n)[0]);
                }
            }
        }
        None
    } else if len == 2 {
        let d0 = s[lo];
        let d1 = s[lo + 1];
        if 49 <= d0 && d0 <= 57 && 48 <= d1 && d1 <= 57 {
            let v: u8 = (d0 - 48) * 10 + (d1 - 48);
            proof {
                assert(t =~= dec_text(v));
                assert forall|n: u8| t == #[trigger] dec_text(n) implies n == v by {
                    assert(t[0] == dec_text(n)[0]);
                    assert(t[1] == dec_text(n)[1]);
                }
            }
            return Some(v);
        }
        proof {
            assert forall|n: u8| t != #[trigger] dec_text(n) by {
                if t == dec_text(n) {
                    lemma_octet_digits(n);
                    assert(t[0] == dec_text(n)[0]);
                    assert(t[1] == dec_text(n)[1]);
                }
            }
        }
        None
    } else if len == 3 {
        let d0 = s[lo];
        let d1 = s[lo + 1];
        let d2 = s[lo + 2];
        if 49 <= d0 && d0 <= 57 && 48 <= d1 && d1 <= 57 && 48 <= d2 && d2 <= 57 {
            let w: u16 = (d0 - 48) as u16 * 100 + (d1 - 48) as u16 * 10 + (d2 - 48) as u16;
            if w <= 255 {
                let v = w as u8;
                proof {
                    assert(t =~= dec_text(v));
                    assert forall|n: u8| t == #[trigger] dec_text(n) implies n == v by {
                        assert(t[0] == dec_text(n)[0]);
                        assert(t[1] == dec_text(n)[1]);
                        assert(t[2] == dec_text(n)[2]);
                    }
                }
                return Some(v);
            }
        }
        proof {
            assert forall|n: u8| t != #[trigger] dec_text(n) by {
                if t == dec_text(n) {
                    lemma_octet_digits(n);
                    assert(t[0] == dec_text(n)[0]);
                    assert(t[1] == dec_text(n)[1]);
                    assert(t[2] == dec_text(n)[2]);
                }
            }
        }
        None
    } else {
        proof {
            assert forall|n: u8| t != #[trigger] dec_text(n) by {
                if t == dec_text(n) {
                    assert(t.len() == dec_text(n).len());
                }
            }
        }
        None
    }
}

/// The dotted-decimal text of an address, as in `192.168.1.100`.
pub open spec fn ipv4_text(a: Ipv4) -> Seq<u8> {
    dec_text(a.0) + seq![46u8] + dec_text(a.1) + seq![46u8] + dec_text(a.2) + seq![46u8] + dec_text(a.3)
}

/// The decimal text of an octet has one to three digits.
pub proof fn lemma_dec_text_digits(n: u8)
    ensures
        1 <= dec_text(n).len() <= 3,
        forall|k: int| 0 <= k < dec_text(n).len() ==> is_digit(#[trigger] dec_text(n)[k]),
{
}

/// Where the pieces of an address's text stand when `s[lo..hi]` is that text.
pub proof fn lemma_text_shape(s: Seq<u8>, lo: int, hi: int, a: Ipv4)
    requires
        0 <= lo <= hi <= s.len(),
        s.subrange(lo, hi) == ipv4_text(a),
    ensures
        ({
            let q1 = lo + dec_text(a.0).len();
            let q2 = q1 + 1 + dec_text(a.1).len();
            let q3 = q2 + 1 + dec_text(a.2).len();
            &&& q3 + 1 + dec_text(a.3).len() == hi
            &&& s[q1] == 46 && s[q2] == 46 && s[q3] == 46
            &&& forall|k: int| lo <= k < q1 ==> #[trigger] s[k] != 46
            &&& forall|k: int| q1 < k < q2 ==> #[trigger] s[k] != 46
            &&& forall|k: int| q2 < k < q3 ==> #[trigger] s[k] != 46
            &&& s.subrange(lo, q1) == dec_text(a.0)
            &&& s.subrange(q1 + 1, q2) == dec_text(a.1)
            &&& s.subrange(q2 + 1, q3) == dec_text(a.2)
            &&& s.subrange(q3 + 1, hi) == dec_text(a.3)
        }),
{
    let t = ipv4_text(a);
    let (d0, d1, d2, d3) = (dec_text(a.0), dec_text(a.1), dec_text(a.2), dec_text(a.3));
    lemma_dec_text_digits(a.0);
    lemma_dec_text_digits(a.1);
    lemma_dec_text_digits(a.2);
    lemma_dec_text_digits(a.3);
    let q1 = lo + d0.len();
    let q2 = q1 + 1 + d1.len();
    let q3 = q2 + 1 + d2.len();
    let dot = seq![46u8];
    assert(t == d0 + dot + d1 + dot + d2 + dot + d3);
    assert(t.len() == d0.len() + d1.len() + d2.len() + d3.len() + 3);
    assert forall|k: int| 0 <= k < t.len() implies s[lo + k] == #[trigger] t[k] by {
        assert(s.subrange(lo, hi)[k] == t[k]);
    }
    assert(t[q1 - lo] == 46);
    assert(t[q2 - lo] == 46);
    assert(t[q3 - lo] == 46);
    assert(s[lo + (q1 - lo)] == t[q1 - lo]);
    assert(s[lo + (q2 - lo)] == t[q2 - lo]);
    assert(s[lo + (q3 - lo)] == t[q3 - lo]);
    assert forall|k: int| lo <= k < q1 implies #[trigger] s[k] != 46 by {
        assert(t[k - lo] == d0[k - lo]);
        assert(s[lo + (k - lo)] == t[k - lo]);
    }
    assert forall|k: int| q1 < k < q2 implies #[trigger] s[k] != 46 by {
        assert(t[k - lo] == d1[k - q1 - 1]);
        assert(s[lo + (k - lo)] == t[k - lo]);
    }
    assert forall|k: int| q2 < k < q3 implies #[trigger] s[k] != 46 by {
        assert(t[k - lo] == d2[k - q2 - 1]);
        assert(s[lo + (k - lo)] == t[k - lo]);
    }
    assert(s.subrange(lo, q1) =~= d0) by {
        assert forall|k: int| 0 <= k < d0.len() implies s.subrange(lo, q1)[k] == d0[k] by {
            assert(t[k] == d0[k]);
            assert(s[lo + k] == t[k]);
        }
    }
    assert(s.subrange(q1 + 1, q2) =~= d1) by {
        assert forall|k: int| 0 <= k < d1.len() implies s.subrange(q1 + 1, q2)[k] == d1[k] by {
            assert(t[q1 + 1 - lo + k] == d1[k]);
            assert(s[lo + (q1 + 1 - lo + k)] == t[q1 + 1 - lo + k]);
        }
    }
    assert(s.subrange(q2 + 1, q3) =~= d2) by {
        assert forall|k: int| 0 <= k < d2.len() implies s.subrange(q2 + 1, q3)[k] == d2[k] by {
            assert(t[q2 + 1 - lo + k] == d2[k]);
            assert(s[lo + (q2 + 1 - lo + k)] == t[q2 + 1 - lo + k]);
        }
    }
    assert(s.subrange(q3 + 1, hi) =~= d3) by {
        assert forall|k: int| 0 <= k < d3.len() implies s.subrange(q3 + 1, hi)[k] == d3[k] by {
            assert(t[q3 + 1 - lo + k] == d3[k]);
            assert(s[lo + (q3 + 1 - lo + k)] == t[q3 + 1 - lo + k]);
        }
    }
}

/// The first index in `lo..hi` where `s` holds `b`, or `hi`.
pub fn find_byte(s: &[u8], b: u8, lo: usize, hi: usize) -> (r: usize)
    requires
        lo <= hi <= s@.len(),
    ensures
        lo <= r <= hi,
        forall|k: int| lo <= k < r ==> #[trigger] s@[k] != b,
        r < hi ==> s@[r as int] == b,
{
    let mut i = lo;
    while i < hi
        invariant
            lo <= i <= hi,
            hi <= s@.len(),
            forall|k: int| lo <= k < i ==> #[trigger] s@[k] != b,
        decreases hi - i,
    {
        if s[i] == b {
            return i;
        }
        i = i + 1;
    }
    hi
}

/// Reads a dotted-decimal address from `s[lo..hi]`: `Some(a)` exactly when
/// that text is `ipv4_text(a)` (four octets in decimal, without leading
/// zeros, separated by dots).
pub fn parse_ipv4(s: &[u8], lo: usize, hi: usize) -> (r: Option<Ipv4>)
    requires
        lo <= hi <= s@.len(),
    ensures
        forall|a: Ipv4| (r == Some(a)) <==> s@.subrange(lo as int, hi as int) == #[trigger] ipv4_text(a),
{
    let ghost t = s@.subrange(lo as int, hi as int);
    let dot1 = find_byte(s, 46, lo, hi);
    if dot1 < hi {
        let dot2 = find_byte(s, 46, dot1 + 1, hi);
        if dot2 < hi {
            let dot3 = find_byte(s, 46, dot2 + 1, hi);
            if dot3 < hi {
                let o0 = parse_octet(s, lo, dot1);
                let o1 = parse_octet(s, dot1 + 1, dot2);
                let o2 = parse_octet(s, dot2 + 1, dot3);
                let o3 = parse_octet(s, dot3 + 1, hi);
                if o0.is_some() && o1.is_some() && o2.is_some() && o3.is_some() {
                    let a = Ipv4(o0.unwrap(), o1.unwrap(), o2.unwrap(), o3.unwrap());
                    proof {
                        assert(t =~= s@.subrange(lo as int, dot1 as int) + seq![46u8] + s@.subrange(dot1 + 1, dot2 as int)
                            + seq![46u8] + s@.subrange(dot2 + 1, dot3 as int) + seq![46u8] + s@.subrange(dot3 + 1, hi as int));
                        assert(t == ipv4_text(a));
                        assert forall|b: Ipv4| t == #[trigger] ipv4_text(b) implies b == a by {
                            lemma_text_shape(s@, lo as int, hi as int, b);
                        }
                    }
                    return Some(a);
                }
                proof {
                    assert forall|b: Ipv4| t != #[trigger] ipv4_text(b) by {
                        if t == ipv4_text(b) {
                            lemma_text_shape(s@, lo as int, hi as int, b);
                        }
                    }
                }
                return None;
            }
        }
    }
    proof {
        assert forall|b: Ipv4| t != #[trigger] ipv4_text(b) by {
            if t == ipv4_text(b) {
                lemma_text_shape(s@, lo as int, hi as int, b);
            }
        }
    }
    None
}

/// Appends the decimal text of `n`.
pub fn write_octet(out: &mut Vec<u8>, n: u8)
    ensures
        final(out)@ == old(out)@ + dec_text(n),
{
    if n < 10 {
        out.push(n + 48);
    } else if n < 100 {
        out.push(n / 10 + 48);
        out.push(n % 10 + 48);
    } else {
        out.push(n / 100 + 48);
        out.push((n / 10) % 10 + 48);
        out.push(n % 10 + 48);
    }
    assert(final(out)@ =~= old(out)@ + dec_text(n));
}

/// Appends the dotted-decimal text of `a`.
pub fn write_ipv4(out: &mut Vec<u8>, a: Ipv4)
    ensures
        final(out)@ == old(out)@ + ipv4_text(a),
{
    write_octet(out, a.0);
    out.push(46);
    write_octet(out, a.1);
    out.push(46);
    write_octet(out, a.2);
    out.push(46);
    write_octet(out, a.3);
    assert(final(out)@ =~= old(out)@ + ipv4_text(a));
}

/// Different octets have different decimal texts.
pub proof fn lemma_dec_text_injective(n: u8, m: u8)
    requires
        dec_text(n) == dec_text(m),
    ensures
        n == m,
{
    let (x, y) = (n as int, m as int);
    lemma_octet_digits(n);
    lemma_octet_digits(m);
    let (t, u) = (dec_text(n), dec_text(m));
    assert(t.len() == u.len());
    if x < 10 {
        assert(y < 10);
        assert(t[0] == u[0]);
        assert(t[0] == x + 48);
        assert(u[0] == y + 48);
    } else if x < 100 {
        assert(10 <= y < 100);
        assert(t[0] == u[0] && t[1] == u[1]);
        assert(t[0] == x / 10 + 48 && t[1] == x % 10 + 48);
        assert(u[0] == y / 10 + 48 && u[1] == y % 10 + 48);
    } else {
        assert(100 <= y);
        assert(t[0] == u[0] && t[1] == u[1] && t[2] == u[2]);
        assert(t[0] == x / 100 + 48 && t[1] == (x / 10) % 10 + 48 && t[2] == x % 10 + 48);
        assert(u[0] == y / 100 + 48 && u[1] == (y / 10) % 10 + 48 && u[2] == y % 10 + 48);
    }
}

/// A text of an address holds only digits and dots, and begins and ends
/// with a digit.
pub proof fn lemma_ipv4_text_chars(a: Ipv4)
    ensures
        forall|k: int| 0 <= k < ipv4_text(a).len() ==> is_digit(#[trigger] ipv4_text(a)[k]) || ipv4_text(a)[k] == 46,
        ipv4_text(a).len() > 0,
        is_digit(ipv4_text(a)[0]),
        is_digit(ipv4_text(a)[ipv4_text(a).len() - 1]),
{
    let t = ipv4_text(a);
    let (d0, d1, d2, d3) = (dec_text(a.0), dec_text(a.1), dec_text(a.2), dec_text(a.3));
    lemma_dec_text_digits(a.0);
    lemma_dec_text_digits(a.1);
    lemma_dec_text_digits(a.2);
    lemma_dec_text_digits(a.3);
    let dot = seq![46u8];
    assert(t == d0 + dot + d1 + dot + d2 + dot + d3);
    let q1 = d0.len() as int;
    let q2 = q1 + 1 + d1.len();
    let q3 = q2 + 1 + d2.len();
    assert forall|k: int| 0 <= k < t.len() implies is_digit(#[trigger] t[k]) || t[k] == 46 by {
        if k < q1 {
            assert(t[k] == d0[k]);
        } else if q1 < k < q2 {
            assert(t[k] == d1[k - q1 - 1]);
        } else if q2 < k < q3 {
            assert(t[k] == d2[k - q2 - 1]);
        } else if q3 < k {
            assert(t[k] == d3[k - q3 - 1]);
        }
    }
    assert(t[0] == d0[0]);
    assert(t[t.len() - 1] == d3[d3.len() - 1]);
}

/// Different addresses have different texts.
#[verifier::rlimit(40)]
pub proof fn lemma_ipv4_text_injective(a: Ipv4, b: Ipv4)
    requires
        ipv4_text(a) == ipv4_text(b),
    ensures
        a == b,
{
    let s = ipv4_text(a);
    assert(s.subrange(0, s.len() as int) =~= s);
    lemma_text_shape(s, 0, s.len() as int, a);
    lemma_text_shape(s, 0, s.len() as int, b);
    let q1 = dec_text(a.0).len() as int;
    let q2 = q1 + 1 + dec_text(a.1).len();
    let q3 = q2 + 1 + dec_text(a.2).len();
    let r1 = dec_text(b.0).len() as int;
    let r2 = r1 + 1 + dec_text(b.1).len();
    let r3 = r2 + 1 + dec_text(b.2).len();
    assert(r1 == q1) by {
        if r1 < q1 {
            assert(s[r1] != 46);
        } else if q1 < r1 {
            assert(s[q1] != 46);
        }
    }
    assert(r2 == q2) by {
        if r2 < q2 {
            assert(s[r2] != 46);
        } else if q2 < r2 {
            assert(s[q2] != 46);
        }
    }
    assert(r3 == q3) by {
        if r3 < q3 {
            assert(s[r3] != 46);
        } else if q3 < r3 {
            assert(s[q3] != 46);
        }
    }
    lemma_dec_text_injective(a.0, b.0);
    lemma_dec_text_injective(a.1, b.1);
    lemma_dec_text_injective(a.2, b.2);
    lemma_dec_text_injective(a.3, b.3);
}

} // verus!
