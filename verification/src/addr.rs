//! IPv4 addresses: the address type, its dotted-quad rendering, and a
//! parser for dotted-quad literals.

use vstd::prelude::*;
use vstd::string::StrSliceExecFns;
use vstd::string::StringExecFns;

verus! {

/// An IPv4 address as four octets, most significant first.
#[derive(Clone, Copy, Debug, PartialEq, Eq, Hash, Structural)]
pub struct Ipv4Addr {
    pub o0: u8,
    pub o1: u8,
    pub o2: u8,
    pub o3: u8,
}

impl Ipv4Addr {
    /// The octet at position `p` (0 = most significant, 3 = least).
    pub open spec fn octet(self, p: int) -> u8 {
        if p == 0 {
            self.o0
        } else if p == 1 {
            self.o1
        } else if p == 2 {
            self.o2
        } else {
            self.o3
        }
    }

    pub fn new(o0: u8, o1: u8, o2: u8, o3: u8) -> (r: Ipv4Addr)
        ensures
            r == (Ipv4Addr { o0, o1, o2, o3 }),
    {
        Ipv4Addr { o0, o1, o2, o3 }
    }
}

/// The decimal digit character for `d` (0 through 9).
pub open spec fn digit_char(d: int) -> char {
    if d == 0 {
        '0'
    } else if d == 1 {
        '1'
    } else if d == 2 {
        '2'
    } else if d == 3 {
        '3'
    } else if d == 4 {
        '4'
    } else if d == 5 {
        '5'
    } else if d == 6 {
        '6'
    } else if d == 7 {
        '7'
    } else if d == 8 {
        '8'
    } else {
        '9'
    }
}

/// Whether `c` is a decimal digit character.
pub open spec fn is_digit_char(c: char) -> bool {
    48 <= c as int <= 57
}

/// The canonical decimal rendering of `n` (no leading zeros).
pub open spec fn dec_digits(n: int) -> Seq<char>
    recommends
        n >= 0,
    decreases n,
{
    if n < 10 {
        seq![digit_char(n)]
    } else {
        dec_digits(n / 10) + seq![digit_char(n % 10)]
    }
}

/// The value of a sequence of decimal digit characters.
pub open spec fn digits_val(s: Seq<char>) -> int
    decreases s.len(),
{
    if s.len() == 0 {
        0
    } else {
        digits_val(s.drop_last()) * 10 + (s.last() as int - 48)
    }
}

/// 10 to the power `k`.
pub open spec fn pow10(k: int) -> int
    decreases k,
{
    if k <= 0 {
        1
    } else {
        10 * pow10(k - 1)
    }
}

/// The dotted-quad rendering of an address.
pub open spec fn ipv4_chars(a: Ipv4Addr) -> Seq<char> {
    dec_digits(a.o0 as int) + seq!['.'] + dec_digits(a.o1 as int) + seq!['.'] + dec_digits(
        a.o2 as int,
    ) + seq!['.'] + dec_digits(a.o3 as int)
}

proof fn lemma_digit_char(d: int)
    requires
        0 <= d < 10,
    ensures
        is_digit_char(digit_char(d)),
        digit_char(d) as int == 48 + d,
{
}

/// The canonical rendering of `n`: all digits, value `n`, length given by
/// the magnitude of `n`, and no leading zero unless `n` is 0 itself.
pub proof fn lemma_dec_digits_props(n: int)
    requires
        n >= 0,
    ensures
        dec_digits(n).len() >= 1,
        forall|j: int| 0 <= j < dec_digits(n).len() ==> is_digit_char(#[trigger] dec_digits(n)[j]),
        digits_val(dec_digits(n)) == n,
        n < 10 ==> dec_digits(n).len() == 1,
        10 <= n < 100 ==> dec_digits(n).len() == 2,
        100 <= n < 1000 ==> dec_digits(n).len() == 3,
        dec_digits(n)[0] == '0' <==> n == 0,
    decreases n,
{
    lemma_digit_char(n % 10);
    if n < 10 {
        let t = dec_digits(n);
        assert(t =~= seq![digit_char(n)]);
        assert(t.last() == digit_char(n));
        assert(t.drop_last().len() == 0);
        assert(digits_val(t) == digits_val(t.drop_last()) * 10 + (t.last() as int - 48));
        assert(n % 10 == n);
    } else {
        lemma_dec_digits_props(n / 10);
        let t = dec_digits(n);
        assert(t =~= dec_digits(n / 10) + seq![digit_char(n % 10)]);
        assert(t.drop_last() =~= dec_digits(n / 10));
        assert(t.last() == digit_char(n % 10));
        assert(t[0] == dec_digits(n / 10)[0]);
    }
}

/// The value of an all-digit sequence is bounded by its length, and a
/// sequence without a leading zero reaches the lower bound of its length.
pub proof fn lemma_digits_val_bounds(t: Seq<char>)
    requires
        forall|j: int| 0 <= j < t.len() ==> is_digit_char(#[trigger] t[j]),
    ensures
        0 <= digits_val(t) < pow10(t.len() as int),
        t.len() >= 1 && t[0] != '0' ==> digits_val(t) >= pow10(t.len() - 1),
    decreases t.len(),
{
    if t.len() > 0 {
        lemma_digits_val_bounds(t.drop_last());
        assert(t.drop_last().len() == t.len() - 1);
        if t.len() >= 2 && t[0] != '0' {
            assert(t.drop_last()[0] == t[0]);
        }
    }
}

/// An all-digit sequence without a leading zero is the canonical
/// rendering of its own value.
pub proof fn lemma_digits_canonical(t: Seq<char>)
    requires
        t.len() >= 1,
        forall|j: int| 0 <= j < t.len() ==> is_digit_char(#[trigger] t[j]),
        t.len() > 1 ==> t[0] != '0',
    ensures
        t == dec_digits(digits_val(t)),
    decreases t.len(),
{
    lemma_digits_val_bounds(t);
    let v = digits_val(t);
    if t.len() == 1 {
        assert(is_digit_char(t[0]));
        assert(t.last() == t[0]);
        assert(t.drop_last().len() == 0);
        assert(digits_val(t.drop_last()) == 0);
        assert(digits_val(t) == digits_val(t.drop_last()) * 10 + (t.last() as int - 48));
        assert(v == t[0] as int - 48);
        lemma_digit_char(v);
        assert(digit_char(v) as int == t[0] as int);
        assert(digit_char(v) == t[0]) by {
            assert(digit_char(v) as int == t[0] as int);
        }
        assert(t =~= dec_digits(v));
    } else {
        let t0 = t.drop_last();
        lemma_digits_canonical(t0);
        lemma_digits_val_bounds(t0);
        let v0 = digits_val(t0);
        let dl = t.last() as int - 48;
        assert(v == v0 * 10 + dl);
        assert(v0 >= pow10(t0.len() - 1));
        assert(pow10(t0.len() - 1) >= 1) by {
            lemma_pow10_pos(t0.len() - 1);
        }
        assert(v >= 10);
        assert(v / 10 == v0 && v % 10 == dl) by {
            assert(0 <= dl < 10);
        }
        lemma_digit_char(dl);
        assert(digit_char(dl) as int == t.last() as int);
        assert(digit_char(dl) == t.last());
        assert(dec_digits(v) =~= dec_digits(v0) + seq![digit_char(dl)]);
        assert(t =~= t0 + seq![t.last()]);
    }
}

proof fn lemma_pow10_pos(k: int)
    ensures
        pow10(k) >= 1,
    decreases (if k >= 0 { k } else { 0 }),
{
    if k > 0 {
        lemma_pow10_pos(k - 1);
    }
}

/// The input string is not a dotted-quad IPv4 literal.
#[derive(Clone, Copy, Debug, PartialEq, Eq, Structural)]
pub struct AddrParseError;

/// `v` is written at positions `start..end` of `s` in canonical decimal,
/// with no digit following.
pub open spec fn octet_at(s: Seq<char>, start: int, v: u8, end: int) -> bool {
    &&& 0 <= start <= end <= s.len()
    &&& s.subrange(start, end) == dec_digits(v as int)
    &&& (end == s.len() || !is_digit_char(s[end]))
}

/// Only one canonical decimal can be read at a given position.
pub proof fn lemma_octet_at_unique(s: Seq<char>, start: int, v1: u8, e1: int, v2: u8, e2: int)
    requires
        octet_at(s, start, v1, e1),
        octet_at(s, start, v2, e2),
    ensures
        v1 == v2,
        e1 == e2,
{
    lemma_dec_digits_props(v1 as int);
    lemma_dec_digits_props(v2 as int);
    assert(e1 - start == dec_digits(v1 as int).len());
    assert(e2 - start == dec_digits(v2 as int).len());
    if e1 < e2 {
        assert(s.subrange(start, e2)[e1 - start] == s[e1]);
        assert(is_digit_char(dec_digits(v2 as int)[e1 - start]));
        assert(false);
    }
    if e2 < e1 {
        assert(s.subrange(start, e1)[e2 - start] == s[e2]);
        assert(is_digit_char(dec_digits(v1 as int)[e2 - start]));
        assert(false);
    }
    assert(digits_val(dec_digits(v1 as int)) == digits_val(dec_digits(v2 as int)));
}

fn is_digit_exec(s: &str, j: usize) -> (r: bool)
    requires
        j < s@.len(),
    ensures
        r == is_digit_char(s@[j as int]),
{
    let c = s.get_char(j);
    let cv = c as u32;
    48 <= cv && cv <= 57
}

/// Read one canonical decimal octet at position `start`: its value and the
/// position just past it; or nothing, when no octet can be read there.
fn parse_octet(s: &str, start: usize) -> (r: Option<(u8, usize)>)
    requires
        start as int <= s@.len(),
    ensures
        match r {
            Some(p) => octet_at(s@, start as int, p.0, p.1 as int) && start < p.1,
            None => forall|v: u8, end: int| !octet_at(s@, start as int, v, end),
        },
{
    let n = s.unicode_len();
    let mut end: usize = start;
    let mut val: u32 = 0;
    proof {
        assert(s@.subrange(start as int, start as int) =~= Seq::<char>::empty());
    }
    while end < n && end - start < 4 && is_digit_exec(s, end)
        invariant
            start <= end <= n,
            n == s@.len(),
            end - start <= 4,
            forall|j: int| start <= j < end ==> is_digit_char(#[trigger] s@[j]),
            val as int == digits_val(s@.subrange(start as int, end as int)),
            (val as int) < pow10(end - start),
        decreases n - end,
    {
        proof {
            reveal_with_fuel(pow10, 5);
            assert(pow10(0) == 1 && pow10(1) == 10 && pow10(2) == 100 && pow10(3) == 1000);
        }
        let c = s.get_char(end);
        let d = c as u32 - 48;
        val = val * 10 + d;
        end += 1;
        proof {
            let t = s@.subrange(start as int, end as int);
            assert(t.drop_last() =~= s@.subrange(start as int, end - 1));
            assert(t.last() == s@[end - 1]);
        }
    }
    let run = end - start;
    if run == 0 {
        proof {
            assert forall|v: u8, e: int| !octet_at(s@, start as int, v, e) by {
                if octet_at(s@, start as int, v, e) {
                    lemma_dec_digits_props(v as int);
                    assert(s@.subrange(start as int, e)[0] == s@[start as int]);
                    assert(is_digit_char(s@[start as int]));
                }
            }
        }
        return None;
    }
    if run == 4 {
        proof {
            assert forall|v: u8, e: int| !octet_at(s@, start as int, v, e) by {
                if octet_at(s@, start as int, v, e) {
                    lemma_dec_digits_props(v as int);
                    assert(e - start <= 3);
                    assert(e < end);
                    assert(is_digit_char(s@[e]));
                }
            }
        }
        return None;
    }
    let first = s.get_char(start);
    if run > 1 && first == '0' {
        proof {
            assert forall|v: u8, e: int| !octet_at(s@, start as int, v, e) by {
                if octet_at(s@, start as int, v, e) {
                    lemma_dec_digits_props(v as int);
                    assert(s@.subrange(start as int, e)[0] == s@[start as int]);
                    assert(dec_digits(v as int)[0] == '0');
                    assert(v == 0);
                    assert(e == start + 1);
                    assert(is_digit_char(s@[e]));
                }
            }
        }
        return None;
    }
    if val > 255 {
        proof {
            assert forall|v: u8, e: int| !octet_at(s@, start as int, v, e) by {
                if octet_at(s@, start as int, v, e) {
                    lemma_dec_digits_props(v as int);
                    let m = e - start;
                    assert(m == dec_digits(v as int).len());
                    if m < run {
                        assert(e < end);
                        assert(is_digit_char(s@[e]));
                    } else if m > run {
                        assert(s@.subrange(start as int, e)[run as int] == s@[end as int]);
                        assert(is_digit_char(s@[end as int]));
                    } else {
                        assert(s@.subrange(start as int, e) == s@.subrange(
                            start as int,
                            end as int,
                        ));
                        assert(digits_val(dec_digits(v as int)) == val);
                    }
                }
            }
        }
        return None;
    }
    proof {
        let t = s@.subrange(start as int, end as int);
        assert(t.len() >= 1);
        assert forall|j: int| 0 <= j < t.len() implies is_digit_char(#[trigger] t[j]) by {
            assert(t[j] == s@[start + j]);
        }
        assert(t[0] == s@[start as int]);
        lemma_digits_canonical(t);
    }
    Some((val as u8, end))
}

/// The length of the canonical decimal rendering of `n`.
pub open spec fn dlen(n: int) -> int {
    dec_digits(n).len() as int
}

/// Where the four octets and the three dots of a rendered address stand.
pub proof fn lemma_ipv4_chars_parts(a: Ipv4Addr, s: Seq<char>)
    requires
        s == ipv4_chars(a),
    ensures
        s.len() == dlen(a.o0 as int) + dlen(a.o1 as int) + dlen(a.o2 as int) + dlen(a.o3 as int)
            + 3,
        octet_at(s, 0, a.o0, dlen(a.o0 as int)),
        s[dlen(a.o0 as int)] == '.',
        octet_at(s, dlen(a.o0 as int) + 1, a.o1, dlen(a.o0 as int) + 1 + dlen(a.o1 as int)),
        s[dlen(a.o0 as int) + 1 + dlen(a.o1 as int)] == '.',
        octet_at(
            s,
            dlen(a.o0 as int) + dlen(a.o1 as int) + 2,
            a.o2,
            dlen(a.o0 as int) + dlen(a.o1 as int) + 2 + dlen(a.o2 as int),
        ),
        s[dlen(a.o0 as int) + dlen(a.o1 as int) + 2 + dlen(a.o2 as int)] == '.',
        octet_at(s, dlen(a.o0 as int) + dlen(a.o1 as int) + dlen(a.o2 as int) + 3, a.o3, s.len() as int),
{
    let d0 = dec_digits(a.o0 as int);
    let d1 = dec_digits(a.o1 as int);
    let d2 = dec_digits(a.o2 as int);
    let d3 = dec_digits(a.o3 as int);
    lemma_dec_digits_props(a.o0 as int);
    lemma_dec_digits_props(a.o1 as int);
    lemma_dec_digits_props(a.o2 as int);
    lemma_dec_digits_props(a.o3 as int);
    let l0 = d0.len() as int;
    let l1 = d1.len() as int;
    let l2 = d2.len() as int;
    let l3 = d3.len() as int;
    assert(s.len() == l0 + l1 + l2 + l3 + 3);
    assert(s.subrange(0, l0) =~= d0);
    assert(s[l0] == '.');
    assert(s.subrange(l0 + 1, l0 + 1 + l1) =~= d1);
    assert(s[l0 + 1 + l1] == '.');
    assert(s.subrange(l0 + l1 + 2, l0 + l1 + 2 + l2) =~= d2);
    assert(s[l0 + l1 + 2 + l2] == '.');
    assert(s.subrange(l0 + l1 + l2 + 3, s.len() as int) =~= d3);
    assert(!is_digit_char('.'));
}

/// Four octets separated by dots, covering the whole of `s`, make `s` the
/// rendering of the address they spell.
pub proof fn lemma_parts_ipv4_chars(s: Seq<char>, a: Ipv4Addr, e0: int, e1: int, e2: int)
    requires
        octet_at(s, 0, a.o0, e0),
        e0 < s.len(),
        s[e0] == '.',
        octet_at(s, e0 + 1, a.o1, e1),
        e1 < s.len(),
        s[e1] == '.',
        octet_at(s, e1 + 1, a.o2, e2),
        e2 < s.len(),
        s[e2] == '.',
        octet_at(s, e2 + 1, a.o3, s.len() as int),
    ensures
        s == ipv4_chars(a),
{
    let d0 = dec_digits(a.o0 as int);
    let d1 = dec_digits(a.o1 as int);
    let d2 = dec_digits(a.o2 as int);
    let d3 = dec_digits(a.o3 as int);
    let t = ipv4_chars(a);
    assert(e0 == d0.len());
    assert(e1 - e0 - 1 == d1.len());
    assert(e2 - e1 - 1 == d2.len());
    assert(s.len() - e2 - 1 == d3.len());
    assert forall|k: int| 0 <= k < s.len() implies s[k] == t[k] by {
        if k < e0 {
            assert(s.subrange(0, e0)[k] == s[k]);
        } else if k == e0 {
        } else if k < e1 {
            assert(s.subrange(e0 + 1, e1)[k - e0 - 1] == s[k]);
        } else if k == e1 {
        } else if k < e2 {
            assert(s.subrange(e1 + 1, e2)[k - e1 - 1] == s[k]);
        } else if k == e2 {
        } else {
            assert(s.subrange(e2 + 1, s.len() as int)[k - e2 - 1] == s[k]);
        }
    }
    assert(s =~= t);
}

/// Law: the dotted-quad rendering is injective — two addresses with the
/// same rendering are the same address.
pub proof fn lemma_ipv4_chars_injective(a1: Ipv4Addr, a2: Ipv4Addr)
    requires
        ipv4_chars(a1) == ipv4_chars(a2),
    ensures
        a1 == a2,
{
    let s = ipv4_chars(a1);
    lemma_ipv4_chars_parts(a1, s);
    lemma_ipv4_chars_parts(a2, s);
    lemma_octet_at_unique(s, 0, a1.o0, dlen(a1.o0 as int), a2.o0, dlen(a2.o0 as int));
    let p1 = dlen(a1.o0 as int) + 1;
    lemma_octet_at_unique(
        s,
        p1,
        a1.o1,
        p1 + dlen(a1.o1 as int),
        a2.o1,
        p1 + dlen(a2.o1 as int),
    );
    let p2 = p1 + dlen(a1.o1 as int) + 1;
    lemma_octet_at_unique(
        s,
        p2,
        a1.o2,
        p2 + dlen(a1.o2 as int),
        a2.o2,
        p2 + dlen(a2.o2 as int),
    );
    let p3 = p2 + dlen(a1.o2 as int) + 1;
    lemma_octet_at_unique(s, p3, a1.o3, s.len() as int, a2.o3, s.len() as int);
}

/// Parse a dotted-quad IPv4 literal: four canonical decimal octets
/// separated by dots, and nothing else. Returns the address the string
/// renders; returns the error exactly when the string renders no address.
#[verifier::rlimit(100)]
pub fn parse_ipv4(s: &str) -> (r: Result<Ipv4Addr, AddrParseError>)
    ensures
        match r {
            Ok(a) => s@ == ipv4_chars(a),
            Err(_) => forall|a: Ipv4Addr| s@ != #[trigger] ipv4_chars(a),
        },
{
    let n = s.unicode_len();
    let r0 = parse_octet(s, 0);
    if r0.is_none() {
        proof {
            assert forall|a: Ipv4Addr| s@ != #[trigger] ipv4_chars(a) by {
                if s@ == ipv4_chars(a) {
                    lemma_ipv4_chars_parts(a, s@);
                }
            }
        }
        return Err(AddrParseError);
    }
    let (v0, p0) = r0.unwrap();
    if !(p0 < n && s.get_char(p0) == '.') {
        proof {
            assert forall|a: Ipv4Addr| s@ != #[trigger] ipv4_chars(a) by {
                if s@ == ipv4_chars(a) {
                    lemma_ipv4_chars_parts(a, s@);
                    lemma_octet_at_unique(s@, 0, v0, p0 as int, a.o0, dlen(a.o0 as int));
                }
            }
        }
        return Err(AddrParseError);
    }
    let r1 = parse_octet(s, p0 + 1);
    if r1.is_none() {
        proof {
            assert forall|a: Ipv4Addr| s@ != #[trigger] ipv4_chars(a) by {
                if s@ == ipv4_chars(a) {
                    lemma_ipv4_chars_parts(a, s@);
                    lemma_octet_at_unique(s@, 0, v0, p0 as int, a.o0, dlen(a.o0 as int));
                }
            }
        }
        return Err(AddrParseError);
    }
    let (v1, p1) = r1.unwrap();
    if !(p1 < n && s.get_char(p1) == '.') {
        proof {
            assert forall|a: Ipv4Addr| s@ != #[trigger] ipv4_chars(a) by {
                if s@ == ipv4_chars(a) {
                    lemma_ipv4_chars_parts(a, s@);
                    lemma_octet_at_unique(s@, 0, v0, p0 as int, a.o0, dlen(a.o0 as int));
                    lemma_octet_at_unique(
                        s@,
                        p0 + 1,
                        v1,
                        p1 as int,
                        a.o1,
                        dlen(a.o0 as int) + 1 + dlen(a.o1 as int),
                    );
                }
            }
        }
        return Err(AddrParseError);
    }
    let r2 = parse_octet(s, p1 + 1);
    if r2.is_none() {
        proof {
            assert forall|a: Ipv4Addr| s@ != #[trigger] ipv4_chars(a) by {
                if s@ == ipv4_chars(a) {
                    lemma_ipv4_chars_parts(a, s@);
                    lemma_octet_at_unique(s@, 0, v0, p0 as int, a.o0, dlen(a.o0 as int));
                    lemma_octet_at_unique(
                        s@,
                        p0 + 1,
                        v1,
                        p1 as int,
                        a.o1,
                        dlen(a.o0 as int) + 1 + dlen(a.o1 as int),
                    );
                }
            }
        }
        return Err(AddrParseError);
    }
    let (v2, p2) = r2.unwrap();
    if !(p2 < n && s.get_char(p2) == '.') {
        proof {
            assert forall|a: Ipv4Addr| s@ != #[trigger] ipv4_chars(a) by {
                if s@ == ipv4_chars(a) {
                    lemma_ipv4_chars_parts(a, s@);
                    lemma_octet_at_unique(s@, 0, v0, p0 as int, a.o0, dlen(a.o0 as int));
                    lemma_octet_at_unique(
                        s@,
                        p0 + 1,
                        v1,
                        p1 as int,
                        a.o1,
                        dlen(a.o0 as int) + 1 + dlen(a.o1 as int),
                    );
                    lemma_octet_at_unique(
                        s@,
                        p1 + 1,
                        v2,
                        p2 as int,
                        a.o2,
                        dlen(a.o0 as int) + dlen(a.o1 as int) + 2 + dlen(a.o2 as int),
                    );
                }
            }
        }
        return Err(AddrParseError);
    }
    let r3 = parse_octet(s, p2 + 1);
    if r3.is_none() {
        proof {
            assert forall|a: Ipv4Addr| s@ != #[trigger] ipv4_chars(a) by {
                if s@ == ipv4_chars(a) {
                    lemma_ipv4_chars_parts(a, s@);
                    lemma_octet_at_unique(s@, 0, v0, p0 as int, a.o0, dlen(a.o0 as int));
                    lemma_octet_at_unique(
                        s@,
                        p0 + 1,
                        v1,
                        p1 as int,
                        a.o1,
                        dlen(a.o0 as int) + 1 + dlen(a.o1 as int),
                    );
                    lemma_octet_at_unique(
                        s@,
                        p1 + 1,
                        v2,
                        p2 as int,
                        a.o2,
                        dlen(a.o0 as int) + dlen(a.o1 as int) + 2 + dlen(a.o2 as int),
                    );
                }
            }
        }
        return Err(AddrParseError);
    }
    let (v3, p3) = r3.unwrap();
    if p3 != n {
        proof {
            assert forall|a: Ipv4Addr| s@ != #[trigger] ipv4_chars(a) by {
                if s@ == ipv4_chars(a) {
                    lemma_ipv4_chars_parts(a, s@);
                    lemma_octet_at_unique(s@, 0, v0, p0 as int, a.o0, dlen(a.o0 as int));
                    lemma_octet_at_unique(
                        s@,
                        p0 + 1,
                        v1,
                        p1 as int,
                        a.o1,
                        dlen(a.o0 as int) + 1 + dlen(a.o1 as int),
                    );
                    lemma_octet_at_unique(
                        s@,
                        p1 + 1,
                        v2,
                        p2 as int,
                        a.o2,
                        dlen(a.o0 as int) + dlen(a.o1 as int) + 2 + dlen(a.o2 as int),
                    );
                    lemma_octet_at_unique(
                        s@,
                        p2 + 1,
                        v3,
                        p3 as int,
                        a.o3,
                        s@.len() as int,
                    );
                }
            }
        }
        return Err(AddrParseError);
    }
    let a = Ipv4Addr { o0: v0, o1: v1, o2: v2, o3: v3 };
    proof {
        lemma_parts_ipv4_chars(s@, a, p0 as int, p1 as int, p2 as int);
    }
    Ok(a)
}

fn digit_lit(d: u16) -> (r: &'static str)
    requires
        d < 10,
    ensures
        r@ == seq![digit_char(d as int)],
{
    proof {
        reveal_strlit("0");
        reveal_strlit("1");
        reveal_strlit("2");
        reveal_strlit("3");
        reveal_strlit("4");
        reveal_strlit("5");
        reveal_strlit("6");
        reveal_strlit("7");
        reveal_strlit("8");
        reveal_strlit("9");
    }
    let r: &'static str = match d {
        0 => "0",
        1 => "1",
        2 => "2",
        3 => "3",
        4 => "4",
        5 => "5",
        6 => "6",
        7 => "7",
        8 => "8",
        _ => "9",
    };
    proof {
        assert(r@ =~= seq![digit_char(d as int)]);
    }
    r
}

/// Render `n` in canonical decimal.
pub fn dec_string(n: u16) -> (s: String)
    ensures
        s@ == dec_digits(n as int),
    decreases n,
{
    if n < 10 {
        String::from_str(digit_lit(n))
    } else {
        let mut s = dec_string(n / 10);
        s.append(digit_lit(n % 10));
        proof {
            assert(s@ =~= dec_digits(n as int));
        }
        s
    }
}

/// Render an address as its dotted-quad literal.
pub fn ipv4_string(a: &Ipv4Addr) -> (s: String)
    ensures
        s@ == ipv4_chars(*a),
{
    proof {
        reveal_strlit(".");
    }
    let mut s = dec_string(a.o0 as u16);
    s.append(".");
    let s1 = dec_string(a.o1 as u16);
    s.append(s1.as_str());
    s.append(".");
    let s2 = dec_string(a.o2 as u16);
    s.append(s2.as_str());
    s.append(".");
    let s3 = dec_string(a.o3 as u16);
    s.append(s3.as_str());
    proof {
        assert("."@ =~= seq!['.']);
        assert(s@ =~= ipv4_chars(*a));
    }
    s
}

} // verus!
