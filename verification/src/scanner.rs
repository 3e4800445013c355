//! The scanner core: wildcard range expansion and per-host result
//! aggregation.
//!
//! A zero-valued octet of the base address acts as a wildcard. Expansion
//! walks an index `i` over the spanned space, decomposes `i` into four
//! digits (`i % 255`, then one more division by 255 per digit, masked mod
//! 256), and substitutes the digits into the wildcard positions from the
//! rightmost octet to the leftmost. Index 0 (the network address) is never
//! produced, and for a single wildcard octet the last index (the broadcast
//! address) is dropped as well.

use crate::addr::Ipv4Addr;
use crate::addr::dec_digits;
use crate::addr::ipv4_chars;
use crate::addr::ipv4_string;
use crate::addr::parse_ipv4;
use crate::addr::dec_string;
use vstd::prelude::*;
use vstd::pervasive::unreached;
use vstd::string::StrSliceExecFns;
use vstd::string::StringExecFns;

verus! {

/// How many octets of `a` are zero, i.e. act as wildcards.
pub open spec fn zero_count(a: Ipv4Addr) -> int {
    (if a.o0 == 0 { 1int } else { 0int }) + (if a.o1 == 0 { 1int } else { 0int })
        + (if a.o2 == 0 { 1int } else { 0int }) + (if a.o3 == 0 { 1int } else { 0int })
}

/// How many zero octets of `a` lie strictly to the right of position `p`.
pub open spec fn zeros_right_of(a: Ipv4Addr, p: int) -> int {
    (if p < 3 && a.o3 == 0 { 1int } else { 0int }) + (if p < 2 && a.o2 == 0 { 1int } else { 0int })
        + (if p < 1 && a.o1 == 0 { 1int } else { 0int })
}

/// The size of the index space spanned by `z` wildcard octets, within the
/// 32-bit arithmetic the expander works in: 256^z for `z` up to 3, while
/// 256^4 does not fit in 32 bits and wraps to 0, so four wildcards span an
/// empty index space.
pub open spec fn space_size(z: int) -> int {
    if z == 1 {
        256
    } else if z == 2 {
        65536
    } else if z == 3 {
        16777216
    } else if z == 4 {
        0
    } else {
        1
    }
}

/// The exclusive upper bound of the expansion index: the spanned space,
/// less one when the space is exactly 256 (a single wildcard octet), which
/// drops the broadcast address of that /24 host field.
pub open spec fn index_count(a: Ipv4Addr) -> int {
    if space_size(zero_count(a)) == 256 {
        255
    } else {
        space_size(zero_count(a))
    }
}

/// Digit `k` (0-based, least significant first) of expansion index `i`:
/// digit 0 is `i % 255`, and each later digit divides once more by 255
/// and keeps the remainder mod 256.
pub open spec fn digit(i: int, k: int) -> int {
    if k == 0 {
        i % 255
    } else if k == 1 {
        (i / 255) % 256
    } else if k == 2 {
        (i / 255 / 255) % 256
    } else {
        (i / 255 / 255 / 255) % 256
    }
}

/// Octet `p` of the expansion of `a` at index `i`: a non-zero octet of the
/// base is kept, and a wildcard octet receives the digit whose rank is the
/// number of wildcards to its right.
pub open spec fn subst_octet(a: Ipv4Addr, p: int, i: int) -> u8 {
    if a.octet(p) == 0 {
        digit(i, zeros_right_of(a, p)) as u8
    } else {
        a.octet(p)
    }
}

/// The address that expansion of `a` yields at index `i`.
pub open spec fn expanded_at(a: Ipv4Addr, i: int) -> Ipv4Addr {
    Ipv4Addr {
        o0: subst_octet(a, 0, i),
        o1: subst_octet(a, 1, i),
        o2: subst_octet(a, 2, i),
        o3: subst_octet(a, 3, i),
    }
}

/// The full expansion of a base address: the base itself when it has no
/// wildcard octet, and otherwise the expansions at indices 1 up to (but
/// not including) `index_count(a)`, in increasing index order.
pub open spec fn expand_seq(a: Ipv4Addr) -> Seq<Ipv4Addr> {
    if zero_count(a) == 0 {
        seq![a]
    } else if index_count(a) >= 1 {
        Seq::new((index_count(a) - 1) as nat, |k: int| expanded_at(a, k + 1))
    } else {
        Seq::empty()
    }
}

/// The ports of `ports` whose entry in `open` is true, in `ports` order.
/// `open` runs in parallel with `ports`: `open[j]` says whether the probe
/// of `ports[j]` succeeded.
pub open spec fn open_ports_of(ports: Seq<u16>, open: Seq<bool>) -> Seq<u16>
    decreases ports.len(),
{
    if ports.len() == 0 {
        Seq::empty()
    } else {
        open_ports_of(ports.drop_last(), open.drop_last()) + (if open[ports.len() - 1] {
            seq![ports.last()]
        } else {
            Seq::empty()
        })
    }
}

/// `m` embeds `sub` into `sup`: position `k` of `sub` is found at
/// position `m[k]` of `sup`, and the positions strictly increase.
pub open spec fn is_embedding(m: Seq<int>, sub: Seq<u16>, sup: Seq<u16>) -> bool {
    &&& m.len() == sub.len()
    &&& forall|k: int| 0 <= k < m.len() ==> 0 <= #[trigger] m[k] < sup.len() && sub[k] == sup[m[k]]
    &&& forall|k: int| 0 <= k < m.len() - 1 ==> #[trigger] m[k] < m[k + 1]
}

/// `sub` is a subsequence of `sup`: its elements appear in `sup`, in the
/// same order.
pub open spec fn is_subseq_of(sub: Seq<u16>, sup: Seq<u16>) -> bool {
    exists|m: Seq<int>| is_embedding(m, sub, sup)
}

/// Law: whatever the probe outcomes, the assembled open-port list is a
/// (possibly empty) subsequence of the port list, preserving its order.
pub proof fn lemma_open_ports_subseq(ports: Seq<u16>, open: Seq<bool>)
    requires
        open.len() == ports.len(),
    ensures
        is_subseq_of(open_ports_of(ports, open), ports),
    decreases ports.len(),
{
    let sub = open_ports_of(ports, open);
    if ports.len() == 0 {
        let m = Seq::<int>::empty();
        assert(is_embedding(m, sub, ports));
    } else {
        let sub0 = open_ports_of(ports.drop_last(), open.drop_last());
        lemma_open_ports_subseq(ports.drop_last(), open.drop_last());
        let m0 = choose|m: Seq<int>| is_embedding(m, sub0, ports.drop_last());
        if open[ports.len() - 1] {
            let m = m0 + seq![ports.len() - 1];
            assert forall|k: int| 0 <= k < m.len() implies 0 <= #[trigger] m[k] < ports.len()
                && sub[k] == ports[m[k]] by {
                if k < m0.len() {
                    assert(sub[k] == sub0[k]);
                    assert(sub0[k] == ports.drop_last()[m0[k]]);
                } else {
                    assert(sub[k] == ports.last());
                }
            }
            assert(is_embedding(m, sub, ports));
        } else {
            assert(sub =~= sub0);
            assert forall|k: int| 0 <= k < m0.len() implies 0 <= #[trigger] m0[k] < ports.len()
                && sub[k] == ports[m0[k]] by {
                assert(sub0[k] == ports.drop_last()[m0[k]]);
            }
            assert(is_embedding(m0, sub, ports));
        }
    }
}

/// Law: a base address without wildcard octets expands to exactly itself.
pub proof fn lemma_expand_no_wildcards(a: Ipv4Addr)
    requires
        zero_count(a) == 0,
    ensures
        expand_seq(a) =~= seq![a],
{
}

/// Law: a base address with exactly one wildcard octet, at position `p`,
/// expands to 254 addresses; the `k`-th of them carries `k + 1` in the
/// wildcard octet — so the substituted octet increases with the index —
/// and keeps every other octet of the base.
pub proof fn lemma_expand_one_wildcard(a: Ipv4Addr, p: int, k: int)
    requires
        zero_count(a) == 1,
        0 <= p < 4,
        a.octet(p) == 0,
        0 <= k < expand_seq(a).len(),
    ensures
        expand_seq(a).len() == 254,
        expand_seq(a)[k].octet(p) == k + 1,
        forall|q: int| 0 <= q < 4 && q != p ==> expand_seq(a)[k].octet(q) == a.octet(q),
{
}

/// Law: a base address of four wildcard octets spans no index (256^4
/// exceeds the 32-bit index space), so it expands to nothing.
pub proof fn lemma_expand_all_wildcards(a: Ipv4Addr)
    requires
        zero_count(a) == 4,
    ensures
        expand_seq(a).len() == 0,
{
}

/// Law: expansion is a pure function of the base address — two expansions
/// of the same base are the same sequence.
pub proof fn lemma_expand_idempotent(a: Ipv4Addr, r1: Seq<Ipv4Addr>, r2: Seq<Ipv4Addr>)
    requires
        r1 == expand_seq(a),
        r2 == expand_seq(a),
    ensures
        r1 == r2,
{
}

/// A scanner for one base address: the address, the ports to probe, and
/// the per-host results of the most recent scan.
#[derive(Clone, Debug)]
pub struct Scanner {
    pub ip: Ipv4Addr,
    pub ports: Vec<u16>,
    pub result: Vec<IpScanResult>,
}

/// The outcome of probing a single address: the address and the ports
/// found open on it, in request-list order.
#[derive(Clone, Debug)]
pub struct IpScanResult {
    pub ip: Ipv4Addr,
    pub open_ports: Vec<u16>,
}

impl Scanner {
    /// Build a scanner from a dotted-quad address literal and an optional
    /// port list; when no ports are given, the default set 80, 22, 443,
    /// 8080 is scanned.
    pub fn new(ip: String, ports: Option<Vec<u16>>) -> (r: Scanner)
        requires
            exists|a: Ipv4Addr| ip@ == #[trigger] ipv4_chars(a),
        ensures
            ip@ == ipv4_chars(r.ip),
            match ports {
                Some(p) => r.ports == p,
                None => r.ports@ =~= seq![80u16, 22u16, 443u16, 8080u16],
            },
            r.result@.len() == 0,
    {
        let ip = match parse_ipv4(ip.as_str()) {
            Ok(a) => a,
            Err(_) => {
                proof {
                    let a = choose|a: Ipv4Addr| ip@ == ipv4_chars(a);
                    assert(ip@ != ipv4_chars(a));
                }
                unreached()
            },
        };

        let ports = match ports {
            Some(ports) => ports,
            None => {
                let mut p: Vec<u16> = Vec::new();
                p.push(80);
                p.push(22);
                p.push(443);
                p.push(8080);
                p
            },
        };

        Scanner { ip, ports, result: Vec::new() }
    }

    /// Expand the base address across its wildcard octets.
    pub fn get_ips(&self) -> (ips: Vec<Ipv4Addr>)
        ensures
            ips@ == expand_seq(self.ip),
    {
        let base = self.ip;
        let mut ips: Vec<Ipv4Addr> = Vec::new();

        let number_of_groups: u32 = (if base.o0 == 0 { 1u32 } else { 0u32 }) + (if base.o1 == 0 {
            1u32
        } else {
            0u32
        }) + (if base.o2 == 0 { 1u32 } else { 0u32 }) + (if base.o3 == 0 { 1u32 } else { 0u32 });
        assert(number_of_groups as int == zero_count(base));

        if number_of_groups == 0 {
            ips.push(base);
            assert(ips@ =~= expand_seq(base));
            return ips;
        }

        // 256^z within 32-bit arithmetic; 256^4 wraps to 0.
        let number_of_ips: u32 = if number_of_groups == 1 {
            256
        } else if number_of_groups == 2 {
            65536
        } else if number_of_groups == 3 {
            16777216
        } else {
            0
        };

        // Exclude the broadcast address of a single wildcard octet.
        let number_of_ips: u32 = if number_of_ips == 256 {
            number_of_ips - 1
        } else {
            number_of_ips
        };
        assert(number_of_ips as int == index_count(base));

        let mut i: u32 = 1;
        while i < number_of_ips
            invariant
                1 <= i,
                number_of_ips >= 1 ==> i <= number_of_ips,
                number_of_ips == 0 ==> i == 1,
                number_of_ips as int == index_count(base),
                zero_count(base) > 0,
                ips@.len() == i - 1,
                forall|k: int| 0 <= k < ips@.len() ==> ips@[k] == expanded_at(base, k + 1),
            decreases number_of_ips - i,
        {
            let l1: u32 = i % 255;
            let l2: u32 = i / 255 % 256;
            let l3: u32 = i / 255 / 255 % 256;
            let l4: u32 = i / 255 / 255 / 255 % 256;

            let mut o0 = base.o0;
            let mut o1 = base.o1;
            let mut o2 = base.o2;
            let mut o3 = base.o3;

            // Substitute digits into the wildcard octets, rightmost first.
            let mut d: u32 = 0;
            if o3 == 0 {
                o3 = l1 as u8;
                d = 1;
            }
            assert(d as int == zeros_right_of(base, 2));
            if o2 == 0 {
                o2 = (if d == 0 { l1 } else { l2 }) as u8;
                d += 1;
            }
            assert(d as int == zeros_right_of(base, 1));
            if o1 == 0 {
                o1 = (if d == 0 { l1 } else if d == 1 { l2 } else { l3 }) as u8;
                d += 1;
            }
            assert(d as int == zeros_right_of(base, 0));
            if o0 == 0 {
                o0 = (if d == 0 { l1 } else if d == 1 { l2 } else if d == 2 { l3 } else { l4 }) as u8;
            }

            assert(o0 == subst_octet(base, 0, i as int));
            assert(o1 == subst_octet(base, 1, i as int));
            assert(o2 == subst_octet(base, 2, i as int));
            assert(o3 == subst_octet(base, 3, i as int));

            ips.push(Ipv4Addr { o0, o1, o2, o3 });
            i += 1;
        }

        assert(ips@ =~= expand_seq(base));
        ips
    }

    /// Record the results of a scan over the whole expanded range.
    ///
    /// The connection attempts themselves happen outside the core; `probes`
    /// carries their outcomes, one entry per expanded address in expansion
    /// order, where `probes[k][j]` reports whether the probe of port
    /// `ports[j]` on expanded address `k` succeeded. Whatever order the
    /// probes completed in, the recorded results follow expansion order.
    pub fn scan(&mut self, probes: &Vec<Vec<bool>>)
        requires
            probes@.len() == expand_seq(old(self).ip).len(),
            forall|k: int|
                0 <= k < probes@.len() ==> #[trigger] probes@[k]@.len() == old(self).ports@.len(),
        ensures
            final(self).ip == old(self).ip,
            final(self).ports == old(self).ports,
            final(self).result@.len() == expand_seq(old(self).ip).len(),
            forall|k: int|
                0 <= k < final(self).result@.len() ==> #[trigger] final(self).result@[k].ip
                    == expand_seq(old(self).ip)[k] && final(self).result@[k].open_ports@
                    == open_ports_of(old(self).ports@, probes@[k]@),
    {
        let ips = self.get_ips();
        let mut results: Vec<IpScanResult> = Vec::new();
        let mut k: usize = 0;
        while k < ips.len()
            invariant
                *self == *old(self),
                k <= ips@.len(),
                ips@ == expand_seq(self.ip),
                probes@.len() == ips@.len(),
                forall|k2: int|
                    0 <= k2 < probes@.len() ==> #[trigger] probes@[k2]@.len()
                        == self.ports@.len(),
                results@.len() == k,
                forall|k2: int|
                    0 <= k2 < k ==> #[trigger] results@[k2].ip == ips@[k2]
                        && results@[k2].open_ports@ == open_ports_of(
                        self.ports@,
                        probes@[k2]@,
                    ),
            decreases ips@.len() - k,
        {
            let ports = self.ports.clone();
            let r = scan_ip(ips[k], ports, &probes[k]);
            results.push(r);
            k += 1;
        }
        self.result = results;
    }
}

/// The rendering of a port list: the ports in canonical decimal, joined
/// by commas.
pub open spec fn join_ports(ps: Seq<u16>) -> Seq<char>
    decreases ps.len(),
{
    if ps.len() == 0 {
        Seq::empty()
    } else if ps.len() == 1 {
        dec_digits(ps[0] as int)
    } else {
        join_ports(ps.drop_last()) + seq![',', ' '] + dec_digits(ps.last() as int)
    }
}

/// `s` padded with spaces on the left up to width `w`.
pub open spec fn pad_left(s: Seq<char>, w: int) -> Seq<char> {
    if s.len() >= w {
        s
    } else {
        Seq::new((w - s.len()) as nat, |i: int| ' ') + s
    }
}

/// The report line for one host: empty when no port was open, else the
/// address, a colon, and the open ports right-aligned to width 15.
pub open spec fn result_line(r: IpScanResult) -> Seq<char> {
    if r.open_ports@.len() == 0 {
        Seq::empty()
    } else {
        ipv4_chars(r.ip) + ": "@ + pad_left(join_ports(r.open_ports@), 15) + "\n"@
    }
}

/// The per-host part of a report: each host's line, followed by a blank
/// separator line.
pub open spec fn result_lines(rs: Seq<IpScanResult>) -> Seq<char>
    decreases rs.len(),
{
    if rs.len() == 0 {
        Seq::empty()
    } else {
        result_lines(rs.drop_last()) + result_line(rs.last()) + "\n"@
    }
}

/// The header of a report: the base address and the port list.
pub open spec fn report_header(sc: Scanner) -> Seq<char> {
    "Scanner for "@ + ipv4_chars(sc.ip) + "\n"@ + "Ports: ["@ + join_ports(sc.ports@) + "]\n"@
        + "=========================\n"@
}

/// The whole report: the header, then the per-host lines.
pub open spec fn report_chars(sc: Scanner) -> Seq<char> {
    report_header(sc) + result_lines(sc.result@)
}

fn join_ports_exec(ps: &Vec<u16>) -> (s: String)
    ensures
        s@ == join_ports(ps@),
{
    let mut s = String::new();
    let mut j: usize = 0;
    while j < ps.len()
        invariant
            j <= ps@.len(),
            s@ == join_ports(ps@.take(j as int)),
        decreases ps@.len() - j,
    {
        proof {
            reveal_strlit(", ");
        }
        if j > 0 {
            s.append(", ");
        }
        let d = dec_string(ps[j]);
        s.append(d.as_str());
        proof {
            assert(ps@.take(j + 1 as int).drop_last() =~= ps@.take(j as int));
            assert(ps@.take(j + 1 as int).last() == ps@[j as int]);
            assert(", "@ =~= seq![',', ' ']);
            assert(s@ =~= join_ports(ps@.take(j + 1 as int)));
        }
        j += 1;
    }
    proof {
        assert(ps@.take(ps@.len() as int) =~= ps@);
    }
    s
}

fn pad15(s: String) -> (r: String)
    ensures
        r@ == pad_left(s@, 15),
{
    let l = s.as_str().unicode_len();
    if l >= 15 {
        return s;
    }
    let mut out = String::new();
    let mut k = l;
    while k < 15
        invariant
            l <= k <= 15,
            l == s@.len(),
            out@ == Seq::new((k - l) as nat, |i: int| ' '),
        decreases 15 - k,
    {
        proof {
            reveal_strlit(" ");
        }
        out.append(" ");
        proof {
            assert(" "@ =~= seq![' ']);
            assert(out@ =~= Seq::new((k + 1 - l) as nat, |i: int| ' '));
        }
        k += 1;
    }
    out.append(s.as_str());
    proof {
        assert(out@ =~= pad_left(s@, 15));
    }
    out
}

fn result_line_exec(r: &IpScanResult) -> (s: String)
    ensures
        s@ == result_line(*r),
{
    proof {
        reveal_strlit(": ");
        reveal_strlit("\n");
    }
    if r.open_ports.len() == 0 {
        let s = String::new();
        proof {
            assert(s@ =~= result_line(*r));
        }
        s
    } else {
        let mut s = ipv4_string(&r.ip);
        s.append(": ");
        let joined = join_ports_exec(&r.open_ports);
        let padded = pad15(joined);
        s.append(padded.as_str());
        s.append("\n");
        proof {
            assert(s@ =~= result_line(*r));
        }
        s
    }
}

/// Reporting the result of a scan.
pub trait Report {
    /// Render a human-readable report.
    fn report(&self) -> String;
}

impl Report for Scanner {
    /// Render the report: a header naming the base address and the ports,
    /// then one line per scanned host that had open ports.
    fn report(&self) -> (s: String)
        ensures
            s@ == report_chars(*self),
    {
        proof {
            reveal_strlit("Scanner for ");
            reveal_strlit("\n");
            reveal_strlit("Ports: [");
            reveal_strlit("]\n");
            reveal_strlit("=========================\n");
        }
        let mut rep = String::from_str("Scanner for ");
        let ipstr = ipv4_string(&self.ip);
        rep.append(ipstr.as_str());
        rep.append("\n");
        rep.append("Ports: [");
        let pj = join_ports_exec(&self.ports);
        rep.append(pj.as_str());
        rep.append("]\n");
        rep.append("=========================\n");
        proof {
            assert(rep@ =~= report_header(*self));
        }
        let ghost header = rep@;
        let mut k: usize = 0;
        while k < self.result.len()
            invariant
                k <= self.result@.len(),
                header == report_header(*self),
                rep@ == header + result_lines(self.result@.take(k as int)),
            decreases self.result@.len() - k,
        {
            proof {
                reveal_strlit("\n");
            }
            let line = result_line_exec(&self.result[k]);
            rep.append(line.as_str());
            rep.append("\n");
            proof {
                assert(self.result@.take(k + 1 as int).drop_last() =~= self.result@.take(
                    k as int,
                ));
                assert(self.result@.take(k + 1 as int).last() == self.result@[k as int]);
                assert(rep@ =~= header + result_lines(self.result@.take(k + 1 as int)));
            }
            k += 1;
        }
        proof {
            assert(self.result@.take(self.result@.len() as int) =~= self.result@);
        }
        rep
    }
}

/// Assemble the result of probing one address: `open[j]` reports whether
/// the connection attempt to `ports[j]` succeeded. The open ports come out
/// in request-list order.
pub fn scan_ip(ip: Ipv4Addr, ports: Vec<u16>, open: &Vec<bool>) -> (r: IpScanResult)
    requires
        open@.len() == ports@.len(),
    ensures
        r.ip == ip,
        r.open_ports@ == open_ports_of(ports@, open@),
{
    let mut open_ports: Vec<u16> = Vec::new();
    let mut j: usize = 0;
    while j < ports.len()
        invariant
            j <= ports@.len(),
            open@.len() == ports@.len(),
            open_ports@ == open_ports_of(ports@.take(j as int), open@.take(j as int)),
        decreases ports@.len() - j,
    {
        if open[j] {
            open_ports.push(ports[j]);
        }
        assert(ports@.take(j + 1 as int).drop_last() =~= ports@.take(j as int));
        assert(open@.take(j + 1 as int).drop_last() =~= open@.take(j as int));
        j += 1;
    }
    assert(ports@.take(ports@.len() as int) =~= ports@);
    assert(open@.take(open@.len() as int) =~= open@);
    IpScanResult { ip, open_ports }
}

} // verus!
