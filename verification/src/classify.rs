//! The address and interface classifier: local versus wide-area
//! addresses, wide-area candidate interfaces, and the flow and
//! direction match rules.
use vstd::prelude::*;

use crate::entry::{Direction, EntrySpec, LogEntry};
use crate::filter::{DirectionFilter, FlowFilter};
use crate::ip::{classify_ip, ip_multicast, ip_unspecified, is_valid_ip};
use crate::text::{
    chars_of, contains_chars, contains_seq, eq_chars, lower_chars, lower_seq, parse_u16_chars,
    parse_u16_seq, split_chars, split_seq, starts_with_chars, starts_with_seq, trim_chars,
    trim_seq,
};

verus! {

/// The result of `str::parse::<u8>`: as the 16-bit parse, further
/// bounded by 255.
pub open spec fn parse_u8_seq(s: Seq<char>) -> Option<u8> {
    match parse_u16_seq(s) {
        Some(x) => if x <= 255 {
            Some(x as u8)
        } else {
            None
        },
        None => None,
    }
}

fn lenient_octet_of(part: &Vec<char>) -> (r: Option<u8>)
    ensures
        r == parse_u8_seq(part@),
{
    match parse_u16_chars(part) {
        Some(x) => if x <= 255 {
            Some(x as u8)
        } else {
            None
        },
        None => None,
    }
}

/// The private, loopback and link-local IPv4 prefixes.
pub open spec fn local_v4_prefix(a: int, b: int) -> bool {
    ||| a == 10
    ||| a == 127
    ||| (a == 192 && b == 168)
    ||| (a == 172 && 16 <= b <= 31)
    ||| (a == 169 && b == 254)
}

/// A lenient dotted quad in a local range: four dot-separated parts
/// that each parse as `u8`, whose first two octets fall in a private,
/// loopback or link-local prefix.
pub open spec fn is_lenient_local_v4(t: Seq<char>) -> bool {
    let parts = split_seq(t, '.');
    &&& parts.len() == 4
    &&& (forall|k: int| 0 <= k < 4 ==> parse_u8_seq(#[trigger] parts[k]) is Some)
    &&& local_v4_prefix(
        parse_u8_seq(parts[0])->Some_0 as int,
        parse_u8_seq(parts[1])->Some_0 as int,
    )
}

/// A local address: the IPv6 loopback, link-local or unique-local
/// prefixes (case-insensitively), or a lenient IPv4 quad in a local
/// range. Absent, empty or unparseable input is not local.
pub open spec fn is_local_seq(ip: Option<Seq<char>>) -> bool {
    match ip {
        None => false,
        Some(raw) => {
            let t = trim_seq(raw);
            if t.len() == 0 {
                false
            } else {
                let lo = lower_seq(t);
                ||| lo == seq![':', ':', '1']
                ||| starts_with_seq(lo, seq!['f', 'e', '8', '0', ':'])
                ||| starts_with_seq(lo, seq!['f', 'c'])
                ||| starts_with_seq(lo, seq!['f', 'd'])
                ||| is_lenient_local_v4(t)
            }
        },
    }
}

/// A wide-area address: a syntactically valid IP address that is
/// neither unspecified, nor multicast, nor local.
pub open spec fn is_wan_seq(ip: Option<Seq<char>>) -> bool {
    match ip {
        None => false,
        Some(raw) => {
            let t = trim_seq(raw);
            &&& t.len() > 0
            &&& is_valid_ip(t)
            &&& !ip_unspecified(t)
            &&& !ip_multicast(t)
            &&& !is_local_seq(Some(t))
        },
    }
}

fn local_of_chars(v: &Vec<char>) -> (r: bool)
    ensures
        r == is_local_seq(Some(v@)),
{
    let t = trim_chars(v);
    if t.len() == 0 {
        return false;
    }
    let lo = lower_chars(&t);
    let loopback6 = chars_of("::1");
    let linklocal6 = chars_of("fe80:");
    let unique_c = chars_of("fc");
    let unique_d = chars_of("fd");
    proof {
        reveal_strlit("::1");
        reveal_strlit("fe80:");
        reveal_strlit("fc");
        reveal_strlit("fd");
        assert(loopback6@ =~= seq![':', ':', '1']);
        assert(linklocal6@ =~= seq!['f', 'e', '8', '0', ':']);
        assert(unique_c@ =~= seq!['f', 'c']);
        assert(unique_d@ =~= seq!['f', 'd']);
    }
    if eq_chars(&lo, &loopback6) || starts_with_chars(&lo, &linklocal6) || starts_with_chars(
        &lo,
        &unique_c,
    ) || starts_with_chars(&lo, &unique_d) {
        return true;
    }
    let parts = split_chars(&t, '.');
    if parts.len() != 4 {
        return false;
    }
    let mut vals: Vec<u8> = Vec::new();
    let mut k: usize = 0;
    while k < 4
        invariant
            k <= 4,
            parts@.len() == 4,
            parts.deep_view() == split_seq(t@, '.'),
            vals@.len() == k,
            t@ == trim_seq(v@),
            t@.len() > 0,
            !(lower_seq(t@) == seq![':', ':', '1']),
            !starts_with_seq(lower_seq(t@), seq!['f', 'e', '8', '0', ':']),
            !starts_with_seq(lower_seq(t@), seq!['f', 'c']),
            !starts_with_seq(lower_seq(t@), seq!['f', 'd']),
            forall|j: int|
                0 <= j < k ==> parse_u8_seq(#[trigger] split_seq(t@, '.')[j]) == Some(vals@[j]),
        decreases 4 - k,
    {
        proof {
            assert(parts.deep_view()[k as int] == parts@[k as int]@);
        }
        match lenient_octet_of(&parts[k]) {
            None => {
                proof {
                    assert(!is_lenient_local_v4(t@));
                }
                return false;
            },
            Some(x) => {
                vals.push(x);
            },
        }
        k = k + 1;
    }
    local_v4_prefix_check(vals[0], vals[1])
}

fn local_v4_prefix_check(a: u8, b: u8) -> (r: bool)
    ensures
        r == local_v4_prefix(a as int, b as int),
{
    a == 10 || a == 127 || (a == 192 && b == 168) || (a == 172 && 16 <= b && b <= 31) || (a == 169
        && b == 254)
}

/// Whether an optional address string is local.
pub fn is_local_ip(ip: Option<&str>) -> (r: bool)
    ensures
        r == is_local_seq(ip.deep_view()),
{
    match ip {
        None => false,
        Some(s) => {
            let chars = chars_of(s);
            local_of_chars(&chars)
        },
    }
}

/// Whether an optional address string is a wide-area address.
pub fn is_wan_ip(ip: Option<&str>) -> (r: bool)
    ensures
        r == is_wan_seq(ip.deep_view()),
{
    match ip {
        None => false,
        Some(s) => {
            let chars = chars_of(s);
            let t = trim_chars(&chars);
            if t.len() == 0 {
                return false;
            }
            let summary = classify_ip(&t);
            if !summary.valid || summary.unspecified || summary.multicast {
                return false;
            }
            !local_of_chars(&t)
        },
    }
}

/// Whether an entry's source address is local.
pub fn is_local_src_ip(src_ip: Option<&str>) -> (r: bool)
    ensures
        r == is_local_seq(src_ip.deep_view()),
{
    is_local_ip(src_ip)
}

/// Whether an entry's source address is wide-area.
pub fn is_wan_src_ip(src_ip: Option<&str>) -> (r: bool)
    ensures
        r == is_wan_seq(src_ip.deep_view()),
{
    is_wan_ip(src_ip)
}

/// Local and wide-area classification are complementary: over every
/// syntactically valid, non-unspecified, non-multicast address, exactly
/// one of the two holds.
pub proof fn lemma_local_wan_complementary(ip: Seq<char>)
    requires
        is_valid_ip(trim_seq(ip)),
        !ip_unspecified(trim_seq(ip)),
        !ip_multicast(trim_seq(ip)),
    ensures
        is_local_seq(Some(ip)) == !is_wan_seq(Some(ip)),
{
    let t = trim_seq(ip);
    crate::text::lemma_trim_idempotent(ip);
    assert(is_local_seq(Some(t)) == is_local_seq(Some(ip)));
    if t.len() == 0 {
        // an empty string is no valid address of either family
        assert(split_seq(t, '.').len() == 1);
        assert(!crate::ip::is_ipv4_strict(t));
        assert(split_seq(t, ':').len() == 1);
        assert(!crate::ip::valid_full(split_seq(t, ':')));
        assert(forall|g: int| !crate::ip::gap_at(t, g));
        assert(forall|g: int| !crate::ip::valid_gap_at(t, g));
        assert(!crate::ip::is_ipv6(t));
        assert(false);
    }
}

/// Whether an entry passes the flow classifier: `All` always does,
/// `LocalToLocal` needs both endpoints local, `LocalToExternal` needs a
/// local source and a wide-area destination.
pub open spec fn spec_matches_flow(flow: FlowFilter, e: EntrySpec) -> bool {
    match flow {
        FlowFilter::All => true,
        FlowFilter::LocalToLocal => is_local_seq(e.src_ip) && is_local_seq(e.dst_ip),
        FlowFilter::LocalToExternal => is_local_seq(e.src_ip) && is_wan_seq(e.dst_ip),
    }
}

fn opt_local(o: &Option<String>) -> (r: bool)
    ensures
        r == is_local_seq(o.deep_view()),
{
    match o {
        None => false,
        Some(s) => local_of_chars(&chars_of(s.as_str())),
    }
}

fn opt_wan(o: &Option<String>) -> (r: bool)
    ensures
        r == is_wan_seq(o.deep_view()),
{
    match o {
        None => false,
        Some(s) => is_wan_ip(Some(s.as_str())),
    }
}

/// Whether an entry passes the flow classifier.
pub fn matches_flow_filter(flow: FlowFilter, entry: &LogEntry) -> (r: bool)
    ensures
        r == spec_matches_flow(flow, entry@),
{
    match flow {
        FlowFilter::All => true,
        FlowFilter::LocalToLocal => opt_local(&entry.src_ip) && opt_local(&entry.dst_ip),
        FlowFilter::LocalToExternal => opt_local(&entry.src_ip) && opt_wan(&entry.dst_ip),
    }
}

/// Whether an entry passes the direction classifier: `Both` always
/// does; otherwise the derived direction must equal the requested one.
pub open spec fn spec_matches_direction(d: DirectionFilter, e: EntrySpec) -> bool {
    match d {
        DirectionFilter::Both => true,
        DirectionFilter::In => crate::entry::spec_direction(e) == Direction::Inbound,
        DirectionFilter::Out => crate::entry::spec_direction(e) == Direction::Outbound,
        DirectionFilter::Forwarded => crate::entry::spec_direction(e) == Direction::Forwarded,
    }
}

/// Whether an entry passes the direction classifier.
pub fn matches_direction_filter(direction: DirectionFilter, entry: &LogEntry) -> (r: bool)
    ensures
        r == spec_matches_direction(direction, entry@),
{
    match direction {
        DirectionFilter::Both => true,
        DirectionFilter::In => entry.direction_kind() == Direction::Inbound,
        DirectionFilter::Out => entry.direction_kind() == Direction::Outbound,
        DirectionFilter::Forwarded => entry.direction_kind() == Direction::Forwarded,
    }
}

/// A name-pattern heuristic for wide-area interfaces. The exclusions
/// (loopback, container and tunnel prefixes) are checked first and take
/// precedence over the inclusion prefixes.
pub open spec fn is_wan_candidate(name: Seq<char>) -> bool {
    let lo = lower_seq(name);
    if lo == "lo"@ || starts_with_seq(lo, "docker"@) || starts_with_seq(lo, "veth"@)
        || starts_with_seq(lo, "virbr"@) || starts_with_seq(lo, "br-"@) || starts_with_seq(
        lo,
        "tailscale"@,
    ) || starts_with_seq(lo, "tun"@) || starts_with_seq(lo, "tap"@) || starts_with_seq(
        lo,
        "wg"@,
    ) {
        false
    } else {
        starts_with_seq(lo, "en"@) || starts_with_seq(lo, "eth"@) || starts_with_seq(lo, "wl"@)
            || starts_with_seq(lo, "wwan"@) || starts_with_seq(lo, "ppp"@) || contains_seq(
            lo,
            "wan"@,
        )
    }
}

/// Whether an interface name looks like a wide-area interface.
pub fn is_wan_candidate_interface(name: &str) -> (r: bool)
    ensures
        r == is_wan_candidate(name@),
{
    let chars = chars_of(name);
    let lo = lower_chars(&chars);
    if eq_chars(&lo, &chars_of("lo")) || starts_with_chars(&lo, &chars_of("docker"))
        || starts_with_chars(&lo, &chars_of("veth")) || starts_with_chars(&lo, &chars_of("virbr"))
        || starts_with_chars(&lo, &chars_of("br-")) || starts_with_chars(
        &lo,
        &chars_of("tailscale"),
    ) || starts_with_chars(&lo, &chars_of("tun")) || starts_with_chars(&lo, &chars_of("tap"))
        || starts_with_chars(&lo, &chars_of("wg")) {
        return false;
    }
    starts_with_chars(&lo, &chars_of("en")) || starts_with_chars(&lo, &chars_of("eth"))
        || starts_with_chars(&lo, &chars_of("wl")) || starts_with_chars(&lo, &chars_of("wwan"))
        || starts_with_chars(&lo, &chars_of("ppp")) || contains_chars(&lo, &chars_of("wan"))
}

/// The first catalogue entry that looks like a wide-area interface.
pub open spec fn first_candidate(options: Seq<Seq<char>>) -> Option<Seq<char>>
    decreases options.len(),
{
    if options.len() == 0 {
        None
    } else if is_wan_candidate(options[0]) {
        Some(options[0])
    } else {
        first_candidate(options.drop_first())
    }
}

/// The default interface for a catalogue: the first wide-area
/// candidate, else the first entry, else absent.
pub open spec fn spec_default_wan(options: Seq<Seq<char>>) -> Option<Seq<char>> {
    match first_candidate(options) {
        Some(x) => Some(x),
        None => if options.len() > 0 {
            Some(options[0])
        } else {
            None
        },
    }
}

/// Picks the default interface from an ordered catalogue of names.
pub fn default_wan_interface(options: &Vec<String>) -> (r: Option<String>)
    ensures
        match r {
            Some(s) => spec_default_wan(options.deep_view()) == Some(s@),
            None => spec_default_wan(options.deep_view()) is None,
        },
{
    let n = options.len();
    let mut i: usize = 0;
    proof {
        assert(options.deep_view().subrange(0, n as int) =~= options.deep_view());
    }
    while i < n
        invariant
            i <= n,
            n == options@.len(),
            options.deep_view().len() == n,
            first_candidate(options.deep_view()) == first_candidate(
                options.deep_view().subrange(i as int, n as int),
            ),
        decreases n - i,
    {
        let ghost rest = options.deep_view().subrange(i as int, n as int);
        proof {
            assert(rest[0] == options.deep_view()[i as int]);
            assert(rest.drop_first() =~= options.deep_view().subrange(i + 1, n as int));
        }
        if is_wan_candidate_interface(options[i].as_str()) {
            return Some(options[i].clone());
        }
        i = i + 1;
    }
    proof {
        assert(options.deep_view().subrange(i as int, n as int) =~= Seq::<Seq<char>>::empty());
    }
    if n > 0 {
        Some(options[0].clone())
    } else {
        None
    }
}

} // verus!
