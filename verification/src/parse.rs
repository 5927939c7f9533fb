//! The record parser: one kernel log line in, one structured entry out.
//! A line is accepted only when it carries a complete `[UFW <action>]`
//! marker; everything else about it is best effort and per field.
use vstd::prelude::*;

use crate::entry::{EntrySpec, LogEntry};
use crate::services::{spec_service_name, service_from_port, RowSpec, ServiceRegistry};
use crate::text::{
    chars_of, copy_range, find_char, find_sub, first_idx, first_match, parse_u16_chars,
    parse_u16_seq, string_from_chars, strip_trailing, strip_trailing_chars, tokens_chars,
    tokens_of, trim_chars, trim_seq, upper_chars, upper_seq,
};

verus! {

/// The opening of the firewall marker.
pub open spec fn marker_seq() -> Seq<char> {
    seq!['[', 'U', 'F', 'W', ' ']
}

/// The separator in front of the kernel message body.
pub open spec fn kernel_seq() -> Seq<char> {
    seq![' ', 'k', 'e', 'r', 'n', 'e', 'l', ':']
}

/// The action named by the line's `[UFW <action>]` marker: the trimmed
/// text between the first `[UFW ` and the next `]`. `None` when the
/// line has no complete marker.
pub open spec fn spec_action(line: Seq<char>) -> Option<Seq<char>> {
    let m = first_match(line, marker_seq());
    if m < 0 {
        None
    } else {
        let rest = line.subrange(m + 5, line.len() as int);
        let e = first_idx(rest, ']');
        if e < 0 {
            None
        } else {
            Some(trim_seq(rest.subrange(0, e)))
        }
    }
}

/// The timestamp of the line: everything before the first ` kernel:`,
/// trimmed; empty when that separator is absent.
pub open spec fn spec_timestamp(line: Seq<char>) -> Seq<char> {
    let k = first_match(line, kernel_seq());
    if k < 0 {
        Seq::empty()
    } else {
        trim_seq(line.subrange(0, k))
    }
}

/// The value a single `KEY=VALUE` token yields for `key`: the text
/// after the first `=`, stripped of trailing `,` and `]`, provided the
/// text before that `=` is exactly `key`.
pub open spec fn token_field(t: Seq<char>, key: Seq<char>) -> Option<Seq<char>> {
    let e = first_idx(t, '=');
    if e >= 0 && t.subrange(0, e) == key {
        Some(strip_trailing(t.subrange(e + 1, t.len() as int), ',', ']'))
    } else {
        None
    }
}

/// The value of the first token that yields one for `key`.
pub open spec fn find_field_in(toks: Seq<Seq<char>>, key: Seq<char>) -> Option<Seq<char>>
    decreases toks.len(),
{
    if toks.len() == 0 {
        None
    } else {
        match token_field(toks[0], key) {
            Some(v) => Some(v),
            None => find_field_in(toks.drop_first(), key),
        }
    }
}

/// The value of the first `key=` token of the line, scanning the
/// whitespace-separated tokens left to right.
pub open spec fn spec_field(line: Seq<char>, key: Seq<char>) -> Option<Seq<char>> {
    find_field_in(tokens_of(line), key)
}

/// The service name derived for an entry: the destination port is
/// looked up first, then the source port.
pub open spec fn spec_entry_service(
    rows: Seq<RowSpec>,
    src_port: Option<u16>,
    dst_port: Option<u16>,
) -> Option<Seq<char>> {
    let from_dst = match dst_port {
        Some(p) => spec_service_name(rows, p),
        None => None,
    };
    match from_dst {
        Some(s) => Some(s),
        None => match src_port {
            Some(p) => spec_service_name(rows, p),
            None => None,
        },
    }
}

/// The entry a line parses to, against the given service table: the
/// whole parse as a function of the line's characters alone.
pub open spec fn spec_parse(line: Seq<char>, rows: Seq<RowSpec>) -> Option<EntrySpec> {
    match spec_action(line) {
        None => None,
        Some(action) => {
            let src_port = match spec_field(line, seq!['S', 'P', 'T']) {
                Some(v) => parse_u16_seq(v),
                None => None,
            };
            let dst_port = match spec_field(line, seq!['D', 'P', 'T']) {
                Some(v) => parse_u16_seq(v),
                None => None,
            };
            Some(
                EntrySpec {
                    timestamp: spec_timestamp(line),
                    action,
                    in_iface: spec_field(line, seq!['I', 'N']),
                    out_iface: spec_field(line, seq!['O', 'U', 'T']),
                    src_ip: spec_field(line, seq!['S', 'R', 'C']),
                    dst_ip: spec_field(line, seq!['D', 'S', 'T']),
                    src_port,
                    dst_port,
                    proto: match spec_field(line, seq!['P', 'R', 'O', 'T', 'O']) {
                        Some(v) => Some(upper_seq(v)),
                        None => None,
                    },
                    service: spec_entry_service(rows, src_port, dst_port),
                    raw: line,
                },
            )
        },
    }
}

fn action_chars(v: &Vec<char>) -> (r: Option<Vec<char>>)
    ensures
        match r {
            Some(a) => spec_action(v@) == Some(a@),
            None => spec_action(v@) is None,
        },
{
    let mut marker: Vec<char> = Vec::new();
    marker.push('[');
    marker.push('U');
    marker.push('F');
    marker.push('W');
    marker.push(' ');
    proof {
        assert(marker@ =~= marker_seq());
    }
    match find_sub(v, &marker) {
        None => None,
        Some(m) => {
            proof {
                crate::text::lemma_first_match(v@, marker_seq());
                assert(marker_seq().len() == 5);
                assert(crate::text::match_at(v@, marker_seq(), m as int));
                assert(m + 5 <= v@.len());
            }
            let n = v.len();
            proof {
                assert(m + 5 <= n);
            }
            let rest = copy_range(v, m + 5, n);
            match find_char(&rest, ']') {
                None => None,
                Some(e) => {
                    proof {
                        crate::text::lemma_first_idx(rest@, ']');
                    }
                    let body = copy_range(&rest, 0, e);
                    Some(trim_chars(&body))
                },
            }
        },
    }
}

/// The trimmed text between the line's `[UFW ` and the next `]`.
pub fn parse_action(line: &str) -> (r: Option<String>)
    ensures
        match r {
            Some(a) => spec_action(line@) == Some(a@),
            None => spec_action(line@) is None,
        },
{
    let chars = chars_of(line);
    match action_chars(&chars) {
        Some(a) => Some(string_from_chars(&a)),
        None => None,
    }
}

fn field_chars(v: &Vec<char>, key: &Vec<char>) -> (r: Option<Vec<char>>)
    ensures
        match r {
            Some(val) => spec_field(v@, key@) == Some(val@),
            None => spec_field(v@, key@) is None,
        },
{
    let toks = tokens_chars(v);
    let n = toks.len();
    let mut i: usize = 0;
    proof {
        assert(toks.deep_view().subrange(0, n as int) =~= toks.deep_view());
    }
    while i < n
        invariant
            i <= n,
            n == toks@.len(),
            toks.deep_view().len() == n,
            toks.deep_view() == tokens_of(v@),
            find_field_in(tokens_of(v@), key@) == find_field_in(
                toks.deep_view().subrange(i as int, n as int),
                key@,
            ),
        decreases n - i,
    {
        let ghost rest = toks.deep_view().subrange(i as int, n as int);
        proof {
            assert(rest[0] == toks.deep_view()[i as int]);
            assert(rest.drop_first() =~= toks.deep_view().subrange(i + 1, n as int));
        }
        let tok = &toks[i];
        match find_char(tok, '=') {
            Some(e) => {
                proof {
                    crate::text::lemma_first_idx(tok@, '=');
                    assert(tok@ == toks.deep_view()[i as int]);
                    assert(e < tok@.len());
                }
                if e == key.len() {
                    let pre = copy_range(tok, 0, e);
                    if crate::text::eq_chars(&pre, key) {
                        let raw_val = copy_range(tok, e + 1, tok.len());
                        let val = strip_trailing_chars(&raw_val, ',', ']');
                        proof {
                            assert(token_field(toks.deep_view()[i as int], key@) == Some(val@));
                        }
                        return Some(val);
                    } else {
                        proof {
                            assert(tok@.subrange(0, e as int) != key@);
                            assert(token_field(toks.deep_view()[i as int], key@) is None);
                        }
                    }
                } else {
                    proof {
                        if tok@.subrange(0, e as int) == key@ {
                            assert(tok@.subrange(0, e as int).len() == key@.len());
                            assert(false);
                        }
                        assert(token_field(toks.deep_view()[i as int], key@) is None);
                    }
                }
            },
            None => {
                proof {
                    assert(tok@ == toks.deep_view()[i as int]);
                    assert(token_field(toks.deep_view()[i as int], key@) is None);
                }
            },
        }
        i = i + 1;
    }
    proof {
        assert(toks.deep_view().subrange(i as int, n as int) =~= Seq::<Seq<char>>::empty());
    }
    None
}

/// The cleaned value of the first `name=` token of the line.
pub fn parse_field(line: &str, name: &str) -> (r: Option<String>)
    ensures
        match r {
            Some(val) => spec_field(line@, name@) == Some(val@),
            None => spec_field(line@, name@) is None,
        },
{
    let chars = chars_of(line);
    let key = chars_of(name);
    match field_chars(&chars, &key) {
        Some(val) => Some(string_from_chars(&val)),
        None => None,
    }
}

fn opt_string(o: Option<Vec<char>>) -> (r: Option<String>)
    ensures
        match r {
            Some(s) => o matches Some(v) && s@ == v@,
            None => o is None,
        },
{
    match o {
        Some(v) => Some(string_from_chars(&v)),
        None => None,
    }
}

/// Parses one kernel log line containing a UFW marker into a structured
/// entry. The result is a function of the line and the service table
/// alone; `raw` holds the line verbatim.
pub fn parse_ufw_line(line: &str, services: &ServiceRegistry) -> (r: Option<LogEntry>)
    ensures
        match r {
            Some(e) => spec_parse(line@, services@) == Some(e@),
            None => spec_parse(line@, services@) is None,
        },
        r matches Some(e) ==> e@.raw == line@,
{
    let chars = chars_of(line);
    let action = match action_chars(&chars) {
        None => {
            return None;
        },
        Some(a) => string_from_chars(&a),
    };
    let mut kernel: Vec<char> = Vec::new();
    kernel.push(' ');
    kernel.push('k');
    kernel.push('e');
    kernel.push('r');
    kernel.push('n');
    kernel.push('e');
    kernel.push('l');
    kernel.push(':');
    proof {
        assert(kernel@ =~= kernel_seq());
    }
    let timestamp = match find_sub(&chars, &kernel) {
        None => String::new(),
        Some(k) => {
            proof {
                crate::text::lemma_first_match(chars@, kernel_seq());
                assert(kernel_seq().len() == 8);
                assert(crate::text::match_at(chars@, kernel_seq(), k as int));
                assert(k <= chars@.len());
            }
            let head = copy_range(&chars, 0, k);
            string_from_chars(&trim_chars(&head))
        },
    };

    let mut key_in: Vec<char> = Vec::new();
    key_in.push('I');
    key_in.push('N');
    let mut key_out: Vec<char> = Vec::new();
    key_out.push('O');
    key_out.push('U');
    key_out.push('T');
    let mut key_src: Vec<char> = Vec::new();
    key_src.push('S');
    key_src.push('R');
    key_src.push('C');
    let mut key_dst: Vec<char> = Vec::new();
    key_dst.push('D');
    key_dst.push('S');
    key_dst.push('T');
    let mut key_proto: Vec<char> = Vec::new();
    key_proto.push('P');
    key_proto.push('R');
    key_proto.push('O');
    key_proto.push('T');
    key_proto.push('O');
    let mut key_spt: Vec<char> = Vec::new();
    key_spt.push('S');
    key_spt.push('P');
    key_spt.push('T');
    let mut key_dpt: Vec<char> = Vec::new();
    key_dpt.push('D');
    key_dpt.push('P');
    key_dpt.push('T');
    proof {
        assert(key_in@ =~= seq!['I', 'N']);
        assert(key_out@ =~= seq!['O', 'U', 'T']);
        assert(key_src@ =~= seq!['S', 'R', 'C']);
        assert(key_dst@ =~= seq!['D', 'S', 'T']);
        assert(key_proto@ =~= seq!['P', 'R', 'O', 'T', 'O']);
        assert(key_spt@ =~= seq!['S', 'P', 'T']);
        assert(key_dpt@ =~= seq!['D', 'P', 'T']);
    }

    let in_iface = opt_string(field_chars(&chars, &key_in));
    let out_iface = opt_string(field_chars(&chars, &key_out));
    let src_ip = opt_string(field_chars(&chars, &key_src));
    let dst_ip = opt_string(field_chars(&chars, &key_dst));
    let proto = match field_chars(&chars, &key_proto) {
        Some(v) => Some(string_from_chars(&upper_chars(&v))),
        None => None,
    };
    let src_port = match field_chars(&chars, &key_spt) {
        Some(v) => parse_u16_chars(&v),
        None => None,
    };
    let dst_port = match field_chars(&chars, &key_dpt) {
        Some(v) => parse_u16_chars(&v),
        None => None,
    };

    let from_dst = match dst_port {
        Some(p) => service_from_port(services, p),
        None => None,
    };
    let service = match from_dst {
        Some(s) => Some(s),
        None => match src_port {
            Some(p) => service_from_port(services, p),
            None => None,
        },
    };

    Some(
        LogEntry {
            timestamp,
            action,
            in_iface,
            out_iface,
            src_ip,
            dst_ip,
            src_port,
            dst_port,
            proto,
            service,
            raw: line.to_owned(),
        },
    )
}

/// The entries yielded by the first `i` lines, in file order.
pub open spec fn parsed_upto(lines: Seq<Seq<char>>, rows: Seq<RowSpec>, i: int) -> Seq<EntrySpec>
    decreases i,
{
    if i <= 0 {
        Seq::empty()
    } else {
        parsed_upto(lines, rows, i - 1) + match spec_parse(lines[i - 1], rows) {
            Some(e) => seq![e],
            None => Seq::empty(),
        }
    }
}

pub proof fn lemma_parsed_upto_len(lines: Seq<Seq<char>>, rows: Seq<RowSpec>, i: int)
    ensures
        parsed_upto(lines, rows, i).len() <= (if i >= 0 {
            i
        } else {
            0
        }),
    decreases i,
{
    if i > 0 {
        lemma_parsed_upto_len(lines, rows, i - 1);
    }
}

/// The entry collection a whole file yields: every line parsed
/// independently, rejected lines dropped, and the order reversed so
/// the newest entry comes first.
pub open spec fn spec_entries(lines: Seq<Seq<char>>, rows: Seq<RowSpec>) -> Seq<EntrySpec> {
    parsed_upto(lines, rows, lines.len() as int).reverse()
}

/// Parses every line independently and returns the accepted entries
/// newest first.
pub fn entries_from_lines(lines: &Vec<String>, services: &ServiceRegistry) -> (r: Vec<LogEntry>)
    ensures
        r.deep_view() == spec_entries(lines.deep_view(), services@),
{
    let n = lines.len();
    let mut fwd: Vec<LogEntry> = Vec::new();
    let mut i: usize = 0;
    while i < n
        invariant
            i <= n,
            n == lines@.len(),
            lines.deep_view().len() == n,
            fwd.deep_view() == parsed_upto(lines.deep_view(), services@, i as int),
        decreases n - i,
    {
        proof {
            assert(lines.deep_view()[i as int] == lines@[i as int]@);
        }
        let ghost pre = fwd.deep_view();
        match parse_ufw_line(lines[i].as_str(), services) {
            Some(e) => {
                fwd.push(e);
                proof {
                    assert(fwd.deep_view() =~= pre + seq![
                        spec_parse(lines.deep_view()[i as int], services@)->Some_0,
                    ]);
                }
            },
            None => {},
        }
        i = i + 1;
        proof {
            assert(fwd.deep_view() =~= parsed_upto(lines.deep_view(), services@, i as int));
        }
    }
    let m = fwd.len();
    let mut r: Vec<LogEntry> = Vec::new();
    while r.len() < m
        invariant
            m == fwd@.len(),
            r@.len() <= m,
            fwd.deep_view() == parsed_upto(lines.deep_view(), services@, lines.deep_view().len() as int),
            forall|j: int|
                0 <= j < r@.len() ==> #[trigger] r.deep_view()[j] == fwd.deep_view()[m - 1 - j],
        decreases m - r.len(),
    {
        let k = m - 1 - r.len();
        // moving is not possible while `fwd` is still read, so rebuild the
        // entry by field
        let e = &fwd[k];
        let ghost pre = r.deep_view();
        r.push(
            LogEntry {
                timestamp: e.timestamp.clone(),
                action: e.action.clone(),
                in_iface: clone_opt(&e.in_iface),
                out_iface: clone_opt(&e.out_iface),
                src_ip: clone_opt(&e.src_ip),
                dst_ip: clone_opt(&e.dst_ip),
                src_port: e.src_port,
                dst_port: e.dst_port,
                proto: clone_opt(&e.proto),
                service: clone_opt(&e.service),
                raw: e.raw.clone(),
            },
        );
        proof {
            assert(r@.last()@ == fwd@[k as int]@);
            assert(r.deep_view() =~= pre + seq![fwd.deep_view()[k as int]]);
        }
    }
    proof {
        if fwd.deep_view().len() == 0 {
            assert(r.deep_view() =~= fwd.deep_view().reverse());
        } else {
            assert(r.deep_view() =~= fwd.deep_view().reverse());
        }
    }
    r
}

fn clone_opt(o: &Option<String>) -> (r: Option<String>)
    ensures
        r.deep_view() == o.deep_view(),
{
    match o {
        Some(s) => Some(s.clone()),
        None => None,
    }
}

/// A line with no `[UFW ` marker never yields an entry.
///
/// This also covers incomplete markers: a line whose marker is not
/// followed by a closing bracket yields no entry either, by
/// `spec_action`.
pub proof fn lemma_no_marker_no_entry(line: Seq<char>, rows: Seq<RowSpec>)
    requires
        !crate::text::contains_seq(line, marker_seq()),
    ensures
        spec_parse(line, rows) is None,
{
}

/// A parsed entry's `raw` field is the source line, byte for byte.
pub proof fn lemma_parse_preserves_raw(line: Seq<char>, rows: Seq<RowSpec>)
    ensures
        spec_parse(line, rows) matches Some(e) ==> e.raw == line,
{
}

/// Parsing is deterministic: the entry is a function of the line and
/// the service table alone, so equal lines parse equally.
pub proof fn lemma_parse_deterministic(l1: Seq<char>, l2: Seq<char>, rows: Seq<RowSpec>)
    requires
        l1 == l2,
    ensures
        spec_parse(l1, rows) == spec_parse(l2, rows),
{
}

} // verus!
