//! Pure presentation helpers: labels, widths, truncation, and the
//! timestamp and service texts shown for an entry. Everything here is
//! a function of its inputs; layout and drawing stay with the caller.
use vstd::prelude::*;

use crate::entry::LogEntry;
use crate::filter::FilterField;
use crate::services::{spec_service_description, service_description_from_port, ServiceRegistry};
use crate::text::{
    chars_of, first_idx, lower_seq, split_chars, split_seq, string_from_chars, tokens_chars,
    tokens_of, trim_chars, trim_seq,
};

verus! {

/// A criterion value as shown: `*` when the criterion is off.
pub fn display_filter_value(value: &str) -> (r: &str)
    ensures
        r@ == (if value@.len() == 0 {
            "*"@
        } else {
            value@
        }),
{
    if value.is_empty() {
        "*"
    } else {
        value
    }
}

/// The interface label as shown: `all` when none is selected.
pub fn selected_iface_label<'a>(value: Option<&'a str>) -> (r: &'a str)
    ensures
        r@ == (match value {
            Some(v) => v@,
            None => "all"@,
        }),
{
    match value {
        Some(v) => v,
        None => "all",
    }
}

/// The pause chip as shown.
pub fn pause_chip_label(paused: bool) -> (r: &'static str)
    ensures
        r@ == (if paused {
            "[paused]"@
        } else {
            "[live]"@
        }),
{
    if paused {
        "[paused]"
    } else {
        "[live]"
    }
}

/// The criterion bound to a function key, keys one to six in field
/// order.
pub fn field_from_fkey(n: u8) -> (r: Option<FilterField>)
    ensures
        r == (match n {
            1u8 => Some(FilterField::Service),
            2u8 => Some(FilterField::Port),
            3u8 => Some(FilterField::Ip),
            4u8 => Some(FilterField::Action),
            5u8 => Some(FilterField::Proto),
            6u8 => Some(FilterField::Text),
            _ => None,
        }),
{
    match n {
        1 => Some(FilterField::Service),
        2 => Some(FilterField::Port),
        3 => Some(FilterField::Ip),
        4 => Some(FilterField::Action),
        5 => Some(FilterField::Proto),
        6 => Some(FilterField::Text),
        _ => None,
    }
}

/// How many interface chips fit a given terminal width.
pub fn max_visible_ifaces(width: u16) -> (r: usize)
    ensures
        r == (if width >= 160 {
            8int
        } else if width >= 120 {
            6int
        } else {
            4int
        }),
{
    if width >= 160 {
        8
    } else if width >= 120 {
        6
    } else {
        4
    }
}

/// The interface-row prefix for a given terminal width.
pub fn interface_prefix(width: u16) -> (r: &'static str)
    ensures
        r@ == (if width >= 120 {
            "interface: "@
        } else {
            "iface "@
        }),
{
    if width >= 120 {
        "interface: "
    } else {
        "iface "
    }
}

/// The display width of a text in character cells, capped to what a
/// cell count can hold.
pub fn text_cells(text: &str) -> (r: u16)
    ensures
        r == (if text@.len() > 65535 {
            65535int
        } else {
            text@.len() as int
        }),
{
    let n = text.unicode_len();
    if n > 65535 {
        65535
    } else {
        n as u16
    }
}

/// A run of spaces.
pub open spec fn spaces(n: int) -> Seq<char> {
    Seq::new(n as nat, |i: int| ' ')
}

/// The text padded with spaces to a width; a text at least as wide is
/// returned unchanged.
pub fn pad_to_width(text: &str, width: usize) -> (r: String)
    ensures
        r@ == (if text@.len() >= width {
            text@
        } else {
            text@ + spaces(width - text@.len())
        }),
{
    let used = text.unicode_len();
    if used >= width {
        return text.to_owned();
    }
    let mut out = chars_of(text);
    let mut i: usize = used;
    while i < width
        invariant
            used <= i <= width,
            used == text@.len(),
            out@ == text@ + spaces(i - used),
        decreases width - i,
    {
        out.push(' ');
        i = i + 1;
        proof {
            assert(out@ =~= text@ + spaces(i - used));
        }
    }
    string_from_chars(&out)
}

/// A run of dots.
pub open spec fn dots(n: int) -> Seq<char> {
    Seq::new(n as nat, |i: int| '.')
}

/// The text cut to a width: an over-long text keeps its first
/// characters and ends in three dots; at three cells or fewer only
/// dots remain.
pub fn truncate_with_ellipsis(text: &str, max_width: usize) -> (r: String)
    ensures
        r@ == (if max_width == 0 {
            Seq::<char>::empty()
        } else if text@.len() <= max_width {
            text@
        } else if max_width <= 3 {
            dots(max_width as int)
        } else {
            text@.take(max_width - 3) + dots(3)
        }),
{
    if max_width == 0 {
        let empty = String::new();
        proof {
            assert(empty@ =~= Seq::<char>::empty());
        }
        return empty;
    }
    let cell_count = text.unicode_len();
    if cell_count <= max_width {
        return text.to_owned();
    }
    if max_width <= 3 {
        let mut out: Vec<char> = Vec::new();
        let mut i: usize = 0;
        while i < max_width
            invariant
                i <= max_width,
                out@ == dots(i as int),
            decreases max_width - i,
        {
            out.push('.');
            i = i + 1;
            proof {
                assert(out@ =~= dots(i as int));
            }
        }
        return string_from_chars(&out);
    }
    let keep = max_width - 3;
    let chars = chars_of(text);
    let mut out = crate::text::copy_range(&chars, 0, keep);
    out.push('.');
    out.push('.');
    out.push('.');
    proof {
        assert(out@ =~= text@.take(keep as int) + dots(3));
    }
    string_from_chars(&out)
}

/// A line's display width: its length without one trailing carriage
/// return.
pub open spec fn line_width(l: Seq<char>) -> int {
    if l.len() > 0 && l.last() == '\r' {
        l.len() - 1
    } else {
        l.len() as int
    }
}

/// The widest display line among the first `i` lines.
pub open spec fn max_line_width(parts: Seq<Seq<char>>, i: int) -> int
    decreases i,
{
    if i <= 0 {
        0
    } else {
        let rest = max_line_width(parts, i - 1);
        if line_width(parts[i - 1]) > rest {
            line_width(parts[i - 1])
        } else {
            rest
        }
    }
}

/// The display lines of a text, as `str::lines`: split at newlines,
/// without a trailing empty line.
pub open spec fn display_lines(s: Seq<char>) -> Seq<Seq<char>> {
    let parts = split_seq(s, '\n');
    if s.len() == 0 {
        Seq::empty()
    } else if s.last() == '\n' {
        parts.drop_last()
    } else {
        parts
    }
}

/// How far a text can scroll right in a window: its widest line less
/// the window width, capped to what the scroll field can hold; zero
/// for a window of no width.
pub fn max_horizontal_scroll(text: &str, content_width: u16) -> (r: u16)
    ensures
        ({
            let lines = display_lines(text@);
            let longest = max_line_width(lines, lines.len() as int);
            r == (if content_width == 0 {
                0int
            } else if longest <= content_width {
                0int
            } else if longest - content_width > 65535 {
                65535int
            } else {
                longest - content_width
            })
        }),
{
    if content_width == 0 {
        return 0;
    }
    let chars = chars_of(text);
    let all_parts = split_chars(&chars, '\n');
    let ghost lines = display_lines(text@);
    let n = if chars.len() == 0 {
        0
    } else if chars[chars.len() - 1] == '\n' {
        all_parts.len() - 1
    } else {
        all_parts.len()
    };
    proof {
        if text@.len() > 0 && text@.last() != '\n' {
            assert(lines =~= all_parts.deep_view());
        }
        assert(lines.len() == n);
        assert(forall|j: int| 0 <= j < n ==> #[trigger] lines[j] == all_parts.deep_view()[j]);
    }
    let mut longest: usize = 0;
    let mut i: usize = 0;
    while i < n
        invariant
            i <= n,
            n <= all_parts@.len(),
            lines.len() == n,
            forall|j: int| 0 <= j < n ==> #[trigger] lines[j] == all_parts.deep_view()[j],
            longest == max_line_width(lines, i as int),
        decreases n - i,
    {
        proof {
            assert(all_parts.deep_view()[i as int] == all_parts@[i as int]@);
        }
        let part = &all_parts[i];
        let w = if part.len() > 0 && part[part.len() - 1] == '\r' {
            part.len() - 1
        } else {
            part.len()
        };
        if w > longest {
            longest = w;
        }
        i = i + 1;
    }
    let cw = content_width as usize;
    if longest <= cw {
        0
    } else if longest - cw > 65535 {
        65535
    } else {
        (longest - cw) as u16
    }
}

/// The timestamp as shown for one row. An ISO-style first token keeps
/// its date and clock parts; a syslog-style `Mon DD hh:mm:ss` keeps
/// its three fields; anything else is shown whole. Without the date,
/// only the clock part is shown.
pub open spec fn spec_format_timestamp(ts: Seq<char>, show_date: bool) -> Seq<char> {
    let toks = tokens_of(ts);
    let token = if toks.len() > 0 {
        trim_seq(toks[0])
    } else {
        Seq::empty()
    };
    let t_at = first_idx(token, 'T');
    if t_at >= 0 {
        let date = token.take(t_at);
        let time_part = token.skip(t_at + 1);
        let time0 = cut_at(cut_at(cut_at(time_part, '.'), '+'), 'Z');
        let time = cut_at(time0, '-');
        if date.len() > 0 && time.len() > 0 {
            if show_date {
                date + seq![' '] + time
            } else {
                time
            }
        } else {
            syslog_or_whole(ts, show_date)
        }
    } else {
        syslog_or_whole(ts, show_date)
    }
}

/// The part of a sequence before the first occurrence of a character.
pub open spec fn cut_at(s: Seq<char>, c: char) -> Seq<char> {
    let i = first_idx(s, c);
    if i >= 0 {
        s.take(i)
    } else {
        s
    }
}

/// The syslog reading of a timestamp: with at least three tokens whose
/// third holds a colon, the first three tokens (or just the third); a
/// timestamp of any other shape is shown whole.
pub open spec fn syslog_or_whole(ts: Seq<char>, show_date: bool) -> Seq<char> {
    let toks = tokens_of(ts);
    if toks.len() >= 3 && first_idx(toks[2], ':') >= 0 {
        if show_date {
            toks[0] + seq![' '] + toks[1] + seq![' '] + toks[2]
        } else {
            toks[2]
        }
    } else {
        ts
    }
}

fn cut_at_ex(v: Vec<char>, c: char) -> (r: Vec<char>)
    ensures
        r@ == cut_at(v@, c),
{
    proof {
        crate::text::lemma_first_idx(v@, c);
    }
    match crate::text::find_char(&v, c) {
        Some(i) => {
            let r = crate::text::copy_range(&v, 0, i);
            proof {
                assert(r@ =~= cut_at(v@, c));
            }
            r
        },
        None => v,
    }
}

/// The timestamp as shown for one row.
pub fn format_timestamp_for_width(timestamp: &str, show_date: bool) -> (r: String)
    ensures
        r@ == spec_format_timestamp(timestamp@, show_date),
{
    let chars = chars_of(timestamp);
    let toks = tokens_chars(&chars);
    let token = if toks.len() > 0 {
        proof {
            assert(toks.deep_view()[0] == toks@[0]@);
        }
        trim_chars(&toks[0])
    } else {
        Vec::new()
    };
    proof {
        if tokens_of(timestamp@).len() == 0 {
            assert(token@ =~= Seq::<char>::empty());
        }
        crate::text::lemma_first_idx(token@, 'T');
    }
    match crate::text::find_char(&token, 'T') {
        Some(t_at) => {
            let token_len = token.len();
            proof {
                crate::text::lemma_first_idx(token@, 'T');
                assert(t_at < token_len);
            }
            let date = crate::text::copy_range(&token, 0, t_at);
            let time_part = crate::text::copy_range(&token, t_at + 1, token_len);
            proof {
                assert(date@ =~= token@.take(t_at as int));
                assert(time_part@ =~= token@.skip(t_at + 1));
            }
            let time = cut_at_ex(cut_at_ex(cut_at_ex(cut_at_ex(time_part, '.'), '+'), 'Z'), '-');
            if date.len() > 0 && time.len() > 0 {
                if show_date {
                    let mut out = date;
                    out.push(' ');
                    let mut k: usize = 0;
                    let ghost base = out@;
                    while k < time.len()
                        invariant
                            k <= time@.len(),
                            out@ == base + time@.take(k as int),
                        decreases time@.len() - k,
                    {
                        out.push(time[k]);
                        k = k + 1;
                        proof {
                            assert(out@ =~= base + time@.take(k as int));
                        }
                    }
                    proof {
                        assert(out@ =~= token@.take(t_at as int) + seq![' '] + time@);
                    }
                    string_from_chars(&out)
                } else {
                    string_from_chars(&time)
                }
            } else {
                syslog_or_whole_ex(timestamp, &chars, show_date)
            }
        },
        None => syslog_or_whole_ex(timestamp, &chars, show_date),
    }
}

fn syslog_or_whole_ex(timestamp: &str, chars: &Vec<char>, show_date: bool) -> (r: String)
    requires
        chars@ == timestamp@,
    ensures
        r@ == syslog_or_whole(timestamp@, show_date),
{
    let toks = tokens_chars(chars);
    if toks.len() >= 3 {
        proof {
            assert(toks.deep_view()[0] == toks@[0]@);
            assert(toks.deep_view()[1] == toks@[1]@);
            assert(toks.deep_view()[2] == toks@[2]@);
            crate::text::lemma_first_idx(toks@[2]@, ':');
        }
        let has_colon = match crate::text::find_char(&toks[2], ':') {
            Some(_) => true,
            None => false,
        };
        if has_colon {
            if show_date {
                let mut out: Vec<char> = Vec::new();
                let mut t: usize = 0;
                while t < 3
                    invariant
                        t <= 3,
                        toks@.len() >= 3,
                        toks.deep_view().len() >= 3,
                        out@ == (if t == 0 {
                            Seq::<char>::empty()
                        } else if t == 1 {
                            toks.deep_view()[0]
                        } else if t == 2 {
                            toks.deep_view()[0] + seq![' '] + toks.deep_view()[1]
                        } else {
                            toks.deep_view()[0] + seq![' '] + toks.deep_view()[1] + seq![' ']
                                + toks.deep_view()[2]
                        }),
                    decreases 3 - t,
                {
                    if t > 0 {
                        out.push(' ');
                    }
                    let ghost mid = out@;
                    proof {
                        assert(toks.deep_view()[t as int] == toks@[t as int]@);
                    }
                    let tok = &toks[t];
                    let mut k: usize = 0;
                    while k < tok.len()
                        invariant
                            k <= tok@.len(),
                            out@ == mid + tok@.take(k as int),
                        decreases tok@.len() - k,
                    {
                        out.push(tok[k]);
                        k = k + 1;
                        proof {
                            assert(out@ =~= mid + tok@.take(k as int));
                        }
                    }
                    proof {
                        assert(tok@.take(tok@.len() as int) =~= tok@);
                    }
                    t = t + 1;
                    proof {
                        assert(out@ =~= (if t == 1 {
                            toks.deep_view()[0]
                        } else if t == 2 {
                            toks.deep_view()[0] + seq![' '] + toks.deep_view()[1]
                        } else {
                            toks.deep_view()[0] + seq![' '] + toks.deep_view()[1] + seq![' ']
                                + toks.deep_view()[2]
                        }));
                    }
                }
                string_from_chars(&out)
            } else {
                proof {
                    assert(toks.deep_view()[2] == toks@[2]@);
                }
                string_from_chars(&toks[2])
            }
        } else {
            timestamp.to_owned()
        }
    } else {
        timestamp.to_owned()
    }
}

/// The service text shown for one row: the service name, or `-`
/// without one; with descriptions on, the registry description is
/// appended after a colon unless it only repeats the name.
pub open spec fn spec_service_display(
    e: crate::entry::EntrySpec,
    show_description: bool,
    rows: Seq<crate::services::RowSpec>,
) -> Seq<char> {
    match e.service {
        None => seq!['-'],
        Some(name) => {
            if !show_description {
                name
            } else {
                let port = if e.dst_port is Some {
                    e.dst_port
                } else {
                    e.src_port
                };
                match port {
                    None => name,
                    Some(p) => match spec_service_description(rows, p) {
                        None => name,
                        Some(d) => if lower_seq(d) == lower_seq(name) {
                            name
                        } else {
                            name + seq![':', ' '] + d
                        },
                    },
                }
            }
        },
    }
}

/// The service text shown for one row.
pub fn service_display_for_entry(
    entry: &LogEntry,
    show_description: bool,
    services: &ServiceRegistry,
) -> (r: String)
    ensures
        r@ == spec_service_display(entry@, show_description, services@),
{
    let name = match &entry.service {
        None => {
            let mut v: Vec<char> = Vec::new();
            v.push('-');
            proof {
                assert(v@ =~= seq!['-']);
            }
            return string_from_chars(&v);
        },
        Some(s) => s,
    };
    if !show_description {
        return name.clone();
    }
    let port = match entry.dst_port {
        Some(p) => Some(p),
        None => entry.src_port,
    };
    let p = match port {
        None => {
            return name.clone();
        },
        Some(p) => p,
    };
    let desc = match service_description_from_port(services, p) {
        None => {
            return name.clone();
        },
        Some(d) => d,
    };
    let name_chars = chars_of(name.as_str());
    let desc_chars = chars_of(desc.as_str());
    let ln = crate::text::lower_chars(&name_chars);
    let ld = crate::text::lower_chars(&desc_chars);
    if crate::text::eq_chars(&ld, &ln) {
        return name.clone();
    }
    let mut out = name_chars;
    out.push(':');
    out.push(' ');
    let ghost base = out@;
    let mut k: usize = 0;
    while k < desc_chars.len()
        invariant
            k <= desc_chars@.len(),
            out@ == base + desc_chars@.take(k as int),
        decreases desc_chars@.len() - k,
    {
        out.push(desc_chars[k]);
        k = k + 1;
        proof {
            assert(out@ =~= base + desc_chars@.take(k as int));
        }
    }
    proof {
        assert(out@ =~= name@ + seq![':', ' '] + desc@);
    }
    string_from_chars(&out)
}

} // verus!
