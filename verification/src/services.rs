//! The port-to-service registry: built once from the rows of a
//! service-names CSV table, and consulted as a pure lookup keyed by
//! port number with first-encountered-row-wins semantics.
use vstd::prelude::*;

use crate::text::{
    chars_of, copy_range, eq_chars, lower_chars, lower_seq, next_comma, parse_u16_chars,
    parse_u16_seq, string_from_chars, trim_chars, trim_seq,
};

verus! {

/// Model of one registry row.
pub struct RowSpec {
    pub port: u16,
    pub name: Seq<char>,
    pub description: Seq<char>,
}

/// One accepted row of the service table.
pub struct ServiceRow {
    pub port: u16,
    pub name: String,
    pub description: String,
}

impl View for ServiceRow {
    type V = RowSpec;

    open spec fn view(&self) -> RowSpec {
        RowSpec { port: self.port, name: self.name@, description: self.description@ }
    }
}

/// The port-to-service table, in source order; lookups take the first
/// row with the requested port.
pub struct ServiceRegistry {
    pub rows: Vec<ServiceRow>,
}

impl View for ServiceRegistry {
    type V = Seq<RowSpec>;

    open spec fn view(&self) -> Seq<RowSpec> {
        Seq::new(self.rows@.len(), |i: int| self.rows@[i]@)
    }
}

/// The first row with the given port, if any.
pub open spec fn lookup_row(rows: Seq<RowSpec>, port: u16) -> Option<RowSpec>
    decreases rows.len(),
{
    if rows.len() == 0 {
        None
    } else if rows[0].port == port {
        Some(rows[0])
    } else {
        lookup_row(rows.drop_first(), port)
    }
}

/// The registered service name for a port.
pub open spec fn spec_service_name(rows: Seq<RowSpec>, port: u16) -> Option<Seq<char>> {
    match lookup_row(rows, port) {
        Some(r) => Some(r.name),
        None => None,
    }
}

/// The registered service description for a port; an empty description
/// counts as absent.
pub open spec fn spec_service_description(rows: Seq<RowSpec>, port: u16) -> Option<Seq<char>> {
    match lookup_row(rows, port) {
        Some(r) => if r.description.len() == 0 {
            None
        } else {
            Some(r.description)
        },
        None => None,
    }
}

/// A CSV field cleaned for use: trimmed, with one pair of surrounding
/// double quotes removed.
pub open spec fn csv_field_seq(s: Seq<char>) -> Seq<char> {
    let t = trim_seq(s);
    if t.len() >= 2 && t[0] == '"' && t.last() == '"' {
        t.subrange(1, t.len() - 1)
    } else {
        t
    }
}

pub fn csv_field_chars(v: &Vec<char>) -> (r: Vec<char>)
    ensures
        r@ == csv_field_seq(v@),
{
    let t = trim_chars(v);
    if t.len() >= 2 && t[0] == '"' && t[t.len() - 1] == '"' {
        let mut r: Vec<char> = Vec::new();
        let mut i: usize = 1;
        let hi = t.len() - 1;
        while i < hi
            invariant
                1 <= i <= hi < t@.len(),
            r@ == t@.subrange(1, i as int),
            decreases hi - i,
        {
            r.push(t[i]);
            i = i + 1;
            proof {
                assert(r@ =~= t@.subrange(1, i as int));
            }
        }
        proof {
            assert(r@ =~= t@.subrange(1, t@.len() - 1));
        }
        r
    } else {
        t
    }
}

/// The first four comma-separated columns of a CSV line, where commas
/// inside double-quoted stretches do not separate and a doubled quote
/// inside a quoted stretch stands for a literal quote. `None` when the
/// line has fewer than four columns.
pub open spec fn csv_first_four(s: Seq<char>) -> Option<(Seq<char>, Seq<char>, Seq<char>, Seq<
    char,
>)> {
    let e1 = next_comma(s, 0, false);
    let e2 = next_comma(s, e1 + 1, false);
    let e3 = next_comma(s, e2 + 1, false);
    let e4 = next_comma(s, e3 + 1, false);
    if e1 < s.len() && e2 < s.len() && e3 < s.len() {
        Some(
            (
                s.subrange(0, e1),
                s.subrange(e1 + 1, e2),
                s.subrange(e2 + 1, e3),
                s.subrange(e3 + 1, e4),
            ),
        )
    } else {
        None
    }
}

pub fn csv_first_four_chars(v: &Vec<char>) -> (r: Option<(Vec<char>, Vec<char>, Vec<char>, Vec<
    char,
>)>)
    ensures
        match r {
            Some(cols) => {
                &&& csv_first_four(v@) is Some
                &&& {
                    let m = csv_first_four(v@)->Some_0;
                    cols.0@ == m.0 && cols.1@ == m.1 && cols.2@ == m.2 && cols.3@ == m.3
                }
            },
            None => csv_first_four(v@) is None,
        },
{
    let n = v.len();
    let e1 = next_unquoted_comma(v, 0);
    if e1 >= n {
        return None;
    }
    let e2 = next_unquoted_comma(v, e1 + 1);
    if e2 >= n {
        return None;
    }
    let e3 = next_unquoted_comma(v, e2 + 1);
    if e3 >= n {
        return None;
    }
    let e4 = next_unquoted_comma(v, e3 + 1);
    let f1 = copy_range(v, 0, e1);
    let f2 = copy_range(v, e1 + 1, e2);
    let f3 = copy_range(v, e2 + 1, e3);
    let f4 = copy_range(v, e3 + 1, e4);
    Some((f1, f2, f3, f4))
}

fn next_unquoted_comma(v: &Vec<char>, from: usize) -> (r: usize)
    requires
        from <= v@.len(),
    ensures
        r == next_comma(v@, from as int, false),
        from <= r <= v@.len(),
{
    proof {
        crate::text::lemma_next_comma(v@, from as int, false);
    }
    let n = v.len();
    let mut i: usize = from;
    let mut q: bool = false;
    loop
        invariant
            from <= i,
            from <= n,
            i <= n + 1,
            n == v@.len(),
            next_comma(v@, from as int, false) == next_comma(v@, i as int, q),
        decreases n + 1 - i,
    {
        if i >= n {
            proof {
                assert(next_comma(v@, i as int, q) == v@.len());
            }
            return n;
        }
        let c = v[i];
        if !q && c == ',' {
            proof {
                assert(next_comma(v@, i as int, q) == i);
                crate::text::lemma_next_comma(v@, from as int, false);
            }
            return i;
        }
        if c == '"' {
            if q && i + 1 < n && v[i + 1] == '"' {
                i = i + 2;
            } else {
                q = !q;
                i = i + 1;
            }
        } else {
            i = i + 1;
        }
    }
}

/// The registry row a CSV line yields, if it is acceptable: a nonempty
/// service name, a `tcp` or `udp` transport (case-insensitively), and a
/// port number that fits in 16 bits.
pub open spec fn row_of_line(line: Seq<char>) -> Option<RowSpec> {
    match csv_first_four(line) {
        None => None,
        Some(cols) => {
            let name = csv_field_seq(cols.0);
            let proto = lower_seq(csv_field_seq(cols.2));
            if name.len() == 0 {
                None
            } else if proto != seq!['t', 'c', 'p'] && proto != seq!['u', 'd', 'p'] {
                None
            } else {
                match parse_u16_seq(csv_field_seq(cols.1)) {
                    None => None,
                    Some(port) => Some(
                        RowSpec { port, name, description: csv_field_seq(cols.3) },
                    ),
                }
            }
        },
    }
}

/// The rows yielded by the lines before index `i`, the header line at
/// index 0 excluded.
pub open spec fn rows_upto(lines: Seq<Seq<char>>, i: int) -> Seq<RowSpec>
    decreases i,
{
    if i <= 1 {
        Seq::empty()
    } else {
        rows_upto(lines, i - 1) + match row_of_line(lines[i - 1]) {
            Some(r) => seq![r],
            None => Seq::empty(),
        }
    }
}

/// The rows of a whole CSV table: every line after the header, in
/// order, kept when acceptable.
pub open spec fn spec_registry(lines: Seq<Seq<char>>) -> Seq<RowSpec> {
    rows_upto(lines, lines.len() as int)
}

impl ServiceRegistry {
    /// An empty registry.
    pub fn new() -> (r: Self)
        ensures
            r@ == Seq::<RowSpec>::empty(),
    {
        let r = ServiceRegistry { rows: Vec::new() };
        proof {
            assert(r@ =~= Seq::<RowSpec>::empty());
        }
        r
    }

    /// Builds the registry from the lines of a service-names CSV table,
    /// whose first line is a header.
    pub fn from_csv_lines(lines: &Vec<String>) -> (r: Self)
        ensures
            r@ == spec_registry(lines.deep_view()),
    {
        let mut rows: Vec<ServiceRow> = Vec::new();
        let mut i: usize = 1;
        let n = lines.len();
        if n <= 1 {
            let r = ServiceRegistry { rows };
            proof {
                assert(r@ =~= spec_registry(lines.deep_view()));
            }
            return r;
        }
        while i < n
            invariant
                1 <= i <= n,
                n == lines@.len(),
                Seq::new(rows@.len(), |k: int| rows@[k]@) == rows_upto(lines.deep_view(), i as int),
            decreases n - i,
        {
            let ghost pre = Seq::new(rows@.len(), |k: int| rows@[k]@);
            let line = chars_of(lines[i].as_str());
            proof {
                assert(lines.deep_view()[i as int] == lines@[i as int]@);
            }
            match csv_first_four_chars(&line) {
                None => {},
                Some(cols) => {
                    let name = csv_field_chars(&cols.0);
                    let proto = lower_chars(&csv_field_chars(&cols.2));
                    let mut tcp: Vec<char> = Vec::new();
                    tcp.push('t');
                    tcp.push('c');
                    tcp.push('p');
                    let mut udp: Vec<char> = Vec::new();
                    udp.push('u');
                    udp.push('d');
                    udp.push('p');
                    proof {
                        assert(tcp@ =~= seq!['t', 'c', 'p']);
                        assert(udp@ =~= seq!['u', 'd', 'p']);
                    }
                    if name.len() > 0 && (eq_chars(&proto, &tcp) || eq_chars(&proto, &udp)) {
                        match parse_u16_chars(&csv_field_chars(&cols.1)) {
                            None => {},
                            Some(port) => {
                                let description = csv_field_chars(&cols.3);
                                rows.push(
                                    ServiceRow {
                                        port,
                                        name: string_from_chars(&name),
                                        description: string_from_chars(&description),
                                    },
                                );
                                proof {
                                    assert(Seq::new(rows@.len(), |k: int| rows@[k]@) =~= pre
                                        + seq![row_of_line(lines.deep_view()[i as int])->Some_0]);
                                }
                            },
                        }
                    }
                },
            }
            i = i + 1;
            proof {
                assert(Seq::new(rows@.len(), |k: int| rows@[k]@) =~= rows_upto(
                    lines.deep_view(),
                    i as int,
                ));
            }
        }
        let r = ServiceRegistry { rows };
        proof {
            assert(r@ =~= spec_registry(lines.deep_view()));
        }
        r
    }
}

fn find_row(reg: &ServiceRegistry, port: u16) -> (r: Option<&ServiceRow>)
    ensures
        match r {
            Some(row) => lookup_row(reg@, port) == Some(row@),
            None => lookup_row(reg@, port) is None,
        },
{
    let n = reg.rows.len();
    let mut i: usize = 0;
    proof {
        assert(reg@.subrange(0, n as int) =~= reg@);
    }
    while i < n
        invariant
            i <= n,
            n == reg.rows@.len(),
            reg@.len() == n,
            lookup_row(reg@, port) == lookup_row(reg@.subrange(i as int, n as int), port),
        decreases n - i,
    {
        let ghost rest = reg@.subrange(i as int, n as int);
        proof {
            assert(rest[0] == reg@[i as int]);
            assert(rest.drop_first() =~= reg@.subrange(i + 1, n as int));
        }
        if reg.rows[i].port == port {
            return Some(&reg.rows[i]);
        }
        i = i + 1;
    }
    proof {
        assert(reg@.subrange(i as int, n as int) =~= Seq::<RowSpec>::empty());
    }
    None
}

/// The registered service name for a port, from the given registry.
pub fn service_from_port(reg: &ServiceRegistry, port: u16) -> (r: Option<String>)
    ensures
        match r {
            Some(s) => spec_service_name(reg@, port) == Some(s@),
            None => spec_service_name(reg@, port) is None,
        },
{
    match find_row(reg, port) {
        Some(row) => Some(row.name.clone()),
        None => None,
    }
}

/// The registered service description for a port, from the given
/// registry; an empty description counts as absent.
pub fn service_description_from_port(reg: &ServiceRegistry, port: u16) -> (r: Option<String>)
    ensures
        match r {
            Some(s) => spec_service_description(reg@, port) == Some(s@),
            None => spec_service_description(reg@, port) is None,
        },
{
    match find_row(reg, port) {
        Some(row) => {
            if row.description.as_str().unicode_len() == 0 {
                None
            } else {
                Some(row.description.clone())
            }
        },
        None => None,
    }
}

} // verus!
