//! Textual IP-address validity and classification, specified over
//! character sequences: strict IPv4 dotted quads, IPv6 groups with one
//! optional `::` gap and an optional embedded IPv4 tail, and the
//! unspecified and multicast ranges of both families.
use vstd::prelude::*;

use crate::text::{
    all_digits, dec_val, first_idx, is_ascii_digit, lemma_first_idx, split_chars, split_seq,
};

verus! {

/// Ten to the `n`th power.
pub open spec fn pow10(n: int) -> int
    decreases n,
{
    if n <= 0 {
        1
    } else {
        10 * pow10(n - 1)
    }
}

pub proof fn lemma_dec_val_bound(s: Seq<char>)
    requires
        all_digits(s),
    ensures
        0 <= dec_val(s) < pow10(s.len() as int),
    decreases s.len(),
{
    if s.len() == 0 {
    } else {
        assert(all_digits(s.drop_last()));
        lemma_dec_val_bound(s.drop_last());
        assert(is_ascii_digit(s.last()));
    }
}

/// A strict decimal octet, as the standard library's IPv4 parser
/// accepts it: one to three digits, no leading zero, value at most 255.
pub open spec fn strict_octet(s: Seq<char>) -> bool {
    &&& 1 <= s.len() <= 3
    &&& all_digits(s)
    &&& (s.len() > 1 ==> s[0] != '0')
    &&& dec_val(s) <= 255
}

/// A strict dotted-quad IPv4 address: exactly four strict octets.
pub open spec fn is_ipv4_strict(s: Seq<char>) -> bool {
    let parts = split_seq(s, '.');
    parts.len() == 4 && (forall|k: int| 0 <= k < 4 ==> strict_octet(#[trigger] parts[k]))
}

/// The first octet value of a strict IPv4 address.
pub open spec fn v4_first(s: Seq<char>) -> int {
    dec_val(split_seq(s, '.')[0])
}

/// Whether every octet of a strict IPv4 address is zero.
pub open spec fn v4_all_zero(s: Seq<char>) -> bool {
    forall|k: int| 0 <= k < 4 ==> dec_val(#[trigger] split_seq(s, '.')[k]) == 0
}

/// Sixteen to the `n`th power.
pub open spec fn pow16(n: int) -> int
    decreases n,
{
    if n <= 0 {
        1
    } else {
        16 * pow16(n - 1)
    }
}

pub open spec fn is_hex_digit(c: char) -> bool {
    is_ascii_digit(c) || ('a' <= c && c <= 'f') || ('A' <= c && c <= 'F')
}

/// Value of one hexadecimal digit.
pub open spec fn hex_digit_val(c: char) -> int {
    if is_ascii_digit(c) {
        c as u32 - '0' as u32
    } else if 'a' <= c && c <= 'f' {
        c as u32 - 'a' as u32 + 10
    } else {
        c as u32 - 'A' as u32 + 10
    }
}

/// Hexadecimal value of a digit sequence.
pub open spec fn hex_val(s: Seq<char>) -> int
    decreases s.len(),
{
    if s.len() == 0 {
        0
    } else {
        hex_val(s.drop_last()) * 16 + hex_digit_val(s.last())
    }
}

pub open spec fn all_hex(s: Seq<char>) -> bool {
    forall|j: int| 0 <= j < s.len() ==> is_hex_digit(s[j])
}

pub proof fn lemma_hex_val_bound(s: Seq<char>)
    requires
        all_hex(s),
    ensures
        0 <= hex_val(s) < pow16(s.len() as int),
    decreases s.len(),
{
    if s.len() > 0 {
        assert(all_hex(s.drop_last()));
        lemma_hex_val_bound(s.drop_last());
        assert(is_hex_digit(s.last()));
    }
}

/// One IPv6 group: one to four hexadecimal digits.
pub open spec fn is_hgroup(s: Seq<char>) -> bool {
    1 <= s.len() <= 4 && all_hex(s)
}

/// Validity of a gapless IPv6 body, split on `:`: eight groups, or six
/// groups and an embedded IPv4 tail.
pub open spec fn valid_full(parts: Seq<Seq<char>>) -> bool {
    ||| (parts.len() == 8 && (forall|k: int| 0 <= k < 8 ==> is_hgroup(#[trigger] parts[k])))
    ||| (parts.len() == 7 && (forall|k: int| 0 <= k < 6 ==> is_hgroup(#[trigger] parts[k]))
        && is_ipv4_strict(parts[6]))
}

pub open spec fn full_all_zero(parts: Seq<Seq<char>>) -> bool {
    if parts.len() == 8 {
        forall|k: int| 0 <= k < 8 ==> hex_val(#[trigger] parts[k]) == 0
    } else {
        (forall|k: int| 0 <= k < 6 ==> hex_val(#[trigger] parts[k]) == 0) && v4_all_zero(parts[6])
    }
}

/// Validity of the group run on the left of a `::` gap.
pub open spec fn valid_left(l: Seq<char>) -> bool {
    l.len() == 0 || {
        let parts = split_seq(l, ':');
        forall|k: int| 0 <= k < parts.len() ==> is_hgroup(#[trigger] parts[k])
    }
}

/// Number of groups on the left of a `::` gap.
pub open spec fn left_count(l: Seq<char>) -> int {
    if l.len() == 0 {
        0
    } else {
        split_seq(l, ':').len() as int
    }
}

pub open spec fn left_zero(l: Seq<char>) -> bool {
    l.len() == 0 || {
        let parts = split_seq(l, ':');
        forall|k: int| 0 <= k < parts.len() ==> hex_val(#[trigger] parts[k]) == 0
    }
}

/// Validity of the group run on the right of a `::` gap, whose last
/// part may be an embedded IPv4 tail.
pub open spec fn valid_right(r: Seq<char>) -> bool {
    r.len() == 0 || {
        let parts = split_seq(r, ':');
        &&& forall|k: int| 0 <= k < parts.len() - 1 ==> is_hgroup(#[trigger] parts[k])
        &&& (is_hgroup(parts.last()) || is_ipv4_strict(parts.last()))
    }
}

/// Number of groups on the right of a `::` gap; an IPv4 tail counts as
/// two.
pub open spec fn right_count(r: Seq<char>) -> int {
    if r.len() == 0 {
        0
    } else {
        let parts = split_seq(r, ':');
        if is_hgroup(parts.last()) {
            parts.len() as int
        } else {
            parts.len() as int + 1
        }
    }
}

pub open spec fn right_zero(r: Seq<char>) -> bool {
    r.len() == 0 || {
        let parts = split_seq(r, ':');
        &&& forall|k: int| 0 <= k < parts.len() - 1 ==> hex_val(#[trigger] parts[k]) == 0
        &&& (if is_hgroup(parts.last()) {
            hex_val(parts.last()) == 0
        } else {
            v4_all_zero(parts.last())
        })
    }
}

/// A `::` gap at position `g`.
pub open spec fn gap_at(s: Seq<char>, g: int) -> bool {
    0 <= g && g + 2 <= s.len() && s[g] == ':' && s[g + 1] == ':'
}

/// Validity of an IPv6 address with its one `::` gap at `g`: both sides
/// valid, and at most seven explicit groups, so the gap stands for at
/// least one zero group.
pub open spec fn valid_gap_at(s: Seq<char>, g: int) -> bool {
    &&& gap_at(s, g)
    &&& valid_left(s.subrange(0, g))
    &&& valid_right(s.subrange(g + 2, s.len() as int))
    &&& left_count(s.subrange(0, g)) + right_count(s.subrange(g + 2, s.len() as int)) <= 7
}

/// A textual IPv6 address, as the standard library's parser accepts it.
pub open spec fn is_ipv6(s: Seq<char>) -> bool {
    ||| valid_full(split_seq(s, ':'))
    ||| exists|g: int| valid_gap_at(s, g)
}

/// The value of the first group of an IPv6 address; a gap at the start
/// makes it zero.
pub open spec fn v6_first(s: Seq<char>) -> int {
    if valid_full(split_seq(s, ':')) {
        hex_val(split_seq(s, ':')[0])
    } else {
        let g = choose|g: int| valid_gap_at(s, g);
        if g > 0 {
            hex_val(split_seq(s.subrange(0, g), ':')[0])
        } else {
            0
        }
    }
}

/// Whether every group of an IPv6 address is zero.
pub open spec fn v6_all_zero(s: Seq<char>) -> bool {
    if valid_full(split_seq(s, ':')) {
        full_all_zero(split_seq(s, ':'))
    } else {
        let g = choose|g: int| valid_gap_at(s, g);
        left_zero(s.subrange(0, g)) && right_zero(s.subrange(g + 2, s.len() as int))
    }
}

/// When every part of a split is nonempty, the separator never opens,
/// closes, or doubles up in the underlying sequence.
pub proof fn lemma_split_nonempty(s: Seq<char>, c: char)
    requires
        forall|k: int| 0 <= k < split_seq(s, c).len() ==> #[trigger] split_seq(s, c)[k].len() > 0,
    ensures
        forall|i: int| 0 <= i < s.len() - 1 ==> !(#[trigger] s[i] == c && s[i + 1] == c),
        s.len() > 0 ==> s[0] != c && s.last() != c,
    decreases s.len(),
{
    lemma_first_idx(s, c);
    let parts = split_seq(s, c);
    let r = first_idx(s, c);
    if r < 0 {
        // the separator does not occur at all
    } else {
        let rest = s.subrange(r + 1, s.len() as int);
        assert(parts == seq![s.subrange(0, r)] + split_seq(rest, c));
        assert(parts[0] == s.subrange(0, r));
        assert(parts[0].len() > 0);
        assert forall|k: int| 0 <= k < split_seq(rest, c).len() implies #[trigger] split_seq(
            rest,
            c,
        )[k].len() > 0 by {
            assert(split_seq(rest, c)[k] == parts[k + 1]);
        }
        lemma_split_nonempty(rest, c);
        // the rest cannot be empty: split of an empty sequence has one
        // empty part
        if rest.len() == 0 {
            assert(split_seq(rest, c) == seq![rest]);
            assert(parts[1].len() == 0);
            assert(false);
        }
        assert(rest[0] != c);
        assert(s.last() == rest.last());
        assert forall|i: int| 0 <= i < s.len() - 1 implies !(#[trigger] s[i] == c && s[i + 1] == c) by {
            if i < r {
                assert(s[i] != c);
            } else if i == r {
                assert(s[i + 1] == rest[0]);
            } else {
                assert(s[i] == rest[i - r - 1]);
                assert(s[i + 1] == rest[i - r]);
            }
        }
    }
}

/// A valid gap position is the only adjacent pair of colons, so an
/// earlier pair rules a position out.
pub proof fn lemma_gap_unique(s: Seq<char>, g: int, g2: int)
    requires
        0 <= g < g2,
        s[g] == ':',
        s[g + 1] == ':',
    ensures
        !valid_gap_at(s, g2),
{
    if valid_gap_at(s, g2) {
        let l = s.subrange(0, g2);
        assert(l.len() > 0);
        let parts = split_seq(l, ':');
        assert(forall|k: int| 0 <= k < parts.len() ==> #[trigger] parts[k].len() > 0);
        lemma_split_nonempty(l, ':');
        if g + 1 < g2 {
            assert(l[g] == ':' && l[g + 1] == ':');
        } else {
            assert(l.last() == s[g2 - 1]);
            assert(g2 - 1 == g + 1 - 1);
            assert(l.last() == s[g]);
        }
    }
}

/// Classifies one hexadecimal digit and gives its value.
fn hex_digit_of(c: char) -> (r: Option<u8>)
    ensures
        match r {
            Some(d) => is_hex_digit(c) && d == hex_digit_val(c),
            None => !is_hex_digit(c),
        },
{
    let u = c as u32;
    if 0x30 <= u && u <= 0x39 {
        Some((u - 0x30) as u8)
    } else if 0x61 <= u && u <= 0x66 {
        Some((u - 0x61 + 10) as u8)
    } else if 0x41 <= u && u <= 0x46 {
        Some((u - 0x41 + 10) as u8)
    } else {
        None
    }
}

/// Parses one IPv6 group of one to four hexadecimal digits.
fn hgroup_of(part: &Vec<char>) -> (r: Option<u16>)
    ensures
        match r {
            Some(x) => is_hgroup(part@) && hex_val(part@) == x,
            None => !is_hgroup(part@),
        },
{
    let n = part.len();
    if n == 0 || n > 4 {
        return None;
    }
    let mut acc: u32 = 0;
    let mut i: usize = 0;
    while i < n
        invariant
            i <= n,
            n == part@.len(),
            n <= 4,
            all_hex(part@.subrange(0, i as int)),
            acc == hex_val(part@.subrange(0, i as int)),
            acc < 0x10000,
        decreases n - i,
    {
        let ghost pref = part@.subrange(0, i as int);
        proof {
            lemma_hex_val_bound(pref);
            reveal_with_fuel(pow16, 5);
            assert(hex_val(pref) < 0x1000);
        }
        let d: u32 = match hex_digit_of(part[i]) {
            Some(d) => d as u32,
            None => {
                proof {
                    assert(!all_hex(part@));
                }
                return None;
            },
        };
        proof {
            let pref2 = part@.subrange(0, i + 1);
            assert(pref2.drop_last() =~= pref);
            assert(pref2.last() == part@[i as int]);
            assert(is_hex_digit(part@[i as int]));
            assert(d == hex_digit_val(part@[i as int]));
            assert(all_hex(pref2));
        }
        acc = acc * 16 + d;
        i = i + 1;
    }
    proof {
        assert(part@.subrange(0, n as int) =~= part@);
        lemma_hex_val_bound(part@);
        reveal_with_fuel(pow16, 5);
    }
    Some(acc as u16)
}

/// Position of the first `::` in `v`.
fn find_adjacent_colons(v: &Vec<char>) -> (r: Option<usize>)
    ensures
        match r {
            Some(g) => {
                &&& gap_at(v@, g as int)
                &&& forall|i: int| 0 <= i < g ==> !(#[trigger] v@[i] == ':' && v@[i + 1] == ':')
            },
            None => forall|i: int| 0 <= i < v@.len() - 1 ==> !(#[trigger] v@[i] == ':' && v@[i + 1] == ':'),
        },
{
    let n = v.len();
    if n < 2 {
        return None;
    }
    let mut i: usize = 0;
    while i < n - 1
        invariant
            i <= n - 1,
            2 <= n == v@.len(),
            forall|j: int| 0 <= j < i ==> !(#[trigger] v@[j] == ':' && v@[j + 1] == ':'),
        decreases n - i,
    {
        if v[i] == ':' && v[i + 1] == ':' {
            return Some(i);
        }
        i = i + 1;
    }
    None
}

/// Checks the groups of a gapless IPv6 body against `valid_full` and
/// reports the first group's value and whether every group is zero.
fn check_full(parts: &Vec<Vec<char>>) -> (r: Option<(u16, bool)>)
    ensures
        match r {
            Some(p) => {
                &&& valid_full(parts.deep_view())
                &&& p.0 == hex_val(parts.deep_view()[0])
                &&& p.1 == full_all_zero(parts.deep_view())
            },
            None => !valid_full(parts.deep_view()),
        },
{
    let n = parts.len();
    if n != 8 && n != 7 {
        return None;
    }
    let hex_count: usize = if n == 8 {
        8
    } else {
        6
    };
    let mut first: u16 = 0;
    let mut all_zero: bool = true;
    let mut k: usize = 0;
    while k < hex_count
        invariant
            k <= hex_count,
            hex_count <= n == parts@.len(),
            parts.deep_view().len() == n,
            n == 7 || n == 8,
            hex_count == (if n == 8 {
                8int
            } else {
                6int
            }),
            forall|j: int| 0 <= j < k ==> is_hgroup(#[trigger] parts.deep_view()[j]),
            all_zero == (forall|j: int| 0 <= j < k ==> hex_val(#[trigger] parts.deep_view()[j])
                == 0),
            k >= 1 ==> first == hex_val(parts.deep_view()[0]),
        decreases hex_count - k,
    {
        proof {
            assert(parts.deep_view()[k as int] == parts@[k as int]@);
        }
        match hgroup_of(&parts[k]) {
            None => {
                return None;
            },
            Some(x) => {
                if k == 0 {
                    first = x;
                }
                let ghost prev_zero = all_zero;
                if x != 0 {
                    all_zero = false;
                }
                proof {
                    assert(hex_val(parts.deep_view()[k as int]) == x);
                    if all_zero {
                        assert(forall|j: int|
                            0 <= j < k + 1 ==> hex_val(#[trigger] parts.deep_view()[j]) == 0);
                    } else {
                        if prev_zero {
                            assert(hex_val(parts.deep_view()[k as int]) != 0);
                        }
                    }
                }
            },
        }
        k = k + 1;
    }
    if n == 7 {
        proof {
            assert(parts.deep_view()[6] == parts@[6]@);
        }
        match check_ipv4(&parts[6]) {
            None => {
                proof {
                    // a seventh part that is no IPv4 tail leaves no
                    // valid reading: a group there would make only
                    // seven groups
                    assert(!valid_full(parts.deep_view()));
                }
                None
            },
            Some(p) => Some((first, all_zero && p.1)),
        }
    } else {
        Some((first, all_zero))
    }
}

/// The classification of one textual IP address.
pub struct IpSummary {
    pub valid: bool,
    pub v4: bool,
    pub unspecified: bool,
    pub multicast: bool,
}

/// A valid textual IP address of either family.
pub open spec fn is_valid_ip(s: Seq<char>) -> bool {
    is_ipv4_strict(s) || is_ipv6(s)
}

/// The unspecified (all-zero) address of either family.
pub open spec fn ip_unspecified(s: Seq<char>) -> bool {
    if is_ipv4_strict(s) {
        v4_all_zero(s)
    } else if is_ipv6(s) {
        v6_all_zero(s)
    } else {
        false
    }
}

/// A multicast address: first IPv4 octet 224 to 239, or first IPv6
/// group starting with byte `0xff`.
pub open spec fn ip_multicast(s: Seq<char>) -> bool {
    if is_ipv4_strict(s) {
        224 <= v4_first(s) <= 239
    } else if is_ipv6(s) {
        v6_first(s) >= 0xff00
    } else {
        false
    }
}

/// Classifies one textual address: validity, family, and the
/// unspecified and multicast ranges.
pub fn classify_ip(v: &Vec<char>) -> (r: IpSummary)
    ensures
        r.valid == is_valid_ip(v@),
        r.v4 == is_ipv4_strict(v@),
        r.unspecified == ip_unspecified(v@),
        r.multicast == ip_multicast(v@),
{
    match check_ipv4(v) {
        Some(p) => IpSummary {
            valid: true,
            v4: true,
            unspecified: p.1,
            multicast: 224 <= p.0 && p.0 <= 239,
        },
        None => {
            match classify_ipv6(v) {
                Some(p) => IpSummary {
                    valid: true,
                    v4: false,
                    unspecified: p.1,
                    multicast: p.0 >= 0xff00,
                },
                None => IpSummary { valid: false, v4: false, unspecified: false, multicast: false },
            }
        },
    }
}

/// Checks an IPv6 address and reports its first group's value and
/// whether every group is zero.
fn classify_ipv6(v: &Vec<char>) -> (r: Option<(u16, bool)>)
    ensures
        match r {
            Some(p) => is_ipv6(v@) && p.0 == v6_first(v@) && p.1 == v6_all_zero(v@),
            None => !is_ipv6(v@),
        },
{
    match find_adjacent_colons(v) {
        None => {
            // without a gap, only the full form can apply
            proof {
                assert forall|g: int| !valid_gap_at(v@, g) by {
                    if gap_at(v@, g) {
                        assert(v@[g] == ':' && v@[g + 1] == ':');
                    }
                }
            }
            let parts = split_chars(v, ':');
            match check_full(&parts) {
                None => None,
                Some(p) => Some(p),
            }
        },
        Some(g) => {
            // with a gap, the full form is out: its parts would all be
            // nonempty, leaving no room for two adjacent colons
            proof {
                if valid_full(split_seq(v@, ':')) {
                    assert(forall|k: int|
                        0 <= k < split_seq(v@, ':').len() ==> #[trigger] split_seq(v@, ':')[
                            k].len() > 0);
                    lemma_split_nonempty(v@, ':');
                    assert(false);
                }
            }
            let n = v.len();
            let left = crate::text::copy_range(v, 0, g);
            let right = crate::text::copy_range(v, g + 2, n);
            let scanned_left = scan_left(&left);
            let scanned_right = scan_right(&right);
            match (scanned_left, scanned_right) {
                (Some(l), Some(r)) => {
                    if l.0 + r.0 > 7 {
                        proof {
                            no_gap_validity(v@, g as int);
                        }
                        return None;
                    }
                    proof {
                        assert(valid_gap_at(v@, g as int));
                        assert(is_ipv6(v@));
                        let gc = choose|gc: int| valid_gap_at(v@, gc);
                        if gc > g {
                            lemma_gap_unique(v@, g as int, gc);
                        }
                        if gc < g {
                            lemma_gap_unique(v@, gc, g as int);
                        }
                        assert(gc == g);
                    }
                    Some((l.1, l.2 && r.1))
                },
                _ => {
                    proof {
                        no_gap_validity(v@, g as int);
                    }
                    None
                },
            }
        },
    }
}

/// Scans the group run on the left of a `::` gap: its group count,
/// first group value, and whether every group is zero.
fn scan_left(left: &Vec<char>) -> (r: Option<(usize, u16, bool)>)
    ensures
        match r {
            Some(t) => {
                &&& valid_left(left@)
                &&& t.0 == left_count(left@)
                &&& t.0 <= 7
                &&& (left@.len() > 0 ==> t.1 == hex_val(split_seq(left@, ':')[0]))
                &&& (left@.len() == 0 ==> t.1 == 0)
                &&& t.2 == left_zero(left@)
            },
            None => !valid_left(left@) || left_count(left@) > 7,
        },
{
    if left.len() == 0 {
        return Some((0, 0, true));
    }
    let lparts = split_chars(&left, ':');
    let ln = lparts.len();
    if ln > 7 {
        return None;
    }
    let mut first: u16 = 0;
    let mut zero: bool = true;
    let mut k: usize = 0;
    while k < ln
        invariant
            k <= ln,
            ln == lparts@.len(),
            ln <= 7,
            left@.len() > 0,
            lparts.deep_view() == split_seq(left@, ':'),
            forall|j: int| 0 <= j < k ==> is_hgroup(#[trigger] lparts.deep_view()[j]),
            zero == (forall|j: int| 0 <= j < k ==> hex_val(#[trigger] lparts.deep_view()[j]) == 0),
            k >= 1 ==> first == hex_val(lparts.deep_view()[0]),
        decreases ln - k,
    {
        proof {
            assert(lparts.deep_view()[k as int] == lparts@[k as int]@);
        }
        match hgroup_of(&lparts[k]) {
            None => {
                return None;
            },
            Some(x) => {
                if k == 0 {
                    first = x;
                }
                let ghost pz = zero;
                if x != 0 {
                    zero = false;
                }
                proof {
                    if zero {
                        assert(forall|j: int|
                            0 <= j < k + 1 ==> hex_val(#[trigger] lparts.deep_view()[j]) == 0);
                    } else if pz {
                        assert(hex_val(lparts.deep_view()[k as int]) != 0);
                    }
                }
            },
        }
        k = k + 1;
    }
    proof {
        assert(split_seq(left@, ':').len() >= 1);
        assert(valid_left(left@));
        assert(left_count(left@) == ln);
        assert(zero == left_zero(left@));
        assert(first == hex_val(split_seq(left@, ':')[0]));
    }
    Some((ln, first, zero))
}

/// Scans the group run on the right of a `::` gap: its group count
/// (an IPv4 tail counting as two) and whether every group is zero.
fn scan_right(right: &Vec<char>) -> (r: Option<(usize, bool)>)
    ensures
        match r {
            Some(t) => {
                &&& valid_right(right@)
                &&& t.0 == right_count(right@)
                &&& t.0 <= 8
                &&& t.1 == right_zero(right@)
            },
            None => !valid_right(right@) || right_count(right@) > 7,
        },
{
    if right.len() == 0 {
        return Some((0, true));
    }
    let rparts = split_chars(&right, ':');
    let rn = rparts.len();
    if rn > 7 {
        return None;
    }
    let mut zero: bool = true;
    let mut k: usize = 0;
    while k < rn - 1
        invariant
            k <= rn - 1,
            1 <= rn == rparts@.len(),
            rn <= 7,
            right@.len() > 0,
            rparts.deep_view() == split_seq(right@, ':'),
            forall|j: int| 0 <= j < k ==> is_hgroup(#[trigger] rparts.deep_view()[j]),
            zero == (forall|j: int| 0 <= j < k ==> hex_val(#[trigger] rparts.deep_view()[j]) == 0),
        decreases rn - k,
    {
        proof {
            assert(rparts.deep_view()[k as int] == rparts@[k as int]@);
        }
        match hgroup_of(&rparts[k]) {
            None => {
                return None;
            },
            Some(x) => {
                let ghost pz = zero;
                if x != 0 {
                    zero = false;
                }
                proof {
                    if zero {
                        assert(forall|j: int|
                            0 <= j < k + 1 ==> hex_val(#[trigger] rparts.deep_view()[j]) == 0);
                    } else if pz {
                        assert(hex_val(rparts.deep_view()[k as int]) != 0);
                    }
                }
            },
        }
        k = k + 1;
    }
    proof {
        assert(k == rn - 1);
        assert(rparts.deep_view()[k as int] == rparts@[k as int]@);
        assert(rparts.deep_view().last() == rparts.deep_view()[k as int]);
    }
    match hgroup_of(&rparts[rn - 1]) {
        Some(x) => Some((rn, zero && x == 0)),
        None => {
            match check_ipv4(&rparts[rn - 1]) {
                Some(p) => Some((rn + 1, zero && p.1)),
                None => None,
            }
        },
    }
}

/// When either side of the gap is invalid or the groups overflow, no
/// gap position makes the address valid.
proof fn no_gap_validity(s: Seq<char>, g: int)
    requires
        gap_at(s, g),
        !valid_gap_at(s, g),
        forall|i: int| 0 <= i < g ==> !(#[trigger] s[i] == ':' && s[i + 1] == ':'),
    ensures
        !is_ipv6(s),
{
    if valid_full(split_seq(s, ':')) {
        assert(forall|k: int|
            0 <= k < split_seq(s, ':').len() ==> #[trigger] split_seq(s, ':')[k].len() > 0);
        lemma_split_nonempty(s, ':');
        assert(false);
    }
    assert forall|g2: int| !valid_gap_at(s, g2) by {
        if valid_gap_at(s, g2) {
            if g2 < g {
                assert(!(s[g2] == ':' && s[g2 + 1] == ':'));
            } else if g2 > g {
                lemma_gap_unique(s, g, g2);
            }
        }
    }
}

/// Parses one strict octet.
fn octet_of(part: &Vec<char>) -> (r: Option<u8>)
    ensures
        match r {
            Some(x) => strict_octet(part@) && dec_val(part@) == x,
            None => !strict_octet(part@),
        },
{
    let n = part.len();
    if n == 0 || n > 3 {
        return None;
    }
    if n > 1 && part[0] == '0' {
        return None;
    }
    let mut acc: u32 = 0;
    let mut i: usize = 0;
    while i < n
        invariant
            i <= n,
            n == part@.len(),
            n <= 3,
            all_digits(part@.subrange(0, i as int)),
            acc == dec_val(part@.subrange(0, i as int)),
            acc < 1000,
        decreases n - i,
    {
        let ghost pref = part@.subrange(0, i as int);
        proof {
            lemma_dec_val_bound(pref);
            reveal_with_fuel(pow10, 4);
            assert(dec_val(pref) < 100);
        }
        match crate::text::digit_value(part[i]) {
            Some(d) => {
                proof {
                    let pref2 = part@.subrange(0, i + 1);
                    assert(pref2.drop_last() =~= pref);
                    assert(pref2.last() == part@[i as int]);
                }
                acc = acc * 10 + (d as u32);
                i = i + 1;
            },
            None => {
                proof {
                    assert(!is_ascii_digit(part@[i as int]));
                    assert(!all_digits(part@));
                }
                return None;
            },
        }
    }
    proof {
        assert(part@.subrange(0, n as int) =~= part@);
    }
    if acc > 255 {
        None
    } else {
        Some(acc as u8)
    }
}

/// Checks a strict IPv4 address and reports its first octet and whether
/// every octet is zero.
pub fn check_ipv4(v: &Vec<char>) -> (r: Option<(u8, bool)>)
    ensures
        match r {
            Some(p) => is_ipv4_strict(v@) && p.0 == v4_first(v@) && p.1 == v4_all_zero(v@),
            None => !is_ipv4_strict(v@),
        },
{
    let parts = split_chars(v, '.');
    if parts.len() != 4 {
        return None;
    }
    let mut first: u8 = 0;
    let mut all_zero: bool = true;
    let mut k: usize = 0;
    while k < 4
        invariant
            k <= 4,
            parts@.len() == 4,
            parts.deep_view() == split_seq(v@, '.'),
            forall|j: int| 0 <= j < k ==> strict_octet(#[trigger] split_seq(v@, '.')[j]),
            forall|j: int|
                0 <= j < k ==> (all_zero ==> dec_val(#[trigger] split_seq(v@, '.')[j]) == 0),
            !all_zero ==> exists|j: int|
                0 <= j < k && dec_val(#[trigger] split_seq(v@, '.')[j]) != 0,
            k >= 1 ==> first == dec_val(split_seq(v@, '.')[0]),
        decreases 4 - k,
    {
        proof {
            assert(parts.deep_view()[k as int] == parts@[k as int]@);
        }
        match octet_of(&parts[k]) {
            None => {
                return None;
            },
            Some(x) => {
                if k == 0 {
                    first = x;
                }
                if x != 0 {
                    all_zero = false;
                }
            },
        }
        k = k + 1;
    }
    Some((first, all_zero))
}

} // verus!
