//! Verified character-sequence utilities: trimming, searching, splitting,
//! case folding and decimal parsing, with exact specifications over `Seq<char>`.
use vstd::prelude::*;

verus! {

/// True for the characters that Rust's `char::is_whitespace` accepts:
/// the Unicode `White_Space` set.
pub open spec fn is_whitespace_char(c: char) -> bool {
    ||| c == ' '
    ||| c == '\t'
    ||| c == '\n'
    ||| (0x0b <= c as u32 && c as u32 <= 0x0d)
    ||| c as u32 == 0x85
    ||| c as u32 == 0xa0
    ||| c as u32 == 0x1680
    ||| (0x2000 <= c as u32 && c as u32 <= 0x200a)
    ||| c as u32 == 0x2028
    ||| c as u32 == 0x2029
    ||| c as u32 == 0x202f
    ||| c as u32 == 0x205f
    ||| c as u32 == 0x3000
}

pub fn whitespace_char(c: char) -> (r: bool)
    ensures
        r == is_whitespace_char(c),
{
    let u = c as u32;
    u == 0x20 || u == 0x09 || u == 0x0a || (0x0b <= u && u <= 0x0d) || u == 0x85 || u == 0xa0
        || u == 0x1680 || (0x2000 <= u && u <= 0x200a) || u == 0x2028 || u == 0x2029 || u == 0x202f
        || u == 0x205f || u == 0x3000
}

pub open spec fn is_ascii_digit(c: char) -> bool {
    '0' <= c && c <= '9'
}

pub fn ascii_digit(c: char) -> (r: bool)
    ensures
        r == is_ascii_digit(c),
{
    '0' <= c && c <= '9'
}

pub fn digit_value(c: char) -> (r: Option<u8>)
    ensures
        match r {
            Some(d) => is_ascii_digit(c) && d == c as u32 - '0' as u32,
            None => !is_ascii_digit(c),
        },
{
    let u = c as u32;
    if 0x30 <= u && u <= 0x39 {
        Some((u - 0x30) as u8)
    } else {
        None
    }
}

/// ASCII lower-casing of a single character, as `char::to_ascii_lowercase`.
pub open spec fn lower_char(c: char) -> char {
    if 'A' <= c && c <= 'Z' {
        ((c as u32 + 32) as char)
    } else {
        c
    }
}

/// ASCII upper-casing of a single character, as `char::to_ascii_uppercase`.
pub open spec fn upper_char(c: char) -> char {
    if 'a' <= c && c <= 'z' {
        ((c as u32 - 32) as char)
    } else {
        c
    }
}

pub fn lower_char_ex(c: char) -> (r: char)
    ensures
        r == lower_char(c),
{
    if 'A' <= c && c <= 'Z' {
        let b = (c as u32) as u8;
        (b + 32) as char
    } else {
        c
    }
}

pub fn upper_char_ex(c: char) -> (r: char)
    ensures
        r == upper_char(c),
{
    if 'a' <= c && c <= 'z' {
        let b = (c as u32) as u8;
        (b - 32) as char
    } else {
        c
    }
}

/// The ASCII-lower-cased form of a character sequence.
pub open spec fn lower_seq(s: Seq<char>) -> Seq<char> {
    s.map_values(|c: char| lower_char(c))
}

/// The ASCII-upper-cased form of a character sequence.
pub open spec fn upper_seq(s: Seq<char>) -> Seq<char> {
    s.map_values(|c: char| upper_char(c))
}

/// The characters of a string slice, in order.
pub fn chars_of(s: &str) -> (r: Vec<char>)
    ensures
        r@ == s@,
{
    let n = s.unicode_len();
    let mut r: Vec<char> = Vec::new();
    let mut i: usize = 0;
    while i < n
        invariant
            n == s@.len(),
            i <= n,
            r@ == s@.subrange(0, i as int),
        decreases n - i,
    {
        r.push(s.get_char(i));
        i = i + 1;
        proof {
            assert(r@ =~= s@.subrange(0, i as int));
        }
    }
    proof {
        assert(r@ =~= s@);
    }
    r
}

/// Relies on `String::push`: appends one character to the end of the string.
#[verifier::external_body]
fn push_char(s: &mut String, c: char)
    ensures
        final(s)@ == old(s)@.push(c),
{
    s.push(c);
}

/// A `String` holding exactly the given characters.
pub fn string_from_chars(v: &Vec<char>) -> (r: String)
    ensures
        r@ == v@,
{
    let mut r = String::new();
    let mut i: usize = 0;
    while i < v.len()
        invariant
            i <= v@.len(),
            r@ == v@.subrange(0, i as int),
        decreases v@.len() - i,
    {
        push_char(&mut r, v[i]);
        i = i + 1;
        proof {
            assert(r@ =~= v@.subrange(0, i as int));
        }
    }
    proof {
        assert(r@ =~= v@);
    }
    r
}

/// Index of the first occurrence of `sep`, or -1 when absent.
pub open spec fn first_idx(s: Seq<char>, sep: char) -> int
    decreases s.len(),
{
    if s.len() == 0 {
        -1
    } else if s[0] == sep {
        0
    } else {
        let r = first_idx(s.drop_first(), sep);
        if r < 0 {
            -1
        } else {
            1 + r
        }
    }
}

pub proof fn lemma_first_idx(s: Seq<char>, sep: char)
    ensures
        first_idx(s, sep) == -1 ==> (forall|j: int| 0 <= j < s.len() ==> s[j] != sep),
        first_idx(s, sep) >= 0 ==> {
            let r = first_idx(s, sep);
            &&& r < s.len()
            &&& s[r] == sep
            &&& forall|j: int| 0 <= j < r ==> s[j] != sep
        },
    decreases s.len(),
{
    if s.len() > 0 && s[0] != sep {
        let t = s.drop_first();
        lemma_first_idx(t, sep);
        assert(forall|j: int| 1 <= j < s.len() ==> s[j] == t[j - 1]);
    }
}

/// Index of the first whitespace character, or -1 when absent.
pub open spec fn first_ws(s: Seq<char>) -> int
    decreases s.len(),
{
    if s.len() == 0 {
        -1
    } else if is_whitespace_char(s[0]) {
        0
    } else {
        let r = first_ws(s.drop_first());
        if r < 0 {
            -1
        } else {
            1 + r
        }
    }
}

pub proof fn lemma_first_ws(s: Seq<char>)
    ensures
        first_ws(s) == -1 ==> (forall|j: int| 0 <= j < s.len() ==> !is_whitespace_char(s[j])),
        first_ws(s) >= 0 ==> {
            let r = first_ws(s);
            &&& r < s.len()
            &&& is_whitespace_char(s[r])
            &&& forall|j: int| 0 <= j < r ==> !is_whitespace_char(s[j])
        },
    decreases s.len(),
{
    if s.len() > 0 && !is_whitespace_char(s[0]) {
        let t = s.drop_first();
        lemma_first_ws(t);
        assert(forall|j: int| 1 <= j < s.len() ==> s[j] == t[j - 1]);
    }
}

/// Number of leading whitespace characters.
pub open spec fn ws_prefix_len(s: Seq<char>) -> int
    decreases s.len(),
{
    if s.len() == 0 {
        0
    } else if is_whitespace_char(s[0]) {
        1 + ws_prefix_len(s.drop_first())
    } else {
        0
    }
}

pub proof fn lemma_ws_prefix_len(s: Seq<char>)
    ensures
        0 <= ws_prefix_len(s) <= s.len(),
        forall|j: int| 0 <= j < ws_prefix_len(s) ==> is_whitespace_char(s[j]),
        ws_prefix_len(s) < s.len() ==> !is_whitespace_char(s[ws_prefix_len(s)]),
    decreases s.len(),
{
    if s.len() > 0 && is_whitespace_char(s[0]) {
        let t = s.drop_first();
        lemma_ws_prefix_len(t);
        assert(forall|j: int| 1 <= j < s.len() ==> s[j] == t[j - 1]);
    }
}

/// Number of trailing whitespace characters.
pub open spec fn ws_suffix_len(s: Seq<char>) -> int
    decreases s.len(),
{
    if s.len() == 0 {
        0
    } else if is_whitespace_char(s.last()) {
        1 + ws_suffix_len(s.drop_last())
    } else {
        0
    }
}

pub proof fn lemma_ws_suffix_len(s: Seq<char>)
    ensures
        0 <= ws_suffix_len(s) <= s.len(),
        forall|j: int| s.len() - ws_suffix_len(s) <= j < s.len() ==> is_whitespace_char(s[j]),
        ws_suffix_len(s) < s.len() ==> !is_whitespace_char(s[s.len() - ws_suffix_len(s) - 1]),
    decreases s.len(),
{
    if s.len() > 0 && is_whitespace_char(s.last()) {
        let t = s.drop_last();
        lemma_ws_suffix_len(t);
        assert(forall|j: int| 0 <= j < s.len() - 1 ==> s[j] == t[j]);
    }
}

/// The sequence with leading and trailing whitespace removed,
/// as `str::trim`.
pub open spec fn trim_seq(s: Seq<char>) -> Seq<char> {
    if ws_prefix_len(s) == s.len() {
        Seq::empty()
    } else {
        s.subrange(ws_prefix_len(s), s.len() - ws_suffix_len(s))
    }
}

pub fn trim_chars(v: &Vec<char>) -> (r: Vec<char>)
    ensures
        r@ == trim_seq(v@),
{
    proof {
        lemma_ws_prefix_len(v@);
        lemma_ws_suffix_len(v@);
    }
    let n = v.len();
    let mut lo: usize = 0;
    while lo < n && whitespace_char(v[lo])
        invariant
            lo <= n,
            n == v@.len(),
            forall|j: int| 0 <= j < lo ==> is_whitespace_char(v@[j]),
        decreases n - lo,
    {
        lo = lo + 1;
    }
    if lo == n {
        proof {
            if ws_prefix_len(v@) < v@.len() {
                assert(is_whitespace_char(v@[ws_prefix_len(v@)]));
                assert(false);
            }
        }
        return Vec::new();
    }
    proof {
        // lo is the first non-whitespace index, which pins ws_prefix_len.
        if ws_prefix_len(v@) < lo {
            assert(is_whitespace_char(v@[ws_prefix_len(v@)]));
            assert(false);
        }
        if ws_prefix_len(v@) > lo {
            assert(is_whitespace_char(v@[lo as int]));
            assert(false);
        }
    }
    let mut hi: usize = n;
    while hi > lo && whitespace_char(v[hi - 1])
        invariant
            lo <= hi <= n,
            n == v@.len(),
            lo < n,
            !is_whitespace_char(v@[lo as int]),
            forall|j: int| hi <= j < n ==> is_whitespace_char(v@[j]),
        decreases hi,
    {
        hi = hi - 1;
    }
    proof {
        assert(hi > lo);
        assert(!is_whitespace_char(v@[hi - 1]));
        if ws_suffix_len(v@) < n - hi {
            assert(is_whitespace_char(v@[v@.len() - ws_suffix_len(v@) - 1]));
            assert(false);
        }
        if ws_suffix_len(v@) > n - hi {
            assert(is_whitespace_char(v@[hi - 1]));
            assert(false);
        }
    }
    let mut r: Vec<char> = Vec::new();
    let mut i: usize = lo;
    while i < hi
        invariant
            lo <= i <= hi <= n,
            n == v@.len(),
            r@ == v@.subrange(lo as int, i as int),
        decreases hi - i,
    {
        r.push(v[i]);
        i = i + 1;
        proof {
            assert(r@ =~= v@.subrange(lo as int, i as int));
        }
    }
    proof {
        assert(r@ =~= trim_seq(v@));
    }
    r
}

pub proof fn lemma_trim_idempotent(s: Seq<char>)
    ensures
        trim_seq(trim_seq(s)) == trim_seq(s),
{
    lemma_ws_prefix_len(s);
    lemma_ws_suffix_len(s);
    let t = trim_seq(s);
    if t.len() == 0 {
        assert(ws_prefix_len(t) == 0);
        assert(trim_seq(t) =~= t);
    } else {
        let a = ws_prefix_len(s);
        let b = s.len() - ws_suffix_len(s);
        assert(t == s.subrange(a, b));
        assert(t[0] == s[a]);
        assert(!is_whitespace_char(t[0]));
        assert(t.last() == s[b - 1]);
        assert(!is_whitespace_char(t.last()));
        assert(ws_prefix_len(t) == 0);
        assert(ws_suffix_len(t) == 0);
        assert(trim_seq(t) =~= t);
    }
}

/// Whether the needle `n` occurs in `s` starting at position `i`.
pub open spec fn match_at(s: Seq<char>, n: Seq<char>, i: int) -> bool {
    0 <= i && i + n.len() <= s.len() && s.subrange(i, i + n.len()) == n
}

/// Index of the first occurrence of the needle `n` in `s`, or -1 when absent.
pub open spec fn first_match(s: Seq<char>, n: Seq<char>) -> int
    decreases s.len(),
{
    if n.len() > s.len() {
        -1
    } else if s.subrange(0, n.len() as int) == n {
        0
    } else if s.len() == 0 {
        -1
    } else {
        let r = first_match(s.drop_first(), n);
        if r < 0 {
            -1
        } else {
            1 + r
        }
    }
}

pub proof fn lemma_first_match(s: Seq<char>, n: Seq<char>)
    ensures
        first_match(s, n) == -1 ==> (forall|i: int| !match_at(s, n, i)),
        first_match(s, n) >= 0 ==> {
            let r = first_match(s, n);
            &&& match_at(s, n, r)
            &&& forall|i: int| 0 <= i < r ==> !match_at(s, n, i)
        },
    decreases s.len(),
{
    if n.len() > s.len() {
        assert(forall|i: int| !match_at(s, n, i));
    } else if s.subrange(0, n.len() as int) == n {
    } else if s.len() == 0 {
        assert(!match_at(s, n, 0));
        assert(forall|i: int| !match_at(s, n, i));
    } else {
        lemma_first_match(s.drop_first(), n);
        let t = s.drop_first();
        assert forall|i: int| 1 <= i && match_at(s, n, i) implies match_at(t, n, i - 1) by {
            assert(s.subrange(i, i + n.len()) =~= t.subrange(i - 1, i - 1 + n.len()));
        }
        assert forall|i: int| 0 <= i && match_at(t, n, i) implies match_at(s, n, i + 1) by {
            assert(t.subrange(i, i + n.len()) =~= s.subrange(i + 1, i + 1 + n.len()));
        }
        let r = first_match(t, n);
        if r < 0 {
            assert forall|i: int| !match_at(s, n, i) by {
                if 0 <= i && match_at(s, n, i) {
                    if i == 0 {
                        assert(s.subrange(0, n.len() as int) == n);
                    } else {
                        assert(match_at(t, n, i - 1));
                    }
                }
            }
        } else {
            assert(match_at(s, n, r + 1));
            assert forall|i: int| 0 <= i < r + 1 implies !match_at(s, n, i) by {
                if i == 0 {
                    if match_at(s, n, 0) {
                        assert(s.subrange(0, n.len() as int) == n);
                    }
                } else {
                    if match_at(s, n, i) {
                        assert(match_at(t, n, i - 1));
                    }
                }
            }
        }
    }
}

/// Whether `n` occurs anywhere in `s`, as `str::contains`.
pub open spec fn contains_seq(s: Seq<char>, n: Seq<char>) -> bool {
    first_match(s, n) >= 0
}

fn range_matches(v: &Vec<char>, n: &Vec<char>, at: usize) -> (r: bool)
    requires
        at + n@.len() <= v@.len(),
    ensures
        r == (v@.subrange(at as int, at + n@.len()) == n@),
{
    let vlen = v.len();
    let mut j: usize = 0;
    while j < n.len()
        invariant
            at + n@.len() <= v@.len(),
            vlen == v@.len(),
            j <= n@.len(),
            forall|k: int| 0 <= k < j ==> v@[at + k] == n@[k],
        decreases n@.len() - j,
    {
        if v[at + j] != n[j] {
            proof {
                assert(v@.subrange(at as int, at + n@.len())[j as int] != n@[j as int]);
            }
            return false;
        }
        j = j + 1;
    }
    proof {
        assert(v@.subrange(at as int, at + n@.len()) =~= n@);
    }
    true
}

/// Position of the first occurrence of `n` in `v`, as `str::find`.
pub fn find_sub(v: &Vec<char>, n: &Vec<char>) -> (r: Option<usize>)
    ensures
        match r {
            Some(i) => first_match(v@, n@) == i,
            None => first_match(v@, n@) == -1,
        },
{
    proof {
        lemma_first_match(v@, n@);
    }
    if n.len() > v.len() {
        return None;
    }
    let last = v.len() - n.len();
    let mut i: usize = 0;
    loop
        invariant
            n@.len() <= v@.len(),
            last == v@.len() - n@.len(),
            i <= last,
            forall|k: int| 0 <= k < i ==> !match_at(v@, n@, k),
        decreases last - i,
    {
        if range_matches(v, n, i) {
            proof {
                assert(match_at(v@, n@, i as int));
                lemma_first_match(v@, n@);
            }
            return Some(i);
        }
        if i == last {
            proof {
                assert forall|k: int| !match_at(v@, n@, k) by {
                    if match_at(v@, n@, k) {
                        assert(0 <= k <= v@.len() - n@.len());
                    }
                }
                lemma_first_match(v@, n@);
            }
            return None;
        }
        i = i + 1;
    }
}

pub fn contains_chars(v: &Vec<char>, n: &Vec<char>) -> (r: bool)
    ensures
        r == contains_seq(v@, n@),
{
    match find_sub(v, n) {
        Some(_) => true,
        None => false,
    }
}

/// Case-insensitive containment: both sides ASCII-lower-cased first.
pub open spec fn contains_ci(s: Seq<char>, n: Seq<char>) -> bool {
    contains_seq(lower_seq(s), lower_seq(n))
}

pub fn lower_chars(v: &Vec<char>) -> (r: Vec<char>)
    ensures
        r@ == lower_seq(v@),
{
    let mut r: Vec<char> = Vec::new();
    let mut i: usize = 0;
    while i < v.len()
        invariant
            i <= v@.len(),
            r@.len() == i,
            forall|k: int| 0 <= k < i ==> r@[k] == lower_char(v@[k]),
        decreases v@.len() - i,
    {
        r.push(lower_char_ex(v[i]));
        i = i + 1;
    }
    proof {
        assert(r@ =~= lower_seq(v@));
    }
    r
}

pub fn upper_chars(v: &Vec<char>) -> (r: Vec<char>)
    ensures
        r@ == upper_seq(v@),
{
    let mut r: Vec<char> = Vec::new();
    let mut i: usize = 0;
    while i < v.len()
        invariant
            i <= v@.len(),
            r@.len() == i,
            forall|k: int| 0 <= k < i ==> r@[k] == upper_char(v@[k]),
        decreases v@.len() - i,
    {
        r.push(upper_char_ex(v[i]));
        i = i + 1;
    }
    proof {
        assert(r@ =~= upper_seq(v@));
    }
    r
}

pub fn contains_chars_ci(v: &Vec<char>, n: &Vec<char>) -> (r: bool)
    ensures
        r == contains_ci(v@, n@),
{
    let lv = lower_chars(v);
    let ln = lower_chars(n);
    contains_chars(&lv, &ln)
}

/// Whether `n` is a prefix of `s`.
pub open spec fn starts_with_seq(s: Seq<char>, n: Seq<char>) -> bool {
    n.len() <= s.len() && s.subrange(0, n.len() as int) == n
}

pub fn starts_with_chars(v: &Vec<char>, n: &Vec<char>) -> (r: bool)
    ensures
        r == starts_with_seq(v@, n@),
{
    if n.len() > v.len() {
        return false;
    }
    range_matches(v, n, 0)
}

pub fn eq_chars(v: &Vec<char>, n: &Vec<char>) -> (r: bool)
    ensures
        r == (v@ == n@),
{
    if v.len() != n.len() {
        proof {
            assert(v@.len() != n@.len());
        }
        return false;
    }
    let r = range_matches(v, n, 0);
    proof {
        assert(v@.subrange(0, n@.len() as int) =~= v@);
    }
    r
}

/// Decimal value of a digit sequence.
pub open spec fn dec_val(s: Seq<char>) -> int
    decreases s.len(),
{
    if s.len() == 0 {
        0
    } else {
        dec_val(s.drop_last()) * 10 + (s.last() as u32 - '0' as u32)
    }
}

pub open spec fn all_digits(s: Seq<char>) -> bool {
    forall|j: int| 0 <= j < s.len() ==> is_ascii_digit(s[j])
}

pub proof fn lemma_dec_val_nonneg(s: Seq<char>)
    requires
        all_digits(s),
    ensures
        dec_val(s) >= 0,
    decreases s.len(),
{
    if s.len() > 0 {
        assert(all_digits(s.drop_last()));
        lemma_dec_val_nonneg(s.drop_last());
        assert(is_ascii_digit(s.last()));
    }
}

/// The result of `str::parse::<u16>`: an optional `+` sign, then one or
/// more decimal digits whose value fits in 16 bits.
pub open spec fn parse_u16_seq(s: Seq<char>) -> Option<u16> {
    let body = if s.len() > 0 && s[0] == '+' {
        s.drop_first()
    } else {
        s
    };
    if body.len() > 0 && all_digits(body) && dec_val(body) <= 65535 {
        Some(dec_val(body) as u16)
    } else {
        None
    }
}

fn parse_digits(v: &Vec<char>, from: usize) -> (r: Option<u16>)
    requires
        from <= v@.len(),
    ensures
        ({
            let body = v@.subrange(from as int, v@.len() as int);
            match r {
                Some(x) => body.len() > 0 && all_digits(body) && dec_val(body) == x,
                None => !(body.len() > 0 && all_digits(body) && dec_val(body) <= 65535),
            }
        }),
{
    let ghost body = v@.subrange(from as int, v@.len() as int);
    if from == v.len() {
        return None;
    }
    let mut acc: u32 = 0;
    let mut i: usize = from;
    while i < v.len()
        invariant
            from <= i <= v@.len(),
            body == v@.subrange(from as int, v@.len() as int),
            all_digits(v@.subrange(from as int, i as int)),
            acc <= 65536,
            dec_val(v@.subrange(from as int, i as int)) <= 65535 ==> acc == dec_val(
                v@.subrange(from as int, i as int),
            ),
            dec_val(v@.subrange(from as int, i as int)) > 65535 ==> acc == 65536,
        decreases v@.len() - i,
    {
        let ghost pref = v@.subrange(from as int, i as int);
        let c = v[i];
        match digit_value(c) {
            Some(d) => {
                proof {
                    let pref2 = v@.subrange(from as int, i + 1);
                    assert(pref2.drop_last() =~= pref);
                    assert(pref2.last() == c);
                    assert(dec_val(pref2) == dec_val(pref) * 10 + (c as u32 - '0' as u32));
                    lemma_dec_val_nonneg(pref);
                }
                let next = acc * 10 + (d as u32);
                if next > 65535 {
                    acc = 65536;
                } else {
                    acc = next;
                }
                i = i + 1;
            },
            None => {
                proof {
                    assert(body[i - from] == v@[i as int]);
                    assert(!all_digits(body));
                }
                return None;
            },
        }
    }
    proof {
        assert(v@.subrange(from as int, i as int) =~= body);
    }
    if acc > 65535 {
        proof {
            lemma_dec_val_nonneg(body);
        }
        None
    } else {
        Some(acc as u16)
    }
}

/// Parses an unsigned 16-bit decimal number, as `str::parse::<u16>`.
pub fn parse_u16_chars(v: &Vec<char>) -> (r: Option<u16>)
    ensures
        r == parse_u16_seq(v@),
{
    if v.len() > 0 && v[0] == '+' {
        proof {
            assert(v@.subrange(1, v@.len() as int) =~= v@.drop_first());
        }
        parse_digits(v, 1)
    } else {
        proof {
            assert(v@.subrange(0, v@.len() as int) =~= v@);
        }
        parse_digits(v, 0)
    }
}

/// The decimal digit character for a value below ten.
pub open spec fn digit_char(d: int) -> char {
    ((48 + d) as u32) as char
}

/// The decimal form of a number, as `u16::to_string`.
pub open spec fn dec_chars(n: int) -> Seq<char>
    decreases n,
{
    if n < 10 {
        seq![digit_char(n)]
    } else {
        dec_chars(n / 10).push(digit_char(n % 10))
    }
}

pub fn u16_chars(n: u16) -> (r: Vec<char>)
    ensures
        r@ == dec_chars(n as int),
    decreases n,
{
    if n < 10 {
        let mut r: Vec<char> = Vec::new();
        r.push((48 + (n as u8)) as char);
        proof {
            assert(r@ =~= seq![digit_char(n as int)]);
        }
        r
    } else {
        let mut r = u16_chars(n / 10);
        r.push((48 + ((n % 10) as u8)) as char);
        r
    }
}

/// The sequence with trailing characters from the given pair removed,
/// as `str::trim_end_matches`.
pub open spec fn strip_trailing(s: Seq<char>, a: char, b: char) -> Seq<char>
    decreases s.len(),
{
    if s.len() > 0 && (s.last() == a || s.last() == b) {
        strip_trailing(s.drop_last(), a, b)
    } else {
        s
    }
}

pub fn strip_trailing_chars(v: &Vec<char>, a: char, b: char) -> (r: Vec<char>)
    ensures
        r@ == strip_trailing(v@, a, b),
{
    proof {
        assert(v@.subrange(0, v@.len() as int) =~= v@);
    }
    let mut hi: usize = v.len();
    while hi > 0 && (v[hi - 1] == a || v[hi - 1] == b)
        invariant
            hi <= v@.len(),
            strip_trailing(v@, a, b) == strip_trailing(v@.subrange(0, hi as int), a, b),
        decreases hi,
    {
        proof {
            assert(v@.subrange(0, hi as int).drop_last() =~= v@.subrange(0, hi - 1));
        }
        hi = hi - 1;
    }
    let mut r: Vec<char> = Vec::new();
    let mut i: usize = 0;
    while i < hi
        invariant
            i <= hi <= v@.len(),
            r@ == v@.subrange(0, i as int),
        decreases hi - i,
    {
        r.push(v[i]);
        i = i + 1;
        proof {
            assert(r@ =~= v@.subrange(0, i as int));
        }
    }
    proof {
        let pre = v@.subrange(0, hi as int);
        assert(pre.len() == 0 || !(pre.last() == a || pre.last() == b));
        assert(strip_trailing(pre, a, b) == pre);
        assert(r@ =~= pre);
    }
    r
}

/// The segments of `s` between occurrences of `sep`, as `str::split`:
/// empty segments are kept, and a sequence without the separator is one
/// segment.
pub open spec fn split_seq(s: Seq<char>, sep: char) -> Seq<Seq<char>>
    decreases s.len(),
    via split_seq_dec
{
    let r = first_idx(s, sep);
    if r < 0 {
        seq![s]
    } else {
        seq![s.subrange(0, r)] + split_seq(s.subrange(r + 1, s.len() as int), sep)
    }
}

#[via_fn]
proof fn split_seq_dec(s: Seq<char>, sep: char) {
    lemma_first_idx(s, sep);
}

pub fn split_chars(v: &Vec<char>, sep: char) -> (r: Vec<Vec<char>>)
    ensures
        r.deep_view() == split_seq(v@, sep),
{
    let mut parts: Vec<Vec<char>> = Vec::new();
    let mut cur: Vec<char> = Vec::new();
    let mut i: usize = 0;
    proof {
        assert(v@.subrange(0, v@.len() as int) =~= v@);
        assert(v@.subrange(0, 0) =~= Seq::<char>::empty());
    }
    while i < v.len()
        invariant
            i <= v@.len(),
            exists|st: int|
                {
                    &&& 0 <= st <= i
                    &&& cur@ == v@.subrange(st, i as int)
                    &&& (forall|j: int| st <= j < i ==> v@[j] != sep)
                    &&& split_seq(v@, sep) == parts.deep_view() + split_seq(
                        v@.subrange(st, v@.len() as int),
                        sep,
                    )
                },
        decreases v@.len() - i,
    {
        let ghost st = choose|st: int|
            {
                &&& 0 <= st <= i
                &&& cur@ == v@.subrange(st, i as int)
                &&& (forall|j: int| st <= j < i ==> v@[j] != sep)
                &&& split_seq(v@, sep) == parts.deep_view() + split_seq(
                    v@.subrange(st, v@.len() as int),
                    sep,
                )
            };
        let ghost rest = v@.subrange(st, v@.len() as int);
        let c = v[i];
        if c == sep {
            proof {
                lemma_first_idx(rest, sep);
                assert(rest[i - st] == sep);
                if first_idx(rest, sep) < 0 {
                    assert(false);
                }
                let f = first_idx(rest, sep);
                if f < i - st {
                    assert(v@[st + f] == sep);
                    assert(false);
                }
                if f > i - st {
                    assert(rest[i - st] != sep);
                    assert(false);
                }
                assert(rest.subrange(0, i - st) =~= v@.subrange(st, i as int));
                assert(rest.subrange(i - st + 1, rest.len() as int) =~= v@.subrange(
                    i + 1,
                    v@.len() as int,
                ));
            }
            let ghost pv = parts.deep_view();
            parts.push(cur);
            cur = Vec::new();
            proof {
                assert(parts.deep_view() =~~= pv + seq![v@.subrange(st, i as int)]);
                assert(pv + seq![v@.subrange(st, i as int)] + split_seq(
                    v@.subrange(i + 1, v@.len() as int),
                    sep,
                ) =~~= pv + (seq![v@.subrange(st, i as int)] + split_seq(
                    v@.subrange(i + 1, v@.len() as int),
                    sep,
                )));
                assert(split_seq(v@, sep) == parts.deep_view() + split_seq(
                    v@.subrange(i + 1, v@.len() as int),
                    sep,
                ));
                assert(cur@ =~= v@.subrange(i + 1, i + 1));
            }
        } else {
            cur.push(c);
            proof {
                assert(cur@ =~= v@.subrange(st, i + 1));
            }
        }
        i = i + 1;
    }
    let ghost st = choose|st: int|
        {
            &&& 0 <= st <= i
            &&& cur@ == v@.subrange(st, i as int)
            &&& (forall|j: int| st <= j < i ==> v@[j] != sep)
            &&& split_seq(v@, sep) == parts.deep_view() + split_seq(
                v@.subrange(st, v@.len() as int),
                sep,
            )
        };
    proof {
        let rest = v@.subrange(st, v@.len() as int);
        lemma_first_idx(rest, sep);
        if first_idx(rest, sep) >= 0 {
            assert(v@[st + first_idx(rest, sep)] == sep);
            assert(false);
        }
        assert(split_seq(rest, sep) == seq![rest]);
        assert(rest =~= cur@);
    }
    let ghost pv = parts.deep_view();
    let ghost cs = cur@;
    parts.push(cur);
    proof {
        assert(parts.deep_view() =~~= pv + seq![cs]);
        assert(parts.deep_view() =~~= split_seq(v@, sep));
    }
    parts
}

/// A copy of the characters of `v` in positions `lo..hi`.
pub fn copy_range(v: &Vec<char>, lo: usize, hi: usize) -> (r: Vec<char>)
    requires
        lo <= hi <= v@.len(),
    ensures
        r@ == v@.subrange(lo as int, hi as int),
{
    let mut r: Vec<char> = Vec::new();
    let mut i: usize = lo;
    while i < hi
        invariant
            lo <= i <= hi <= v@.len(),
            r@ == v@.subrange(lo as int, i as int),
        decreases hi - i,
    {
        r.push(v[i]);
        i = i + 1;
        proof {
            assert(r@ =~= v@.subrange(lo as int, i as int));
        }
    }
    proof {
        assert(r@ =~= v@.subrange(lo as int, hi as int));
    }
    r
}

/// Position of the first occurrence of `c` in `v`.
pub fn find_char(v: &Vec<char>, c: char) -> (r: Option<usize>)
    ensures
        match r {
            Some(i) => first_idx(v@, c) == i,
            None => first_idx(v@, c) == -1,
        },
{
    proof {
        lemma_first_idx(v@, c);
    }
    let n = v.len();
    let mut i: usize = 0;
    while i < n
        invariant
            i <= n,
            n == v@.len(),
            forall|j: int| 0 <= j < i ==> v@[j] != c,
        decreases n - i,
    {
        if v[i] == c {
            proof {
                let f = first_idx(v@, c);
                lemma_first_idx(v@, c);
                if f == -1 {
                    assert(v@[i as int] != c);
                } else {
                    if f < i {
                        assert(v@[f] != c);
                    }
                    if f > i {
                        assert(v@[i as int] != c);
                    }
                }
            }
            return Some(i);
        }
        i = i + 1;
    }
    proof {
        if first_idx(v@, c) >= 0 {
            assert(v@[first_idx(v@, c)] == c);
        }
    }
    None
}

/// Position of the next comma at or after `i` that is outside double
/// quotes, or the length of `s` when there is none. A doubled quote
/// inside a quoted stretch stands for a literal quote and does not
/// close it.
pub open spec fn next_comma(s: Seq<char>, i: int, in_q: bool) -> int
    decreases s.len() - i,
{
    if i < 0 || i >= s.len() {
        s.len() as int
    } else if !in_q && s[i] == ',' {
        i
    } else if s[i] == '"' {
        if in_q && i + 1 < s.len() && s[i + 1] == '"' {
            next_comma(s, i + 2, in_q)
        } else {
            next_comma(s, i + 1, !in_q)
        }
    } else {
        next_comma(s, i + 1, in_q)
    }
}

pub proof fn lemma_next_comma(s: Seq<char>, i: int, in_q: bool)
    ensures
        next_comma(s, i, in_q) <= s.len(),
        0 <= i <= s.len() ==> i <= next_comma(s, i, in_q),
        next_comma(s, i, in_q) < s.len() ==> s[next_comma(s, i, in_q)] == ',',
    decreases s.len() - i,
{
    if i < 0 || i >= s.len() {
    } else if !in_q && s[i] == ',' {
    } else if s[i] == '"' {
        if in_q && i + 1 < s.len() && s[i + 1] == '"' {
            lemma_next_comma(s, i + 2, in_q);
        } else {
            lemma_next_comma(s, i + 1, !in_q);
        }
    } else {
        lemma_next_comma(s, i + 1, in_q);
    }
}

/// The whitespace-separated tokens of `s`, as `str::split_whitespace`:
/// maximal nonempty runs of non-whitespace characters.
pub open spec fn tokens_of(s: Seq<char>) -> Seq<Seq<char>>
    decreases s.len(),
    via tokens_of_dec
{
    if s.len() == 0 {
        Seq::empty()
    } else if is_whitespace_char(s[0]) {
        tokens_of(s.drop_first())
    } else {
        let e = if first_ws(s) < 0 {
            s.len() as int
        } else {
            first_ws(s)
        };
        seq![s.subrange(0, e)] + tokens_of(s.subrange(e, s.len() as int))
    }
}

#[via_fn]
proof fn tokens_of_dec(s: Seq<char>) {
    if s.len() > 0 && !is_whitespace_char(s[0]) {
        lemma_first_ws(s);
        if first_ws(s) == 0 {
            assert(is_whitespace_char(s[0]));
        }
    }
}

pub fn tokens_chars(v: &Vec<char>) -> (r: Vec<Vec<char>>)
    ensures
        r.deep_view() == tokens_of(v@),
{
    let n = v.len();
    let mut parts: Vec<Vec<char>> = Vec::new();
    let mut i: usize = 0;
    proof {
        assert(v@.subrange(0, v@.len() as int) =~= v@);
    }
    while i < n
        invariant
            i <= n,
            n == v@.len(),
            tokens_of(v@) == parts.deep_view() + tokens_of(v@.subrange(i as int, n as int)),
        decreases n - i,
    {
        let ghost rest = v@.subrange(i as int, n as int);
        if whitespace_char(v[i]) {
            proof {
                assert(rest[0] == v@[i as int]);
                assert(rest.drop_first() =~= v@.subrange(i + 1, n as int));
            }
            i = i + 1;
        } else {
            let start = i;
            let mut j: usize = i + 1;
            while j < n && !whitespace_char(v[j])
                invariant
                    start < j <= n,
                    n == v@.len(),
                    forall|k: int| start <= k < j ==> !is_whitespace_char(v@[k]),
                decreases n - j,
            {
                j = j + 1;
            }
            proof {
                assert(rest[0] == v@[start as int]);
                lemma_first_ws(rest);
                let f = first_ws(rest);
                if j < n {
                    // a whitespace character stops the token at j
                    assert(is_whitespace_char(rest[j - start]));
                    if f < 0 {
                        assert(false);
                    }
                    if f < j - start {
                        assert(is_whitespace_char(v@[start + f]));
                        assert(false);
                    }
                    if f > j - start {
                        assert(!is_whitespace_char(rest[j - start]));
                        assert(false);
                    }
                } else {
                    // the token runs to the end of the input
                    if f >= 0 {
                        assert(is_whitespace_char(v@[start + f]));
                        assert(false);
                    }
                }
                assert(rest.subrange(0, j - start) =~= v@.subrange(start as int, j as int));
                assert(rest.subrange(j - start, rest.len() as int) =~= v@.subrange(
                    j as int,
                    n as int,
                ));
                assert(tokens_of(rest) == seq![v@.subrange(start as int, j as int)] + tokens_of(
                    v@.subrange(j as int, n as int),
                ));
            }
            let mut tok: Vec<char> = Vec::new();
            let mut k: usize = start;
            while k < j
                invariant
                    start <= k <= j <= n,
                    n == v@.len(),
                    tok@ == v@.subrange(start as int, k as int),
                decreases j - k,
            {
                tok.push(v[k]);
                k = k + 1;
                proof {
                    assert(tok@ =~= v@.subrange(start as int, k as int));
                }
            }
            let ghost pv = parts.deep_view();
            parts.push(tok);
            proof {
                assert(parts.deep_view() =~~= pv + seq![v@.subrange(start as int, j as int)]);
                assert(pv + seq![v@.subrange(start as int, j as int)] + tokens_of(
                    v@.subrange(j as int, n as int),
                ) =~~= pv + (seq![v@.subrange(start as int, j as int)] + tokens_of(
                    v@.subrange(j as int, n as int),
                )));
            }
            i = j;
        }
    }
    proof {
        assert(v@.subrange(i as int, n as int) =~= Seq::<char>::empty());
        assert(tokens_of(Seq::<char>::empty()) =~= Seq::<Seq<char>>::empty());
        assert(parts.deep_view() =~= tokens_of(v@));
    }
    parts
}

/// Lexicographic (code-point) order on character sequences; matches the
/// order of `str`'s `Ord` because UTF-8 preserves code-point order.
pub open spec fn lex_lt(a: Seq<char>, b: Seq<char>) -> bool
    decreases a.len(),
{
    if b.len() == 0 {
        false
    } else if a.len() == 0 {
        true
    } else if (a[0] as u32) < (b[0] as u32) {
        true
    } else if (a[0] as u32) > (b[0] as u32) {
        false
    } else {
        lex_lt(a.drop_first(), b.drop_first())
    }
}

pub fn lex_lt_chars(a: &Vec<char>, b: &Vec<char>) -> (r: bool)
    ensures
        r == lex_lt(a@, b@),
{
    proof {
        assert(a@.subrange(0, a@.len() as int) =~= a@);
        assert(b@.subrange(0, b@.len() as int) =~= b@);
    }
    let mut i: usize = 0;
    loop
        invariant
            i <= a@.len(),
            i <= b@.len(),
            lex_lt(a@, b@) == lex_lt(
                a@.subrange(i as int, a@.len() as int),
                b@.subrange(i as int, b@.len() as int),
            ),
        decreases a@.len() - i,
    {
        let ghost sa = a@.subrange(i as int, a@.len() as int);
        let ghost sb = b@.subrange(i as int, b@.len() as int);
        if i >= b.len() {
            proof {
                assert(sb.len() == 0);
            }
            return false;
        }
        if i >= a.len() {
            proof {
                assert(sa.len() == 0 && sb.len() > 0);
            }
            return true;
        }
        let ca = a[i];
        let cb = b[i];
        proof {
            assert(sa[0] == a@[i as int]);
            assert(sb[0] == b@[i as int]);
        }
        if (ca as u32) < (cb as u32) {
            return true;
        }
        if (ca as u32) > (cb as u32) {
            return false;
        }
        proof {
            assert(sa.drop_first() =~= a@.subrange(i + 1, a@.len() as int));
            assert(sb.drop_first() =~= b@.subrange(i + 1, b@.len() as int));
        }
        i = i + 1;
    }
}

pub proof fn lemma_lex_lt_transitive(a: Seq<char>, b: Seq<char>, c: Seq<char>)
    requires
        lex_lt(a, b),
        lex_lt(b, c),
    ensures
        lex_lt(a, c),
    decreases a.len(),
{
    if c.len() == 0 {
    } else if a.len() == 0 {
    } else {
        // b cannot be empty: nothing is below the empty sequence
        assert(b.len() > 0);
        if (a[0] as u32) < (b[0] as u32) {
            assert((b[0] as u32) <= (c[0] as u32));
        } else {
            assert(a[0] as u32 == b[0] as u32);
            if (b[0] as u32) < (c[0] as u32) {
            } else {
                assert(b[0] as u32 == c[0] as u32);
                lemma_lex_lt_transitive(a.drop_first(), b.drop_first(), c.drop_first());
            }
        }
    }
}

pub proof fn lemma_lex_lt_connected(a: Seq<char>, b: Seq<char>)
    ensures
        !lex_lt(a, b) && !lex_lt(b, a) ==> a == b,
    decreases a.len(),
{
    if !lex_lt(a, b) && !lex_lt(b, a) {
        if b.len() == 0 {
            assert(a.len() == 0);
            assert(a =~= b);
        } else if a.len() == 0 {
        } else {
            assert(a[0] == b[0]) by {
                assert(a[0] as u32 == b[0] as u32);
                vstd::utf8::char_u32_cast(a[0], a[0] as u32);
                vstd::utf8::char_u32_cast(b[0], b[0] as u32);
            }
            lemma_lex_lt_connected(a.drop_first(), b.drop_first());
            assert(a.drop_first() == b.drop_first());
            assert(a =~= seq![a[0]] + a.drop_first());
            assert(b =~= seq![b[0]] + b.drop_first());
        }
    }
}

} // verus!
