//! Character-level text operations used by value parsing and the SQL front end.
use vstd::prelude::*;

verus! {

broadcast use vstd::seq_lib::group_seq_properties;

// ---------------------------------------------------------------------------
// Conversions between text and character vectors
// ---------------------------------------------------------------------------

/// The characters of `s` in order, read through `str::chars`.
pub fn chars_of(s: &str) -> (r: Vec<char>)
    ensures
        r@ == s@,
{
    broadcast use vstd::string::axiom_spec_iter;

    let mut out: Vec<char> = Vec::new();
    for c in it: s.chars()
        invariant
            it.seq() == s@,
            out@ == s@.take(it.index() as int),
    {
        out.push(c);
        proof {
            assert(s@.take(it.index() + 1) =~= s@.take(it.index() as int).push(c));
        }
    }
    out
}

/// `String: FromIterator<char>`: the string made of the given characters in order.
#[verifier::external_body]
pub fn string_of(cs: &[char]) -> (r: String)
    ensures
        r@ == cs@,
{
    cs.iter().collect()
}

/// Copies a range of a character slice.
pub fn copy_range(s: &[char], start: usize, end: usize) -> (r: Vec<char>)
    requires
        start <= end <= s@.len(),
    ensures
        r@ == s@.subrange(start as int, end as int),
{
    let mut r: Vec<char> = Vec::new();
    let mut i = start;
    while i < end
        invariant
            start <= i <= end,
            end <= s@.len(),
            r@ == s@.subrange(start as int, i as int),
        decreases end - i,
    {
        r.push(s[i]);
        i += 1;
    }
    r
}

/// Concatenation of two character sequences.
pub fn concat(a: &[char], b: &[char]) -> (r: Vec<char>)
    ensures
        r@ == a@ + b@,
{
    let mut r = copy_range(a, 0, a.len());
    let mut i: usize = 0;
    while i < b.len()
        invariant
            i <= b@.len(),
            r@ == a@ + b@.take(i as int),
        decreases b@.len() - i,
    {
        r.push(b[i]);
        i += 1;
    }
    assert(b@.take(i as int) =~= b@);
    r
}

/// Character-sequence equality.
pub fn chars_eq(a: &[char], b: &[char]) -> (r: bool)
    ensures
        r == (a@ == b@),
{
    if a.len() != b.len() {
        return false;
    }
    let mut i: usize = 0;
    while i < a.len()
        invariant
            a@.len() == b@.len(),
            i <= a@.len(),
            forall|k: int| 0 <= k < i ==> a@[k] == b@[k],
        decreases a@.len() - i,
    {
        if a[i] != b[i] {
            return false;
        }
        i += 1;
    }
    assert(a@ =~= b@);
    true
}

// ---------------------------------------------------------------------------
// Character classes
// ---------------------------------------------------------------------------

/// Unicode `White_Space`, the class `char::is_whitespace` tests.
pub open spec fn is_ws(c: char) -> bool {
    ||| '\u{9}' <= c <= '\u{d}'
    ||| c == ' '
    ||| c == '\u{85}'
    ||| c == '\u{a0}'
    ||| c == '\u{1680}'
    ||| '\u{2000}' <= c <= '\u{200a}'
    ||| c == '\u{2028}'
    ||| c == '\u{2029}'
    ||| c == '\u{202f}'
    ||| c == '\u{205f}'
    ||| c == '\u{3000}'
}

pub fn is_whitespace(c: char) -> (r: bool)
    ensures
        r == is_ws(c),
{
    ('\u{9}' <= c && c <= '\u{d}') || c == ' ' || c == '\u{85}' || c == '\u{a0}' || c == '\u{1680}'
        || ('\u{2000}' <= c && c <= '\u{200a}') || c == '\u{2028}' || c == '\u{2029}' || c
        == '\u{202f}' || c == '\u{205f}' || c == '\u{3000}'
}

/// ASCII whitespace as `char::is_ascii_whitespace` defines it.
pub open spec fn is_ascii_ws(c: char) -> bool {
    c == ' ' || c == '\t' || c == '\n' || c == '\u{c}' || c == '\r'
}

pub fn is_ascii_whitespace(c: char) -> (r: bool)
    ensures
        r == is_ascii_ws(c),
{
    c == ' ' || c == '\t' || c == '\n' || c == '\u{c}' || c == '\r'
}

/// ASCII upper-casing of one character; other characters are unchanged.
pub open spec fn upper(c: char) -> char {
    if 'a' <= c <= 'z' {
        ((c as u32) - 32) as char
    } else {
        c
    }
}

/// ASCII lower-casing of one character; other characters are unchanged.
pub open spec fn lower(c: char) -> char {
    if 'A' <= c <= 'Z' {
        ((c as u32) + 32) as char
    } else {
        c
    }
}

pub fn to_upper(c: char) -> (r: char)
    ensures
        r == upper(c),
{
    if 'a' <= c && c <= 'z' {
        let u = (c as u32) - 32;
        assert(u < 0x80);
        char_from_ascii(u)
    } else {
        c
    }
}

pub fn to_lower(c: char) -> (r: char)
    ensures
        r == lower(c),
{
    if 'A' <= c && c <= 'Z' {
        let u = (c as u32) + 32;
        char_from_ascii(u)
    } else {
        c
    }
}

/// The character with an ASCII code point.
fn char_from_ascii(u: u32) -> (r: char)
    requires
        u < 0x80,
    ensures
        r == u as char,
{
    assert((u as u8) as u32 == u);
    (u as u8) as char
}

/// The ASCII upper-case form of a sequence.
pub open spec fn upper_seq(s: Seq<char>) -> Seq<char> {
    s.map_values(|c: char| upper(c))
}

pub fn uppercase(s: &[char]) -> (r: Vec<char>)
    ensures
        r@ == upper_seq(s@),
{
    let mut r: Vec<char> = Vec::new();
    let mut i: usize = 0;
    while i < s.len()
        invariant
            i <= s@.len(),
            r@ == upper_seq(s@.take(i as int)),
        decreases s@.len() - i,
    {
        r.push(to_upper(s[i]));
        i += 1;
        assert(r@ =~= upper_seq(s@.take(i as int)));
    }
    assert(s@.take(i as int) =~= s@);
    r
}

/// Equality up to ASCII case, as `str::eq_ignore_ascii_case` defines it.
pub open spec fn eq_ignore_case(a: Seq<char>, b: Seq<char>) -> bool {
    a.len() == b.len() && forall|i: int| 0 <= i < a.len() ==> lower(#[trigger] a[i]) == lower(b[i])
}

pub fn eq_ignore_ascii_case(a: &[char], b: &[char]) -> (r: bool)
    ensures
        r == eq_ignore_case(a@, b@),
{
    if a.len() != b.len() {
        return false;
    }
    let mut i: usize = 0;
    while i < a.len()
        invariant
            a@.len() == b@.len(),
            i <= a@.len(),
            forall|k: int| 0 <= k < i ==> lower(#[trigger] a@[k]) == lower(b@[k]),
        decreases a@.len() - i,
    {
        if to_lower(a[i]) != to_lower(b[i]) {
            return false;
        }
        i += 1;
    }
    true
}

// ---------------------------------------------------------------------------
// Trimming
// ---------------------------------------------------------------------------

/// Removes leading whitespace.
pub open spec fn trim_start(s: Seq<char>) -> Seq<char>
    decreases s.len(),
{
    if s.len() > 0 && is_ws(s[0]) {
        trim_start(s.drop_first())
    } else {
        s
    }
}

/// Removes trailing whitespace.
pub open spec fn trim_end(s: Seq<char>) -> Seq<char>
    decreases s.len(),
{
    if s.len() > 0 && is_ws(s.last()) {
        trim_end(s.drop_last())
    } else {
        s
    }
}

/// `str::trim`: removes leading and trailing whitespace.
pub open spec fn trim(s: Seq<char>) -> Seq<char> {
    trim_end(trim_start(s))
}

/// Removes every leading and trailing occurrence of `c` (`str::trim_matches` with a character).
pub open spec fn strip_start(s: Seq<char>, c: char) -> Seq<char>
    decreases s.len(),
{
    if s.len() > 0 && s[0] == c {
        strip_start(s.drop_first(), c)
    } else {
        s
    }
}

pub open spec fn strip_end(s: Seq<char>, c: char) -> Seq<char>
    decreases s.len(),
{
    if s.len() > 0 && s.last() == c {
        strip_end(s.drop_last(), c)
    } else {
        s
    }
}

pub open spec fn trim_matches(s: Seq<char>, c: char) -> Seq<char> {
    strip_end(strip_start(s, c), c)
}

/// Removes every leading occurrence of `c`.
pub open spec fn trim_start_matches(s: Seq<char>, c: char) -> Seq<char> {
    strip_start(s, c)
}

/// Removes every trailing occurrence of `c`.
pub open spec fn trim_end_matches(s: Seq<char>, c: char) -> Seq<char> {
    strip_end(s, c)
}

/// Whitespace (`ws == true`) or a given character (`ws == false`) is stripped.
pub open spec fn strippable(ws: bool, c: char, x: char) -> bool {
    if ws {
        is_ws(x)
    } else {
        x == c
    }
}

pub open spec fn strip_front(s: Seq<char>, ws: bool, c: char) -> Seq<char>
    decreases s.len(),
{
    if s.len() > 0 && strippable(ws, c, s[0]) {
        strip_front(s.drop_first(), ws, c)
    } else {
        s
    }
}

pub open spec fn strip_back(s: Seq<char>, ws: bool, c: char) -> Seq<char>
    decreases s.len(),
{
    if s.len() > 0 && strippable(ws, c, s.last()) {
        strip_back(s.drop_last(), ws, c)
    } else {
        s
    }
}

proof fn lemma_strip_front_is(s: Seq<char>, ws: bool, c: char)
    ensures
        strip_front(s, ws, c) == if ws { trim_start(s) } else { strip_start(s, c) },
    decreases s.len(),
{
    if s.len() > 0 {
        lemma_strip_front_is(s.drop_first(), ws, c);
    }
}

proof fn lemma_strip_back_is(s: Seq<char>, ws: bool, c: char)
    ensures
        strip_back(s, ws, c) == if ws { trim_end(s) } else { strip_end(s, c) },
    decreases s.len(),
{
    if s.len() > 0 {
        lemma_strip_back_is(s.drop_last(), ws, c);
    }
}

fn strippable_exec(ws: bool, c: char, x: char) -> (r: bool)
    ensures
        r == strippable(ws, c, x),
{
    if ws {
        is_whitespace(x)
    } else {
        x == c
    }
}

/// Index of the first character that is not stripped from the front.
fn front_index(s: &[char], ws: bool, c: char) -> (r: usize)
    ensures
        r <= s@.len(),
        strip_front(s@, ws, c) == s@.subrange(r as int, s@.len() as int),
{
    let mut i: usize = 0;
    while i < s.len() && strippable_exec(ws, c, s[i])
        invariant
            i <= s@.len(),
            strip_front(s@, ws, c) == strip_front(s@.subrange(i as int, s@.len() as int), ws, c),
        decreases s@.len() - i,
    {
        assert(s@.subrange(i as int, s@.len() as int).drop_first() =~= s@.subrange(
            i + 1,
            s@.len() as int,
        ));
        i += 1;
    }
    assert(s@.subrange(0, s@.len() as int) =~= s@);
    i
}

/// Index just past the last character that is not stripped from the back.
fn back_index(s: &[char], ws: bool, c: char) -> (r: usize)
    ensures
        r <= s@.len(),
        strip_back(s@, ws, c) == s@.subrange(0, r as int),
{
    let mut j: usize = s.len();
    assert(s@.subrange(0, s@.len() as int) =~= s@);
    while j > 0 && strippable_exec(ws, c, s[j - 1])
        invariant
            j <= s@.len(),
            strip_back(s@, ws, c) == strip_back(s@.subrange(0, j as int), ws, c),
        decreases j,
    {
        assert(s@.subrange(0, j as int).drop_last() =~= s@.subrange(0, j - 1));
        j -= 1;
    }
    j
}

/// `str::trim`.
pub fn trim_chars(s: &[char]) -> (r: Vec<char>)
    ensures
        r@ == trim(s@),
{
    let a = front_index(s, true, ' ');
    let front = copy_range(s, a, s.len());
    let b = back_index(front.as_slice(), true, ' ');
    proof {
        lemma_strip_front_is(s@, true, ' ');
        lemma_strip_back_is(front@, true, ' ');
    }
    copy_range(front.as_slice(), 0, b)
}

/// `str::trim_matches` with a character pattern.
pub fn trim_matches_chars(s: &[char], c: char) -> (r: Vec<char>)
    ensures
        r@ == trim_matches(s@, c),
{
    let a = front_index(s, false, c);
    let front = copy_range(s, a, s.len());
    let b = back_index(front.as_slice(), false, c);
    proof {
        lemma_strip_front_is(s@, false, c);
        lemma_strip_back_is(front@, false, c);
    }
    copy_range(front.as_slice(), 0, b)
}

/// `str::trim_start_matches` with a character pattern.
pub fn trim_start_matches_chars(s: &[char], c: char) -> (r: Vec<char>)
    ensures
        r@ == trim_start_matches(s@, c),
{
    let a = front_index(s, false, c);
    proof {
        lemma_strip_front_is(s@, false, c);
    }
    copy_range(s, a, s.len())
}

/// `str::trim_end_matches` with a character pattern.
pub fn trim_end_matches_chars(s: &[char], c: char) -> (r: Vec<char>)
    ensures
        r@ == trim_end_matches(s@, c),
{
    let b = back_index(s, false, c);
    proof {
        lemma_strip_back_is(s@, false, c);
    }
    copy_range(s, 0, b)
}

// ---------------------------------------------------------------------------
// Searching
// ---------------------------------------------------------------------------

/// `pat` occurs in `s` at position `i`.
pub open spec fn occurs_at(s: Seq<char>, pat: Seq<char>, i: int) -> bool {
    0 <= i && i + pat.len() <= s.len() && s.subrange(i, i + pat.len()) == pat
}

/// `str::find`: the first position at which `pat` occurs.
#[verifier::opaque]
pub open spec fn find(s: Seq<char>, pat: Seq<char>) -> Option<int> {
    if exists|i: int| occurs_at(s, pat, i) {
        Some(choose|i: int| occurs_at(s, pat, i) && forall|j: int| 0 <= j < i ==> !occurs_at(s, pat, j))
    } else {
        None
    }
}

/// `pat` occurs at `i` exactly when each of its characters stands at its place from `i` on.
pub(crate) proof fn lemma_occurs_at_chars(s: Seq<char>, pat: Seq<char>, i: int)
    ensures
        occurs_at(s, pat, i) <==> (0 <= i && i + pat.len() <= s.len() && forall|k: int|
            0 <= k < pat.len() ==> #[trigger] s[i + k] == pat[k]),
{
    if 0 <= i && i + pat.len() <= s.len() {
        if forall|k: int| 0 <= k < pat.len() ==> #[trigger] s[i + k] == pat[k] {
            assert forall|m: int| 0 <= m < pat.len() implies s.subrange(i, i + pat.len())[m] == pat[m] by {
                assert(s[i + m] == pat[m]);
            }
            assert(s.subrange(i, i + pat.len()) =~= pat);
        }
        if s.subrange(i, i + pat.len()) == pat {
            assert forall|k: int| 0 <= k < pat.len() implies #[trigger] s[i + k] == pat[k] by {
                assert(s.subrange(i, i + pat.len())[k] == s[i + k]);
            }
        }
    }
}

/// The first place `pat` occurs is what `find` gives.
pub(crate) proof fn lemma_find_first(s: Seq<char>, pat: Seq<char>, i: int)
    requires
        occurs_at(s, pat, i),
        forall|j: int| 0 <= j < i ==> !occurs_at(s, pat, j),
    ensures
        find(s, pat) == Some(i),
{
    reveal(find);
    let w = choose|k: int| occurs_at(s, pat, k) && forall|j: int| 0 <= j < k ==> !occurs_at(s, pat, j);
    assert(occurs_at(s, pat, w) && forall|j: int| 0 <= j < w ==> !occurs_at(s, pat, j));
    if w < i {
        assert(!occurs_at(s, pat, w));
    } else if w > i {
        assert(!occurs_at(s, pat, i));
    }
}

/// Where `pat` occurs nowhere, `find` gives nothing.
pub(crate) proof fn lemma_find_absent(s: Seq<char>, pat: Seq<char>)
    requires
        forall|j: int| !occurs_at(s, pat, j),
    ensures
        find(s, pat) is None,
{
    reveal(find);
}

/// `s` begins with `pat`.
pub open spec fn starts_with(s: Seq<char>, pat: Seq<char>) -> bool {
    pat.len() <= s.len() && s.subrange(0, pat.len() as int) == pat
}

fn occurs_at_exec(s: &[char], pat: &[char], i: usize) -> (r: bool)
    requires
        i <= s@.len(),
    ensures
        r == occurs_at(s@, pat@, i as int),
{
    if pat.len() > s.len() - i {
        return false;
    }
    let mut k: usize = 0;
    while k < pat.len()
        invariant
            s@.len() == s.len(),
            i + pat@.len() <= s@.len(),
            k <= pat@.len(),
            forall|m: int| 0 <= m < k ==> s@[i + m] == pat@[m],
        decreases pat@.len() - k,
    {
        if s[i + k] != pat[k] {
            assert(s@.subrange(i as int, i + pat@.len())[k as int] != pat@[k as int]);
            return false;
        }
        k += 1;
    }
    assert(s@.subrange(i as int, i + pat@.len()) =~= pat@);
    true
}

pub fn starts_with_chars(s: &[char], pat: &[char]) -> (r: bool)
    ensures
        r == starts_with(s@, pat@),
{
    occurs_at_exec(s, pat, 0)
}

/// `str::find` from position `from` on: the first occurrence at or after `from`.
pub fn find_from(s: &[char], pat: &[char], from: usize) -> (r: Option<usize>)
    requires
        from <= s@.len(),
    ensures
        match r {
            Some(i) => from <= i && occurs_at(s@, pat@, i as int) && forall|j: int|
                from <= j < i ==> !occurs_at(s@, pat@, j),
            None => forall|j: int| from <= j ==> !occurs_at(s@, pat@, j),
        },
{
    let mut i = from;
    while i < s.len()
        invariant
            from <= i <= s@.len(),
            forall|j: int| from <= j < i ==> !occurs_at(s@, pat@, j),
        decreases s@.len() - i,
    {
        if occurs_at_exec(s, pat, i) {
            return Some(i);
        }
        i += 1;
    }
    if occurs_at_exec(s, pat, i) {
        return Some(i);
    }
    None
}

/// `str::find`.
pub fn find_chars(s: &[char], pat: &[char]) -> (r: Option<usize>)
    ensures
        r == match find(s@, pat@) {
            Some(i) => Some(i as usize),
            None => None::<usize>,
        },
        r matches Some(i) ==> i + pat@.len() <= s@.len() && find(s@, pat@) == Some(i as int),
        r is None ==> find(s@, pat@) is None,
{
    let r = find_from(s, pat, 0);
    proof {
        reveal(find);
    }
    match r {
        Some(i) => proof {
            assert(occurs_at(s@, pat@, i as int));
            let w = choose|k: int| occurs_at(s@, pat@, k) && forall|j: int| 0 <= j < k ==> !occurs_at(s@, pat@, j);
            assert(occurs_at(s@, pat@, w) && forall|j: int| 0 <= j < w ==> !occurs_at(s@, pat@, j));
            assert(w == i);
        },
        None => {},
    }
    r
}

// ---------------------------------------------------------------------------
// Numbers and booleans
// ---------------------------------------------------------------------------

pub open spec fn is_digit(c: char) -> bool {
    '0' <= c <= '9'
}

pub open spec fn all_digits(s: Seq<char>) -> bool {
    forall|i: int| 0 <= i < s.len() ==> is_digit(#[trigger] s[i])
}

/// Value of a sequence of decimal digits.
pub open spec fn digits_value(s: Seq<char>) -> int
    decreases s.len(),
{
    if s.len() == 0 {
        0
    } else {
        digits_value(s.drop_last()) * 10 + (s.last() as int - '0' as int)
    }
}

/// `str::parse::<i32>`: an optional `+` or `-` sign followed by one or more decimal digits,
/// whose value lies in the range of `i32`.
pub open spec fn parse_i32(s: Seq<char>) -> Option<i32> {
    let neg = s.len() > 0 && s[0] == '-';
    let body = if s.len() > 0 && (s[0] == '-' || s[0] == '+') {
        s.drop_first()
    } else {
        s
    };
    let v = if neg {
        -digits_value(body)
    } else {
        digits_value(body)
    };
    if body.len() == 0 || !all_digits(body) || v < i32::MIN || v > i32::MAX {
        None
    } else {
        Some(v as i32)
    }
}

/// `str::parse::<bool>`: exactly `true` or `false`.
pub open spec fn parse_bool(s: Seq<char>) -> Option<bool> {
    if s == seq!['t', 'r', 'u', 'e'] {
        Some(true)
    } else if s == seq!['f', 'a', 'l', 's', 'e'] {
        Some(false)
    } else {
        None
    }
}

pub(crate) proof fn lemma_digits_grow(s: Seq<char>, i: int)
    requires
        0 <= i <= s.len(),
        all_digits(s),
    ensures
        digits_value(s.take(i)) <= digits_value(s),
        0 <= digits_value(s.take(i)),
    decreases s.len() - i,
{
    if i < s.len() {
        lemma_digits_grow(s, i + 1);
        assert(s.take(i + 1).drop_last() =~= s.take(i));
        assert(is_digit(s[i]));
    } else {
        assert(s.take(i) =~= s);
    }
    lemma_digits_nonneg(s.take(i));
}

pub(crate) proof fn lemma_digits_step(s: Seq<char>, k: int)
    requires
        0 <= k < s.len(),
        all_digits(s.take(k)),
        is_digit(s[k]),
    ensures
        all_digits(s.take(k + 1)),
        digits_value(s.take(k + 1)) == digits_value(s.take(k)) * 10 + (s[k] as int - '0' as int),
{
    assert(s.take(k + 1).drop_last() =~= s.take(k));
    assert forall|m: int| 0 <= m < k + 1 implies is_digit(#[trigger] s.take(k + 1)[m]) by {
        if m < k {
            assert(s.take(k + 1)[m] == s.take(k)[m]);
        }
    }
}

pub(crate) proof fn lemma_digits_nonneg(s: Seq<char>)
    requires
        all_digits(s),
    ensures
        0 <= digits_value(s),
    decreases s.len(),
{
    if s.len() > 0 {
        assert(is_digit(s.last()));
        lemma_digits_nonneg(s.drop_last());
    }
}

/// Value of the decimal digits `s[start..]`, when they are all digits and the value is at most 2^31.
fn digits_upto_limit(s: &[char], start: usize) -> (r: Option<i64>)
    requires
        start <= s@.len(),
    ensures
        ({
            let body = s@.subrange(start as int, s@.len() as int);
            match r {
                Some(v) => all_digits(body) && v == digits_value(body) && 0 <= v <= 2147483648,
                None => !all_digits(body) || digits_value(body) > 2147483648,
            }
        }),
{
    let n = s.len();
    let ghost body = s@.subrange(start as int, n as int);
    let limit: i64 = 2147483648;
    let mut acc: i64 = 0;
    let mut i = start;
    while i < n
        invariant
            start <= i <= n,
            n == s@.len(),
            body == s@.subrange(start as int, n as int),
            all_digits(body.take(i - start)),
            acc == digits_value(body.take(i - start)),
            0 <= acc <= limit,
            limit == 2147483648,
        decreases n - i,
    {
        let c = s[i];
        let ghost k = i - start;
        assert(body[k] == c);
        if !('0' <= c && c <= '9') {
            assert(!is_digit(body[k]));
            assert(!all_digits(body));
            return None;
        }
        let d = (c as u32 - '0' as u32) as i64;
        proof {
            lemma_digits_step(body, k);
        }
        acc = acc * 10 + d;
        i += 1;
        if acc > limit {
            proof {
                if all_digits(body) {
                    lemma_digits_grow(body, i - start);
                }
            }
            return None;
        }
    }
    assert(body.take(i - start) =~= body);
    Some(acc)
}

pub fn parse_i32_chars(s: &[char]) -> (r: Option<i32>)
    ensures
        r == parse_i32(s@),
{
    let n = s.len();
    let neg = n > 0 && s[0] == '-';
    let start: usize = if n > 0 && (s[0] == '-' || s[0] == '+') { 1 } else { 0 };
    let ghost body = if s@.len() > 0 && (s@[0] == '-' || s@[0] == '+') {
        s@.drop_first()
    } else {
        s@
    };
    assert(body =~= s@.subrange(start as int, n as int));
    if start == n {
        return None;
    }
    match digits_upto_limit(s, start) {
        None => None,
        Some(acc) => {
            if neg {
                Some((-acc) as i32)
            } else if acc == 2147483648 {
                None
            } else {
                Some(acc as i32)
            }
        },
    }
}

/// `str::parse::<usize>`: an optional `+` sign followed by one or more decimal digits, whose
/// value fits in `usize`.
pub open spec fn parse_usize(s: Seq<char>) -> Option<usize> {
    let body = if s.len() > 0 && s[0] == '+' {
        s.drop_first()
    } else {
        s
    };
    if body.len() == 0 || !all_digits(body) || digits_value(body) > usize::MAX {
        None
    } else {
        Some(digits_value(body) as usize)
    }
}

/// Value of the decimal digits `s[start..]`, when they are all digits and the value fits in
/// `usize`.
fn digits_upto_usize(s: &[char], start: usize) -> (r: Option<usize>)
    requires
        start <= s@.len(),
    ensures
        ({
            let body = s@.subrange(start as int, s@.len() as int);
            match r {
                Some(v) => all_digits(body) && v == digits_value(body),
                None => !all_digits(body) || digits_value(body) > usize::MAX,
            }
        }),
{
    let n = s.len();
    let ghost body = s@.subrange(start as int, n as int);
    let limit: u128 = usize::MAX as u128;
    let mut acc: u128 = 0;
    let mut i = start;
    while i < n
        invariant
            start <= i <= n,
            n == s@.len(),
            body == s@.subrange(start as int, n as int),
            all_digits(body.take(i - start)),
            acc == digits_value(body.take(i - start)),
            0 <= acc <= limit,
            limit == usize::MAX,
        decreases n - i,
    {
        let c = s[i];
        let ghost k = i - start;
        assert(body[k] == c);
        if !('0' <= c && c <= '9') {
            assert(!is_digit(body[k]));
            assert(!all_digits(body));
            return None;
        }
        let d = (c as u32 - '0' as u32) as u128;
        proof {
            lemma_digits_step(body, k);
        }
        acc = acc * 10 + d;
        i += 1;
        if acc > limit {
            proof {
                if all_digits(body) {
                    lemma_digits_grow(body, i - start);
                }
            }
            return None;
        }
    }
    assert(body.take(i - start) =~= body);
    Some(acc as usize)
}

pub fn parse_usize_chars(s: &[char]) -> (r: Option<usize>)
    ensures
        r == parse_usize(s@),
{
    let n = s.len();
    let start: usize = if n > 0 && s[0] == '+' { 1 } else { 0 };
    let ghost body = if s@.len() > 0 && s@[0] == '+' {
        s@.drop_first()
    } else {
        s@
    };
    assert(body =~= s@.subrange(start as int, n as int));
    if start == n {
        return None;
    }
    digits_upto_usize(s, start)
}

pub fn parse_bool_chars(s: &[char]) -> (r: Option<bool>)
    ensures
        r == parse_bool(s@),
{
    let t = ['t', 'r', 'u', 'e'];
    let f = ['f', 'a', 'l', 's', 'e'];
    assert(t@ =~= seq!['t', 'r', 'u', 'e']);
    assert(f@ =~= seq!['f', 'a', 'l', 's', 'e']);
    if chars_eq(s, t.as_slice()) {
        Some(true)
    } else if chars_eq(s, f.as_slice()) {
        Some(false)
    } else {
        None
    }
}

// ---------------------------------------------------------------------------
// Splitting
// ---------------------------------------------------------------------------

/// Position of the first `c` in `s`, or `s.len()` when there is none.
pub open spec fn first_of(s: Seq<char>, c: char) -> nat
    decreases s.len(),
{
    if s.len() == 0 {
        0
    } else if s[0] == c {
        0
    } else {
        1 + first_of(s.drop_first(), c)
    }
}

/// `str::split` with a character separator: the pieces between separators, in order.
pub open spec fn split(s: Seq<char>, c: char) -> Seq<Seq<char>>
    decreases s.len(),
{
    let k = first_of(s, c);
    if k >= s.len() {
        seq![s]
    } else {
        seq![s.take(k as int)] + split(s.skip(k + 1int), c)
    }
}

proof fn lemma_first_of(s: Seq<char>, c: char)
    ensures
        first_of(s, c) <= s.len(),
        first_of(s, c) < s.len() ==> s[first_of(s, c) as int] == c,
        forall|j: int| 0 <= j < first_of(s, c) ==> s[j] != c,
    decreases s.len(),
{
    if s.len() > 0 && s[0] != c {
        lemma_first_of(s.drop_first(), c);
        assert forall|j: int| 0 <= j < first_of(s, c) implies s[j] != c by {
            if j > 0 {
                assert(s[j] == s.drop_first()[j - 1]);
            }
        }
    }
}

/// Position of the first `c` in `s[from..]`, as an index into `s`.
fn first_of_from(s: &[char], c: char, from: usize) -> (r: usize)
    requires
        from <= s@.len(),
    ensures
        r == from + first_of(s@.skip(from as int), c),
{
    let mut i = from;
    proof {
        lemma_first_of(s@.skip(from as int), c);
    }
    while i < s.len() && s[i] != c
        invariant
            from <= i <= s@.len(),
            forall|j: int| from <= j < i ==> s@[j] != c,
        decreases s@.len() - i,
    {
        i += 1;
    }
    proof {
        let t = s@.skip(from as int);
        lemma_first_of(t, c);
        let k = first_of(t, c);
        if (from + k) < i {
            assert(t[k as int] == s@[from + k]);
        }
        if i < from + k {
            assert(t[i - from] == s@[i as int]);
        }
    }
    i
}

/// `str::split` with a character separator.
#[verifier::rlimit(40)]
pub fn split_chars(s: &[char], c: char) -> (r: Vec<Vec<char>>)
    ensures
        r@.len() == split(s@, c).len(),
        forall|i: int| 0 <= i < r@.len() ==> #[trigger] r@[i]@ == split(s@, c)[i],
{
    let mut pieces: Vec<Vec<char>> = Vec::new();
    let mut start: usize = 0;
    let ghost mut done: Seq<Seq<char>> = Seq::empty();
    loop
        invariant
            start <= s@.len(),
            pieces@.len() == done.len(),
            forall|i: int| 0 <= i < done.len() ==> #[trigger] pieces@[i]@ == done[i],
            split(s@, c) == done + split(s@.skip(start as int), c),
        decreases s@.len() - start,
    {
        let k = first_of_from(s, c, start);
        let ghost t = s@.skip(start as int);
        if k >= s.len() {
            let piece = copy_range(s, start, s.len());
            assert(piece@ =~= t);
            pieces.push(piece);
            proof {
                done = done.push(t);
                assert(split(s@, c) =~= done);
            }
            assert(forall|i: int| 0 <= i < done.len() ==> #[trigger] pieces@[i]@ == done[i]);
            return pieces;
        }
        let piece = copy_range(s, start, k);
        assert(piece@ =~= t.take((k - start) as int));
        assert(t.skip((k - start) + 1) =~= s@.skip(k + 1));
        pieces.push(piece);
        proof {
            done = done.push(piece@);
            assert(split(s@, c) =~= done + split(s@.skip(k + 1), c));
        }
        start = k + 1;
    }
}

/// The last piece of `str::split` (what `split(c).next_back()` yields).
pub open spec fn last_piece(s: Seq<char>, c: char) -> Seq<char> {
    split(s, c).last()
}

pub(crate) proof fn lemma_split_nonempty(s: Seq<char>, c: char)
    ensures
        split(s, c).len() >= 1,
    decreases s.len(),
{
    let k = first_of(s, c);
    lemma_first_of(s, c);
    if k < s.len() {
        lemma_split_nonempty(s.skip(k + 1int), c);
    }
}

pub fn last_piece_chars(s: &[char], c: char) -> (r: Vec<char>)
    ensures
        r@ == last_piece(s@, c),
{
    let pieces = split_chars(s, c);
    proof {
        lemma_split_nonempty(s@, c);
    }
    let last = &pieces[pieces.len() - 1];
    copy_range(last.as_slice(), 0, last.len())
}

/// Position of the first whitespace character, or `s.len()`.
pub open spec fn first_ws(s: Seq<char>) -> nat
    decreases s.len(),
{
    if s.len() == 0 {
        0
    } else if is_ws(s[0]) {
        0
    } else {
        1 + first_ws(s.drop_first())
    }
}

pub proof fn lemma_first_ws(s: Seq<char>)
    ensures
        first_ws(s) <= s.len(),
        first_ws(s) < s.len() ==> is_ws(s[first_ws(s) as int]),
        forall|j: int| 0 <= j < first_ws(s) ==> !is_ws(s[j]),
    decreases s.len(),
{
    if s.len() > 0 && !is_ws(s[0]) {
        lemma_first_ws(s.drop_first());
        assert forall|j: int| 0 <= j < first_ws(s) implies !is_ws(s[j]) by {
            if j > 0 {
                assert(s[j] == s.drop_first()[j - 1]);
            }
        }
    }
}

/// `str::split_whitespace`: the maximal runs of non-whitespace characters, in order.
pub open spec fn words(s: Seq<char>) -> Seq<Seq<char>>
    decreases s.len(),
{
    let t = trim_start(s);
    if t.len() == 0 {
        Seq::empty()
    } else {
        let k = first_ws(t);
        proof {
            lemma_trim_start_len(s);
            lemma_first_ws(t);
        }
        seq![t.take(k as int)] + words(t.skip(k as int))
    }
}

pub proof fn lemma_trim_start_len(s: Seq<char>)
    ensures
        trim_start(s).len() <= s.len(),
        trim_start(s).len() > 0 ==> !is_ws(trim_start(s)[0]),
    decreases s.len(),
{
    if s.len() > 0 && is_ws(s[0]) {
        lemma_trim_start_len(s.drop_first());
    }
}

/// Bounds of the first word of `s[pos..]`: `a` is where leading whitespace ends and `e` is
/// where the word ends.
fn word_bounds(s: &[char], pos: usize) -> (r: (usize, usize))
    requires
        pos <= s@.len(),
    ensures
        pos <= r.0 <= r.1 <= s@.len(),
        trim_start(s@.skip(pos as int)) == s@.skip(r.0 as int),
        r.0 < s@.len() ==> r.1 == r.0 + first_ws(s@.skip(r.0 as int)) && r.0 < r.1,
{
    let mut a = pos;
    while a < s.len() && is_whitespace(s[a])
        invariant
            pos <= a <= s@.len(),
            trim_start(s@.skip(pos as int)) == trim_start(s@.skip(a as int)),
        decreases s@.len() - a,
    {
        assert(s@.skip(a as int).drop_first() =~= s@.skip(a + 1));
        a += 1;
    }
    let mut e = a;
    while e < s.len() && !is_whitespace(s[e])
        invariant
            a <= e <= s@.len(),
            forall|j: int| a <= j < e ==> !is_ws(s@[j]),
        decreases s@.len() - e,
    {
        e += 1;
    }
    proof {
        let t = s@.skip(a as int);
        lemma_first_ws(t);
        let k = first_ws(t);
        if (a + k) < e {
            assert(t[k as int] == s@[a + k]);
        }
        if e < a + k {
            assert(t[e - a] == s@[e as int]);
        }
    }
    (a, e)
}

pub fn words_chars(s: &[char]) -> (r: Vec<Vec<char>>)
    ensures
        r@.len() == words(s@).len(),
        forall|i: int| 0 <= i < r@.len() ==> #[trigger] r@[i]@ == words(s@)[i],
{
    let mut out: Vec<Vec<char>> = Vec::new();
    let ghost mut done: Seq<Seq<char>> = Seq::empty();
    let mut pos: usize = 0;
    assert(s@.skip(0) =~= s@);
    loop
        invariant
            pos <= s@.len(),
            out@.len() == done.len(),
            forall|i: int| 0 <= i < done.len() ==> #[trigger] out@[i]@ == done[i],
            words(s@) == done + words(s@.skip(pos as int)),
        decreases s@.len() - pos,
    {
        let (a, e) = word_bounds(s, pos);
        let ghost t = s@.skip(a as int);
        if a >= s.len() {
            assert(words(s@.skip(pos as int)) =~= Seq::<Seq<char>>::empty());
            assert(words(s@) =~= done);
            return out;
        }
        let word = copy_range(s, a, e);
        proof {
            assert(word@ =~= t.take((e - a) as int));
            assert(t.skip((e - a) as int) =~= s@.skip(e as int));
            done = done.push(word@);
            assert(words(s@) =~= done + words(s@.skip(e as int)));
        }
        out.push(word);
        pos = e;
    }
}

/// The first position at or after `from` where `pat` occurs.
#[verifier::opaque]
pub open spec fn find_after(s: Seq<char>, pat: Seq<char>, from: int) -> Option<int> {
    if exists|i: int| from <= i && occurs_at(s, pat, i) {
        Some(choose|i: int| from <= i && occurs_at(s, pat, i) && forall|j: int| from <= j < i ==> !occurs_at(s, pat, j))
    } else {
        None
    }
}

/// `str::find` on `s[from..]`, as an index into `s`.
pub fn find_after_chars(s: &[char], pat: &[char], from: usize) -> (r: Option<usize>)
    requires
        from <= s@.len(),
    ensures
        r == match find_after(s@, pat@, from as int) {
            Some(i) => Some(i as usize),
            None => None::<usize>,
        },
        r matches Some(i) ==> from <= i && i + pat@.len() <= s@.len() && find_after(s@, pat@, from as int) == Some(i as int),
        r is None ==> find_after(s@, pat@, from as int) is None,
{
    let r = find_from(s, pat, from);
    proof {
        reveal(find_after);
    }
    match r {
        Some(i) => proof {
            let w = choose|k: int| from <= k && occurs_at(s@, pat@, k) && forall|j: int| from <= j < k ==> !occurs_at(s@, pat@, j);
            assert(from <= w && occurs_at(s@, pat@, w) && forall|j: int| from <= j < w ==> !occurs_at(s@, pat@, j));
            assert(w == i);
        },
        None => {},
    }
    r
}

} // verus!
