//! String utilities shared by the engine: lexicographic ordering on
//! character sequences, equality and prefix tests, decimal rendering of
//! line numbers, joining, trimming and line splitting.

use vstd::prelude::*;

verus! {

/// Strict lexicographic order on character sequences, comparing characters
/// by their scalar values.
pub open spec fn lex_lt(a: Seq<char>, b: Seq<char>) -> bool
    decreases a.len(),
{
    if b.len() == 0 {
        false
    } else if a.len() == 0 {
        true
    } else if a[0] != b[0] {
        (a[0] as int) < (b[0] as int)
    } else {
        lex_lt(a.drop_first(), b.drop_first())
    }
}

/// Reflexive closure of `lex_lt`.
pub open spec fn lex_leq(a: Seq<char>, b: Seq<char>) -> bool {
    lex_lt(a, b) || a == b
}

/// Compares two strings lexicographically by characters.
pub fn str_lt(a: &str, b: &str) -> (r: bool)
    ensures
        r == lex_lt(a@, b@),
{
    let a_len = a.unicode_len();
    let b_len = b.unicode_len();
    let mut i: usize = 0;
    proof {
        assert(a@.skip(0) =~= a@);
        assert(b@.skip(0) =~= b@);
    }
    loop
        invariant
            i <= a_len,
            i <= b_len,
            a_len == a@.len(),
            b_len == b@.len(),
            a@.subrange(0, i as int) == b@.subrange(0, i as int),
            lex_lt(a@, b@) == lex_lt(a@.skip(i as int), b@.skip(i as int)),
        decreases a_len - i,
    {
        if i == b_len {
            return false;
        }
        if i == a_len {
            return true;
        }
        let ca = a.get_char(i);
        let cb = b.get_char(i);
        if ca != cb {
            return ca < cb;
        }
        proof {
            assert(a@.skip(i as int).drop_first() =~= a@.skip(i + 1));
            assert(b@.skip(i as int).drop_first() =~= b@.skip(i + 1));
            assert(a@.subrange(0, i + 1) =~= a@.subrange(0, i as int).push(ca));
            assert(b@.subrange(0, i + 1) =~= b@.subrange(0, i as int).push(cb));
        }
        i = i + 1;
    }
}

/// Tests two strings for equality of their character sequences.
pub fn str_eq(a: &str, b: &str) -> (r: bool)
    ensures
        r == (a@ == b@),
{
    let a_len = a.unicode_len();
    let b_len = b.unicode_len();
    if a_len != b_len {
        return false;
    }
    let mut i: usize = 0;
    while i < a_len
        invariant
            i <= a_len,
            a_len == a@.len(),
            a_len == b@.len(),
            forall|j: int| 0 <= j < i ==> a@[j] == b@[j],
        decreases a_len - i,
    {
        if a.get_char(i) != b.get_char(i) {
            return false;
        }
        i = i + 1;
    }
    proof {
        assert(a@ =~= b@);
    }
    true
}

/// The ordering used wherever the engine sorts character sequences.
pub open spec fn seq_leq() -> spec_fn(Seq<char>, Seq<char>) -> bool {
    |a: Seq<char>, b: Seq<char>| lex_leq(a, b)
}

pub proof fn lemma_lex_lt_connected(a: Seq<char>, b: Seq<char>)
    ensures
        lex_lt(a, b) || lex_lt(b, a) || a == b,
    decreases a.len(),
{
    if b.len() == 0 {
        if a.len() == 0 {
            assert(a =~= b);
        }
    } else if a.len() == 0 {
    } else if a[0] == b[0] {
        lemma_lex_lt_connected(a.drop_first(), b.drop_first());
        if a.drop_first() == b.drop_first() {
            assert(a.drop_first().len() == b.drop_first().len());
            assert(a.len() == b.len());
            assert forall|i: int| 0 <= i < a.len() implies a[i] == b[i] by {
                if i > 0 {
                    assert(a[i] == a.drop_first()[i - 1]);
                    assert(b[i] == b.drop_first()[i - 1]);
                }
            }
            assert(a =~= b);
        }
    }
}

pub proof fn lemma_lex_lt_asymmetric(a: Seq<char>, b: Seq<char>)
    ensures
        !(lex_lt(a, b) && lex_lt(b, a)),
    decreases a.len(),
{
    if a.len() > 0 && b.len() > 0 && a[0] == b[0] {
        lemma_lex_lt_asymmetric(a.drop_first(), b.drop_first());
    }
}

pub proof fn lemma_lex_lt_transitive(a: Seq<char>, b: Seq<char>, c: Seq<char>)
    requires
        lex_lt(a, b),
        lex_lt(b, c),
    ensures
        lex_lt(a, c),
    decreases a.len(),
{
    if a.len() > 0 && b.len() > 0 && c.len() > 0 && a[0] == b[0] && b[0] == c[0] {
        lemma_lex_lt_transitive(a.drop_first(), b.drop_first(), c.drop_first());
    }
}

/// `lex_leq` orders character sequences totally.
pub proof fn lemma_lex_total_ordering()
    ensures
        vstd::relations::total_ordering(seq_leq()),
{
    let leq = seq_leq();
    assert forall|a: Seq<char>, b: Seq<char>| #[trigger] leq(a, b) || #[trigger] leq(b, a) by {
        lemma_lex_lt_connected(a, b);
    }
    assert forall|a: Seq<char>, b: Seq<char>| #[trigger] leq(a, b) && #[trigger] leq(b, a)
        implies a == b by {
        lemma_lex_lt_asymmetric(a, b);
    }
    assert forall|a: Seq<char>, b: Seq<char>, c: Seq<char>|
        #[trigger] leq(a, b) && #[trigger] leq(b, c) implies leq(a, c) by {
        if a != b && b != c {
            lemma_lex_lt_transitive(a, b, c);
        }
    }
}

/// Whether `p` is a character-wise prefix of `s`.
pub open spec fn is_text_prefix(p: Seq<char>, s: Seq<char>) -> bool {
    p.len() <= s.len() && s.subrange(0, p.len() as int) == p
}

/// Tests whether `s` begins with `p`.
pub fn str_starts_with(s: &str, p: &str) -> (r: bool)
    ensures
        r == is_text_prefix(p@, s@),
{
    let s_len = s.unicode_len();
    let p_len = p.unicode_len();
    if p_len > s_len {
        return false;
    }
    let mut i: usize = 0;
    while i < p_len
        invariant
            i <= p_len,
            p_len == p@.len(),
            s_len == s@.len(),
            p_len <= s_len,
            forall|j: int| 0 <= j < i ==> s@[j] == p@[j],
        decreases p_len - i,
    {
        if s.get_char(i) != p.get_char(i) {
            proof {
                assert(s@.subrange(0, p@.len() as int)[i as int] != p@[i as int]);
            }
            return false;
        }
        i = i + 1;
    }
    proof {
        assert(s@.subrange(0, p@.len() as int) =~= p@);
    }
    true
}

/// The characters of `s` before the first occurrence of `c`, or all of `s`
/// if `c` does not occur.
pub open spec fn first_index_of(s: Seq<char>, c: char) -> int
    decreases s.len(),
{
    if s.len() == 0 {
        0
    } else if s[0] == c {
        0
    } else {
        1 + first_index_of(s.drop_first(), c)
    }
}

pub proof fn lemma_first_index_of(s: Seq<char>, c: char)
    ensures
        0 <= first_index_of(s, c) <= s.len(),
        forall|j: int| 0 <= j < first_index_of(s, c) ==> s[j] != c,
        first_index_of(s, c) < s.len() ==> s[first_index_of(s, c)] == c,
    decreases s.len(),
{
    if s.len() > 0 && s[0] != c {
        lemma_first_index_of(s.drop_first(), c);
        assert forall|j: int| 0 <= j < first_index_of(s, c) implies s[j] != c by {
            if j > 0 {
                assert(s[j] == s.drop_first()[j - 1]);
            }
        }
        if first_index_of(s, c) < s.len() {
            assert(s[first_index_of(s, c)] == s.drop_first()[first_index_of(s.drop_first(), c)]);
        }
    }
}

/// Finds the first occurrence of `c` in `s`; returns the length of `s` when
/// `c` does not occur.
pub fn find_char(s: &str, c: char) -> (r: usize)
    ensures
        r == first_index_of(s@, c),
{
    proof {
        lemma_first_index_of(s@, c);
    }
    let s_len = s.unicode_len();
    let mut i: usize = 0;
    while i < s_len
        invariant
            i <= s_len,
            s_len == s@.len(),
            forall|j: int| 0 <= j < i ==> s@[j] != c,
            0 <= first_index_of(s@, c) <= s@.len(),
            forall|j: int| 0 <= j < first_index_of(s@, c) ==> s@[j] != c,
            first_index_of(s@, c) < s@.len() ==> s@[first_index_of(s@, c)] == c,
        decreases s_len - i,
    {
        if s.get_char(i) == c {
            proof {
                if first_index_of(s@, c) < i {
                    assert(s@[first_index_of(s@, c)] != c);
                }
            }
            return i;
        }
        i = i + 1;
    }
    proof {
        if first_index_of(s@, c) < s@.len() {
            assert(s@[first_index_of(s@, c)] != c);
        }
    }
    s_len
}

/// The characters of `s` after its last occurrence of `c`, or all of `s`
/// when `c` does not occur.
pub open spec fn after_last(s: Seq<char>, c: char) -> Seq<char>
    decreases s.len(),
{
    if s.len() == 0 {
        s
    } else if s.last() == c {
        Seq::empty()
    } else {
        after_last(s.drop_last(), c).push(s.last())
    }
}

pub proof fn lemma_after_last(s: Seq<char>, c: char, k: int)
    requires
        0 <= k <= s.len(),
        forall|j: int| k <= j < s.len() ==> s[j] != c,
        k > 0 ==> s[k - 1] == c,
    ensures
        after_last(s, c) == s.subrange(k, s.len() as int),
    decreases s.len(),
{
    if s.len() == 0 {
        assert(after_last(s, c) =~= s.subrange(k, s.len() as int));
    } else if s.last() == c {
        assert(k == s.len());
        assert(after_last(s, c) =~= s.subrange(k, s.len() as int));
    } else {
        assert(k < s.len());
        lemma_after_last(s.drop_last(), c, k);
        assert(after_last(s.drop_last(), c) == s.drop_last().subrange(k, s.len() - 1));
        assert(after_last(s, c) =~= s.subrange(k, s.len() as int)) by {
            assert(s.drop_last().subrange(k, s.len() - 1) =~= s.subrange(k, s.len() - 1));
            assert(s.subrange(k, s.len() - 1).push(s.last()) =~= s.subrange(k, s.len() as int));
        }
    }
}

/// Finds the position just after the last occurrence of `c` in `s`, or 0
/// when `c` does not occur.
fn position_after_last(s: &str, c: char) -> (k: usize)
    ensures
        0 <= k <= s@.len(),
        forall|j: int| k <= j < s@.len() ==> s@[j] != c,
        k > 0 ==> s@[k - 1] == c,
{
    let s_len = s.unicode_len();
    let mut k: usize = s_len;
    while k > 0
        invariant
            0 <= k <= s_len,
            s_len == s@.len(),
            forall|j: int| k <= j < s@.len() ==> s@[j] != c,
        decreases k,
    {
        if s.get_char(k - 1) == c {
            return k;
        }
        k = k - 1;
    }
    k
}

/// Returns the text of `s` after its last occurrence of `c`.
pub fn text_after_last(s: &str, c: char) -> (r: String)
    ensures
        r@ == after_last(s@, c),
{
    let s_len = s.unicode_len();
    let k = position_after_last(s, c);
    proof {
        lemma_after_last(s@, c, k as int);
    }
    let tail = s.substring_char(k, s_len);
    String::from_str(tail)
}

/// Whether `sub` occurs contiguously anywhere in `s`.
pub open spec fn contains_text(s: Seq<char>, sub: Seq<char>) -> bool {
    exists|i: int|
        0 <= i && i + sub.len() <= s.len() && #[trigger] s.subrange(i, i + sub.len() as int)
            == sub
}

/// Tests whether `sub` occurs contiguously in `s`.
pub fn str_contains(s: &str, sub: &str) -> (r: bool)
    ensures
        r == contains_text(s@, sub@),
{
    let s_len = s.unicode_len();
    let sub_len = sub.unicode_len();
    if sub_len > s_len {
        return false;
    }
    if sub_len == 0 {
        proof {
            assert(s@.subrange(0, 0 + sub@.len() as int) =~= sub@);
        }
        return true;
    }
    let mut i: usize = 0;
    while i <= s_len - sub_len
        invariant
            s_len == s@.len(),
            sub_len == sub@.len(),
            1 <= sub_len <= s_len,
            i <= s_len,
            forall|k: int|
                0 <= k < i ==> #[trigger] s@.subrange(k, k + sub@.len() as int) != sub@,
        decreases s_len - i,
    {
        let piece = s.substring_char(i, i + sub_len);
        if str_eq(piece, sub) {
            return true;
        }
        i = i + 1;
    }
    proof {
        assert forall|k: int| 0 <= k && k + sub@.len() <= s@.len()
            implies #[trigger] s@.subrange(k, k + sub@.len() as int) != sub@ by {
            assert(k < i);
        }
    }
    false
}

/// The character for one decimal digit.
pub open spec fn dec_char(d: int) -> char {
    if d == 0 {
        '0'
    } else if d == 1 {
        '1'
    } else if d == 2 {
        '2'
    } else if d == 3 {
        '3'
    } else if d == 4 {
        '4'
    } else if d == 5 {
        '5'
    } else if d == 6 {
        '6'
    } else if d == 7 {
        '7'
    } else if d == 8 {
        '8'
    } else {
        '9'
    }
}

/// The decimal rendering of a non-negative integer, most significant digit
/// first.
pub open spec fn dec_digits(n: int) -> Seq<char>
    decreases n,
{
    if n < 10 {
        seq![dec_char(n)]
    } else {
        dec_digits(n / 10).push(dec_char(n % 10))
    }
}

/// One decimal digit as a string slice.
fn digit_str(d: u64) -> (r: &'static str)
    requires
        d < 10,
    ensures
        r@ == seq![dec_char(d as int)],
{
    proof {
        reveal_strlit("0");
        reveal_strlit("1");
        reveal_strlit("2");
        reveal_strlit("3");
        reveal_strlit("4");
        reveal_strlit("5");
        reveal_strlit("6");
        reveal_strlit("7");
        reveal_strlit("8");
        reveal_strlit("9");
    }
    let r = match d {
        0 => "0",
        1 => "1",
        2 => "2",
        3 => "3",
        4 => "4",
        5 => "5",
        6 => "6",
        7 => "7",
        8 => "8",
        _ => "9",
    };
    proof {
        assert(r@ =~= seq![dec_char(d as int)]);
    }
    r
}

/// Renders a number in decimal.
pub fn u64_to_string(n: u64) -> (r: String)
    ensures
        r@ == dec_digits(n as int),
    decreases n,
{
    if n < 10 {
        String::from_str(digit_str(n))
    } else {
        let mut r = u64_to_string(n / 10);
        r.append(digit_str(n % 10));
        proof {
            assert(r@ =~= dec_digits(n as int));
        }
        r
    }
}

/// The whitespace characters the engine trims: the Unicode White_Space
/// set, as the standard library's trimming uses it.
pub open spec fn is_ws_char(c: char) -> bool {
    ||| c == ' '
    ||| c == '\t'
    ||| c == '\n'
    ||| c == '\u{0B}'
    ||| c == '\u{0C}'
    ||| c == '\r'
    ||| c == '\u{85}'
    ||| c == '\u{A0}'
    ||| c == '\u{1680}'
    ||| ('\u{2000}' <= c && c <= '\u{200A}')
    ||| c == '\u{2028}'
    ||| c == '\u{2029}'
    ||| c == '\u{202F}'
    ||| c == '\u{205F}'
    ||| c == '\u{3000}'
}

/// Tests whether a character is whitespace.
pub fn is_ws(c: char) -> (r: bool)
    ensures
        r == is_ws_char(c),
{
    c == ' ' || c == '\t' || c == '\n' || c == '\u{0B}' || c == '\u{0C}' || c == '\r' || c
        == '\u{85}' || c == '\u{A0}' || c == '\u{1680}' || ('\u{2000}' <= c && c <= '\u{200A}')
        || c == '\u{2028}' || c == '\u{2029}' || c == '\u{202F}' || c == '\u{205F}' || c
        == '\u{3000}'
}

/// `s` with trailing whitespace removed.
pub open spec fn trim_end_text(s: Seq<char>) -> Seq<char>
    decreases s.len(),
{
    if s.len() == 0 {
        s
    } else if is_ws_char(s.last()) {
        trim_end_text(s.drop_last())
    } else {
        s
    }
}

/// `s` with leading whitespace removed.
pub open spec fn trim_start_text(s: Seq<char>) -> Seq<char>
    decreases s.len(),
{
    if s.len() == 0 {
        s
    } else if is_ws_char(s[0]) {
        trim_start_text(s.drop_first())
    } else {
        s
    }
}

/// `s` with whitespace removed on both ends.
pub open spec fn trim_text(s: Seq<char>) -> Seq<char> {
    trim_start_text(trim_end_text(s))
}

/// Whether `s` consists of whitespace alone.
pub open spec fn is_blank_text(s: Seq<char>) -> bool {
    forall|i: int| 0 <= i < s.len() ==> is_ws_char(s[i])
}

pub proof fn lemma_trim_end_at(s: Seq<char>, k: int)
    requires
        0 <= k <= s.len(),
        forall|j: int| k <= j < s.len() ==> is_ws_char(s[j]),
        k > 0 ==> !is_ws_char(s[k - 1]),
    ensures
        trim_end_text(s) == s.subrange(0, k),
    decreases s.len(),
{
    if s.len() == 0 {
        assert(trim_end_text(s) =~= s.subrange(0, k));
    } else if is_ws_char(s.last()) {
        assert(k < s.len());
        lemma_trim_end_at(s.drop_last(), k);
        assert(s.drop_last().subrange(0, k) =~= s.subrange(0, k));
    } else {
        assert(k == s.len());
        assert(trim_end_text(s) =~= s.subrange(0, k));
    }
}

pub proof fn lemma_trim_start_at(s: Seq<char>, k: int)
    requires
        0 <= k <= s.len(),
        forall|j: int| 0 <= j < k ==> is_ws_char(s[j]),
        k < s.len() ==> !is_ws_char(s[k]),
    ensures
        trim_start_text(s) == s.subrange(k, s.len() as int),
    decreases s.len(),
{
    if s.len() == 0 {
        assert(trim_start_text(s) =~= s.subrange(k, s.len() as int));
    } else if is_ws_char(s[0]) {
        assert(k > 0);
        lemma_trim_start_at(s.drop_first(), k - 1);
        assert(s.drop_first().subrange(k - 1, s.drop_first().len() as int) =~= s.subrange(
            k,
            s.len() as int,
        ));
    } else {
        assert(k == 0);
        assert(trim_start_text(s) =~= s.subrange(k, s.len() as int));
    }
}

/// Finds the position just after the last non-whitespace character.
fn position_after_text(s: &str) -> (k: usize)
    ensures
        0 <= k <= s@.len(),
        forall|j: int| k <= j < s@.len() ==> is_ws_char(s@[j]),
        k > 0 ==> !is_ws_char(s@[k - 1]),
{
    let s_len = s.unicode_len();
    let mut k: usize = s_len;
    while k > 0
        invariant
            0 <= k <= s_len,
            s_len == s@.len(),
            forall|j: int| k <= j < s@.len() ==> is_ws_char(s@[j]),
        decreases k,
    {
        if !is_ws(s.get_char(k - 1)) {
            return k;
        }
        k = k - 1;
    }
    k
}

/// Finds the first non-whitespace position in `s` before `e`, or `e` when
/// all of that prefix is whitespace.
fn position_of_text(s: &str, e: usize) -> (b: usize)
    requires
        e <= s@.len(),
    ensures
        0 <= b <= e,
        forall|j: int| 0 <= j < b ==> is_ws_char(s@[j]),
        b < e ==> !is_ws_char(s@[b as int]),
{
    let mut b: usize = 0;
    while b < e
        invariant
            0 <= b <= e <= s@.len(),
            forall|j: int| 0 <= j < b ==> is_ws_char(s@[j]),
        decreases e - b,
    {
        if !is_ws(s.get_char(b)) {
            return b;
        }
        b = b + 1;
    }
    b
}

/// Removes trailing whitespace.
pub fn trim_end(s: &str) -> (r: String)
    ensures
        r@ == trim_end_text(s@),
{
    let k = position_after_text(s);
    proof {
        lemma_trim_end_at(s@, k as int);
    }
    String::from_str(s.substring_char(0, k))
}

/// Removes whitespace from both ends.
pub fn trim(s: &str) -> (r: String)
    ensures
        r@ == trim_text(s@),
{
    let e = position_after_text(s);
    proof {
        lemma_trim_end_at(s@, e as int);
    }
    let b = position_of_text(s, e);
    proof {
        let t = trim_end_text(s@);
        assert(t == s@.subrange(0, e as int));
        assert forall|j: int| 0 <= j < b implies is_ws_char(t[j]) by {
            assert(t[j] == s@[j]);
        }
        if b < e {
            assert(t[b as int] == s@[b as int]);
        }
        lemma_trim_start_at(t, b as int);
        assert(t.subrange(b as int, t.len() as int) =~= s@.subrange(b as int, e as int));
    }
    String::from_str(s.substring_char(b, e))
}

/// Tests whether `s` is whitespace alone.
pub fn is_blank(s: &str) -> (r: bool)
    ensures
        r == is_blank_text(s@),
{
    let s_len = s.unicode_len();
    let mut i: usize = 0;
    while i < s_len
        invariant
            0 <= i <= s_len,
            s_len == s@.len(),
            forall|j: int| 0 <= j < i ==> is_ws_char(s@[j]),
        decreases s_len - i,
    {
        if !is_ws(s.get_char(i)) {
            return false;
        }
        i = i + 1;
    }
    true
}

/// The parts joined with the separator between consecutive parts.
pub open spec fn join_text(parts: Seq<Seq<char>>, sep: Seq<char>) -> Seq<char>
    decreases parts.len(),
{
    if parts.len() == 0 {
        Seq::empty()
    } else if parts.len() == 1 {
        parts[0]
    } else {
        parts[0] + sep + join_text(parts.drop_first(), sep)
    }
}

pub proof fn lemma_join_push(parts: Seq<Seq<char>>, sep: Seq<char>, x: Seq<char>)
    ensures
        parts.len() == 0 ==> join_text(parts.push(x), sep) == x,
        parts.len() > 0 ==> join_text(parts.push(x), sep) == join_text(parts, sep) + sep + x,
    decreases parts.len(),
{
    let p = parts.push(x);
    if parts.len() == 0 {
        assert(p.len() == 1);
        assert(p[0] == x);
    } else {
        lemma_join_push(parts.drop_first(), sep, x);
        assert(p.drop_first() =~= parts.drop_first().push(x));
        if parts.len() == 1 {
            assert(join_text(p, sep) == p[0] + sep + join_text(p.drop_first(), sep));
            assert(join_text(p.drop_first(), sep) == x);
            assert(join_text(parts, sep) == parts[0]);
        } else {
            assert(join_text(p, sep) == p[0] + sep + join_text(p.drop_first(), sep));
            assert(join_text(p.drop_first(), sep) == join_text(parts.drop_first(), sep) + sep
                + x);
            assert(p[0] + sep + (join_text(parts.drop_first(), sep) + sep + x) =~= (parts[0] + sep
                + join_text(parts.drop_first(), sep)) + sep + x);
        }
    }
}

/// Joins the strings with the separator between consecutive entries.
pub fn join_strings(parts: &Vec<String>, sep: &str) -> (r: String)
    ensures
        r@ == join_text(string_views(parts@), sep@),
{
    let ghost views = string_views(parts@);
    let mut r = String::new();
    let mut i: usize = 0;
    while i < parts.len()
        invariant
            0 <= i <= parts@.len(),
            views == string_views(parts@),
            r@ == join_text(views.subrange(0, i as int), sep@),
        decreases parts@.len() - i,
    {
        proof {
            lemma_join_push(views.subrange(0, i as int), sep@, views[i as int]);
            assert(views.subrange(0, i + 1) =~= views.subrange(0, i as int).push(
                views[i as int],
            ));
        }
        if i > 0 {
            r.append(sep);
        }
        r.append(parts[i].as_str());
        i = i + 1;
    }
    proof {
        assert(views.subrange(0, parts@.len() as int) =~= views);
    }
    r
}

/// `l` without one trailing carriage return.
pub open spec fn strip_cr(l: Seq<char>) -> Seq<char> {
    if l.len() > 0 && l.last() == '\r' {
        l.drop_last()
    } else {
        l
    }
}

/// The lines of `s`: split at each line feed, each line stripped of one
/// trailing carriage return; a final line feed ends the last line rather
/// than opening an empty one.
pub open spec fn split_lines_text(s: Seq<char>) -> Seq<Seq<char>>
    decreases s.len(),
{
    if s.len() == 0 {
        Seq::empty()
    } else {
        let i = first_index_of(s, '\n');
        if 0 <= i < s.len() {
            seq![strip_cr(s.subrange(0, i))] + split_lines_text(
                s.subrange(i + 1, s.len() as int),
            )
        } else {
            seq![strip_cr(s)]
        }
    }
}

/// Removes one trailing carriage return.
fn strip_cr_str(l: &str) -> (r: String)
    ensures
        r@ == strip_cr(l@),
{
    let l_len = l.unicode_len();
    if l_len > 0 && l.get_char(l_len - 1) == '\r' {
        proof {
            assert(l@.subrange(0, l@.len() - 1) =~= l@.drop_last());
        }
        String::from_str(l.substring_char(0, l_len - 1))
    } else {
        String::from_str(l)
    }
}

/// Splits `s` into its lines.
pub fn split_lines(s: &str) -> (r: Vec<String>)
    ensures
        string_views(r@) == split_lines_text(s@),
{
    let s_len = s.unicode_len();
    let mut r: Vec<String> = Vec::new();
    let mut pos: usize = 0;
    proof {
        assert(s@.skip(0) =~= s@);
        assert(string_views(r@) =~= Seq::<Seq<char>>::empty());
    }
    while pos < s_len
        invariant
            0 <= pos <= s_len,
            s_len == s@.len(),
            split_lines_text(s@) =~= string_views(r@) + split_lines_text(
                s@.skip(pos as int),
            ),
        decreases s_len - pos,
    {
        let rest = s.substring_char(pos, s_len);
        proof {
            assert(rest@ =~= s@.skip(pos as int));
            lemma_first_index_of(rest@, '\n');
        }
        let i = find_char(rest, '\n');
        let rest_len = s_len - pos;
        if i < rest_len {
            let line = strip_cr_str(rest.substring_char(0, i));
            r.push(line);
            proof {
                assert(rest@.subrange(i + 1, rest@.len() as int) =~= s@.skip(pos + i + 1));
            }
            pos = pos + i + 1;
        } else {
            let line = strip_cr_str(rest);
            r.push(line);
            proof {
                assert(s@.skip(s@.len() as int) =~= Seq::<char>::empty());
            }
            pos = s_len;
        }
    }
    proof {
        assert(s@.skip(pos as int) =~= s@.skip(s@.len() as int));
        assert(s@.skip(s@.len() as int) =~= Seq::<char>::empty());
    }
    r
}

pub proof fn lemma_lex_lt_leq_transitive(a: Seq<char>, b: Seq<char>, c: Seq<char>)
    requires
        lex_lt(a, b),
        lex_leq(b, c),
    ensures
        lex_lt(a, c),
{
    if b != c {
        lemma_lex_lt_transitive(a, b, c);
    }
}

pub proof fn lemma_sorted_insert(s: Seq<Seq<char>>, j: int, x: Seq<char>)
    requires
        vstd::relations::sorted_by(s, seq_leq()),
        0 <= j <= s.len(),
        forall|k: int| 0 <= k < j ==> lex_leq(#[trigger] s[k], x),
        j < s.len() ==> lex_lt(x, s[j]),
    ensures
        vstd::relations::sorted_by(s.insert(j, x), seq_leq()),
{
    let t = s.insert(j, x);
    assert forall|p: int, q: int| 0 <= p < q < t.len() implies seq_leq()(t[p], t[q]) by {
        let tp = if p < j {
            s[p]
        } else if p == j {
            x
        } else {
            s[p - 1]
        };
        let tq = if q < j {
            s[q]
        } else if q == j {
            x
        } else {
            s[q - 1]
        };
        assert(t[p] == tp);
        assert(t[q] == tq);
        if q < j || (p > j) {
        } else if p < j && q == j {
        } else if p < j && q > j {
            if j < q - 1 {
                assert(seq_leq()(s[j], s[q - 1]));
            }
            lemma_lex_lt_leq_transitive(x, s[j], s[q - 1]);
            lemma_lex_lt_connected(s[p], s[q - 1]);
            if lex_lt(s[q - 1], s[p]) {
                lemma_lex_lt_leq_transitive(s[q - 1], s[p], x);
                lemma_lex_lt_asymmetric(s[q - 1], x);
            }
        } else if p == j && q > j {
            if j < q - 1 {
                assert(seq_leq()(s[j], s[q - 1]));
            }
            lemma_lex_lt_leq_transitive(x, s[j], s[q - 1]);
        }
    }
}

/// Sorts strings into the lexicographic order `lex_leq`.
pub fn sort_strings(input: &Vec<String>) -> (r: Vec<String>)
    ensures
        string_views(r@) == string_views(input@).sort_by(seq_leq()),
{
    let ghost ivs = string_views(input@);
    let mut out: Vec<String> = Vec::new();
    let mut idx: usize = 0;
    proof {
        assert(string_views(out@) =~= Seq::<Seq<char>>::empty());
        assert(ivs.subrange(0, 0) =~= Seq::<Seq<char>>::empty());
        assert(string_views(out@).to_multiset() =~= ivs.subrange(
            0,
            0,
        ).to_multiset());
    }
    while idx < input.len()
        invariant
            0 <= idx <= input@.len(),
            ivs == string_views(input@),
            vstd::relations::sorted_by(string_views(out@), seq_leq()),
            string_views(out@).to_multiset() == ivs.subrange(
                0,
                idx as int,
            ).to_multiset(),
        decreases input@.len() - idx,
    {
        let ghost old_seq = out@;
        let ghost old_views = string_views(out@);
        let x = input[idx].clone();
        proof {
            assert(x@ == ivs[idx as int]);
        }
        let j = insertion_point(&out, &x);
        proof {
            assert forall|k: int| 0 <= k < j implies lex_leq(#[trigger] old_views[k], x@) by {
                lemma_lex_lt_connected(x@, old_views[k]);
            }
            lemma_sorted_insert(old_views, j as int, x@);
        }
        out.insert(j, x);
        proof {
            old_seq.insert_ensures(j as int, x);
            old_views.insert_ensures(j as int, x@);
            assert forall|i: int| 0 <= i < out@.len() implies #[trigger] out@[i]@ == old_views.insert(
                j as int,
                x@,
            )[i] by {
                if i < j {
                    assert(out@[i] == old_seq[i]);
                } else if i == j {
                    assert(out@[i] == x);
                } else {
                    assert(out@[i] == old_seq[i - 1]);
                }
            }
            broadcast use vstd::seq_lib::to_multiset_insert;
            broadcast use vstd::seq_lib::group_to_multiset_ensures;

            assert(string_views(out@) =~= old_views.insert(j as int, x@));
            assert(old_views.insert(j as int, x@).to_multiset() == old_views.to_multiset().insert(
                x@,
            ));
            assert(ivs.subrange(0, idx + 1) =~= ivs.subrange(0, idx as int).push(ivs[idx as int]));
            assert(ivs.subrange(0, idx as int).push(ivs[idx as int]).to_multiset()
                =~= ivs.subrange(0, idx as int).to_multiset().insert(ivs[idx as int]));
        }
        idx = idx + 1;
    }
    proof {
        assert(ivs.subrange(0, ivs.len() as int) =~= ivs);
        lemma_lex_total_ordering();
        ivs.lemma_sort_by_ensures(seq_leq());
        vstd::seq_lib::lemma_sorted_unique(
            string_views(out@),
            ivs.sort_by(seq_leq()),
            seq_leq(),
        );
    }
    out
}

/// The character sequences of a sequence of strings.
pub open spec fn string_views(v: Seq<String>) -> Seq<Seq<char>> {
    v.map_values(|s: String| s@)
}

/// Tests whether some entry of `v` has the text `x`.
pub fn contains_string(v: &Vec<String>, x: &str) -> (r: bool)
    ensures
        r == string_views(v@).contains(x@),
{
    let mut j: usize = 0;
    while j < v.len()
        invariant
            0 <= j <= v@.len(),
            forall|k: int| 0 <= k < j ==> #[trigger] v@[k]@ != x@,
        decreases v@.len() - j,
    {
        if str_eq(v[j].as_str(), x) {
            proof {
                assert(string_views(v@)[j as int] == x@);
            }
            return true;
        }
        j = j + 1;
    }
    proof {
        assert forall|i: int| 0 <= i < string_views(v@).len() implies #[trigger] string_views(
            v@,
        )[i] != x@ by {
            assert(v@[i]@ != x@);
        }
    }
    false
}

/// Clones a vector of strings; the copy carries the same text.
pub fn clone_string_vec(v: &Vec<String>) -> (r: Vec<String>)
    ensures
        r@ == v@,
{
    let r = v.clone();
    proof {
        assert forall|i: int| 0 <= i < v@.len() implies r@[i] == v@[i] by {
            assert(cloned::<String>(v[i], r[i]));
        }
        assert(r@ =~= v@);
    }
    r
}

/// Finds the first position of the sorted vector whose entry is strictly
/// greater than `x`.
fn insertion_point(out: &Vec<String>, x: &String) -> (j: usize)
    ensures
        0 <= j <= out@.len(),
        forall|k: int| 0 <= k < j ==> !lex_lt(x@, #[trigger] out@[k]@),
        j < out@.len() ==> lex_lt(x@, out@[j as int]@),
{
    let mut j: usize = 0;
    while j < out.len()
        invariant
            0 <= j <= out@.len(),
            forall|k: int| 0 <= k < j ==> !lex_lt(x@, #[trigger] out@[k]@),
        decreases out@.len() - j,
    {
        if str_lt(x.as_str(), out[j].as_str()) {
            return j;
        }
        j = j + 1;
    }
    j
}

} // verus!
