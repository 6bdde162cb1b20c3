//! Character and string groundwork for the codec: the whitespace set that
//! values are trimmed of, ASCII case folding, decimal digit strings, and
//! substring search.  Everything is specified over `Seq<char>`, the view of
//! `&str` and `String`.

use vstd::prelude::*;
use vstd::string::*;

verus! {

/// The whitespace set the codec trims: the ASCII whitespace characters.
pub open spec fn is_space_char(c: char) -> bool {
    c == ' ' || c == '\t' || c == '\n' || c == '\r' || c == '\x0b' || c == '\x0c'
}

/// ASCII case folding: the lowercase letters a-z map to A-Z, every other
/// character is left as it is.
pub open spec fn upper_char(c: char) -> char {
    if c == 'a' { 'A' } else if c == 'b' { 'B' } else if c == 'c' { 'C' }
    else if c == 'd' { 'D' } else if c == 'e' { 'E' } else if c == 'f' { 'F' }
    else if c == 'g' { 'G' } else if c == 'h' { 'H' } else if c == 'i' { 'I' }
    else if c == 'j' { 'J' } else if c == 'k' { 'K' } else if c == 'l' { 'L' }
    else if c == 'm' { 'M' } else if c == 'n' { 'N' } else if c == 'o' { 'O' }
    else if c == 'p' { 'P' } else if c == 'q' { 'Q' } else if c == 'r' { 'R' }
    else if c == 's' { 'S' } else if c == 't' { 'T' } else if c == 'u' { 'U' }
    else if c == 'v' { 'V' } else if c == 'w' { 'W' } else if c == 'x' { 'X' }
    else if c == 'y' { 'Y' } else if c == 'z' { 'Z' }
    else { c }
}

/// Folding to uppercase twice is folding once.
pub proof fn lemma_upper_seq_idempotent(s: Seq<char>)
    ensures
        upper_seq(upper_seq(s)) =~= upper_seq(s),
{
}

/// A sequence of characters, folded to uppercase character by character.
pub open spec fn upper_seq(s: Seq<char>) -> Seq<char> {
    Seq::new(s.len(), |i: int| upper_char(s[i]))
}

pub open spec fn is_digit_char(c: char) -> bool {
    48 <= c as u32 && c as u32 <= 57
}

pub open spec fn digit_val(c: char) -> int {
    c as u32 - 48
}

pub open spec fn is_dec_digits(s: Seq<char>) -> bool {
    forall|i: int| 0 <= i < s.len() ==> is_digit_char(#[trigger] s[i])
}

/// The number denoted by a string of decimal digits, most significant first.
pub open spec fn dec_val(s: Seq<char>) -> int
    decreases s.len(),
{
    if s.len() == 0 {
        0
    } else {
        dec_val(s.drop_last()) * 10 + digit_val(s[s.len() - 1])
    }
}

pub open spec fn dec_digit_char(d: int) -> char {
    if d == 0 { '0' }
    else if d == 1 { '1' }
    else if d == 2 { '2' }
    else if d == 3 { '3' }
    else if d == 4 { '4' }
    else if d == 5 { '5' }
    else if d == 6 { '6' }
    else if d == 7 { '7' }
    else if d == 8 { '8' }
    else { '9' }
}

/// The canonical decimal rendering of a nonnegative number: no sign, no
/// leading zero except for the number zero itself.
pub open spec fn dec_str(n: int) -> Seq<char>
    recommends n >= 0,
    decreases n when n >= 0
{
    if n < 10 {
        seq![dec_digit_char(n)]
    } else {
        dec_str(n / 10) + seq![dec_digit_char(n % 10)]
    }
}

pub open spec fn trim_start_spec(s: Seq<char>) -> Seq<char>
    decreases s.len(),
{
    if s.len() > 0 && is_space_char(s[0]) {
        trim_start_spec(s.drop_first())
    } else {
        s
    }
}

pub open spec fn trim_end_spec(s: Seq<char>) -> Seq<char>
    decreases s.len(),
{
    if s.len() > 0 && is_space_char(s[s.len() - 1]) {
        trim_end_spec(s.drop_last())
    } else {
        s
    }
}

/// A string with its surrounding whitespace removed.
pub open spec fn trim_spec(s: Seq<char>) -> Seq<char> {
    trim_end_spec(trim_start_spec(s))
}

/// What parsing a length token yields: surrounding whitespace is ignored, a
/// single leading `+` is accepted, and the rest must be one or more decimal
/// digits whose value fits in `usize`.
pub open spec fn parse_len_spec(s: Seq<char>) -> Option<int> {
    let t = trim_spec(s);
    let d = if t.len() > 0 && t[0] == '+' { t.drop_first() } else { t };
    if d.len() > 0 && is_dec_digits(d) && dec_val(d) <= usize::MAX as int {
        Some(dec_val(d))
    } else {
        None
    }
}

/// The first position at or after `i` where `pat` occurs in `s`.
pub open spec fn find_from(s: Seq<char>, pat: Seq<char>, i: int) -> Option<int>
    recommends 0 <= i, pat.len() > 0,
    decreases s.len() - i when 0 <= i && pat.len() > 0
{
    if i + pat.len() > s.len() {
        None
    } else if s.subrange(i, i + pat.len()) == pat {
        Some(i)
    } else {
        find_from(s, pat, i + 1)
    }
}

pub proof fn lemma_find_from_bounds(s: Seq<char>, pat: Seq<char>, i: int)
    requires
        0 <= i,
        pat.len() > 0,
        find_from(s, pat, i) is Some,
    ensures
        i <= find_from(s, pat, i)->0,
        find_from(s, pat, i)->0 + pat.len() <= s.len(),
        s.subrange(find_from(s, pat, i)->0, find_from(s, pat, i)->0 + pat.len()) == pat,
        forall|k: int| i <= k < find_from(s, pat, i)->0 && k + pat.len() <= s.len()
            ==> #[trigger] s.subrange(k, k + pat.len()) != pat,
    decreases s.len() - i,
{
    if i + pat.len() > s.len() {
    } else if s.subrange(i, i + pat.len()) == pat {
    } else {
        lemma_find_from_bounds(s, pat, i + 1);
    }
}

/// Where a match is known at `at` and no match lies before it, `find_from`
/// returns exactly `at`.
pub proof fn lemma_find_from_exact(s: Seq<char>, pat: Seq<char>, i: int, at: int)
    requires
        0 <= i <= at,
        pat.len() > 0,
        at + pat.len() <= s.len(),
        s.subrange(at, at + pat.len()) == pat,
        forall|k: int| i <= k < at ==> #[trigger] s.subrange(k, k + pat.len()) != pat,
    ensures
        find_from(s, pat, i) == Some(at),
    decreases at - i,
{
    if i == at {
    } else {
        lemma_find_from_exact(s, pat, i + 1, at);
    }
}

/// `s` split on every occurrence of `pat`, the separators removed.
pub open spec fn split_on(s: Seq<char>, pat: Seq<char>) -> Seq<Seq<char>>
    recommends pat.len() > 0,
    decreases s.len() when pat.len() > 0 via split_on_decreases
{
    match find_from(s, pat, 0) {
        None => seq![s],
        Some(i) => seq![s.subrange(0, i)]
            + split_on(s.subrange(i + pat.len(), s.len() as int), pat),
    }
}

#[via_fn]
proof fn split_on_decreases(s: Seq<char>, pat: Seq<char>) {
    match find_from(s, pat, 0) {
        None => {},
        Some(i) => {
            lemma_find_from_bounds(s, pat, 0);
        },
    }
}

pub proof fn lemma_trim_start_at(s: Seq<char>, lo: int)
    requires
        0 <= lo <= s.len(),
        forall|k: int| 0 <= k < lo ==> is_space_char(#[trigger] s[k]),
        lo == s.len() || !is_space_char(s[lo]),
    ensures
        trim_start_spec(s) =~= s.subrange(lo, s.len() as int),
    decreases lo,
{
    if lo == 0 {
        assert(s.subrange(0, s.len() as int) =~= s);
    } else {
        lemma_trim_start_at(s.drop_first(), lo - 1);
        assert(s.drop_first().subrange(lo - 1, s.drop_first().len() as int)
            =~= s.subrange(lo, s.len() as int));
    }
}

pub proof fn lemma_trim_end_at(s: Seq<char>, hi: int)
    requires
        0 <= hi <= s.len(),
        forall|k: int| hi <= k < s.len() ==> is_space_char(#[trigger] s[k]),
        hi == 0 || !is_space_char(s[hi - 1]),
    ensures
        trim_end_spec(s) =~= s.subrange(0, hi),
    decreases s.len() - hi,
{
    if hi == s.len() {
        assert(s.subrange(0, s.len() as int) =~= s);
    } else {
        lemma_trim_end_at(s.drop_last(), hi);
        assert(s.drop_last().subrange(0, hi) =~= s.subrange(0, hi));
    }
}

/// A string that neither starts nor ends with whitespace is its own trim.
pub proof fn lemma_trim_of_trimmed(s: Seq<char>)
    requires
        s.len() == 0 || (!is_space_char(s[0]) && !is_space_char(s[s.len() - 1])),
    ensures
        trim_spec(s) == s,
{
    lemma_trim_start_at(s, 0);
    assert(trim_start_spec(s) =~= s);
    lemma_trim_end_at(s, s.len() as int);
    assert(trim_spec(s) =~= s);
}

/// Appends one character to a string.
///
/// Relies on `String::push`, which appends the given character to the end of
/// the string.
#[verifier::external_body]
fn push_char(s: &mut String, c: char)
    ensures
        final(s)@ == old(s)@ + seq![c],
{
    s.push(c);
}

/// The characters of a string slice, in order.
pub fn str_chars(s: &str) -> (r: Vec<char>)
    ensures
        r@ == s@,
{
    let n = s.unicode_len();
    let mut r: Vec<char> = Vec::new();
    let mut i: usize = 0;
    while i < n
        invariant
            n == s@.len(),
            i <= n,
            r@ =~= s@.subrange(0, i as int),
        decreases n - i,
    {
        r.push(s.get_char(i));
        i += 1;
    }
    proof {
        assert(r@ =~= s@);
    }
    r
}

/// A `String` holding the given characters.
pub fn chars_to_string(v: &Vec<char>) -> (s: String)
    ensures
        s@ == v@,
{
    let mut s = String::new();
    let mut i: usize = 0;
    while i < v.len()
        invariant
            i <= v.len(),
            s@ =~= v@.subrange(0, i as int),
        decreases v.len() - i,
    {
        push_char(&mut s, v[i]);
        i += 1;
    }
    proof {
        assert(s@ =~= v@);
    }
    s
}

/// Character-for-character equality of two string slices.
pub fn str_eq(a: &str, b: &str) -> (r: bool)
    ensures
        r == (a@ == b@),
{
    let n = a.unicode_len();
    if n != b.unicode_len() {
        return false;
    }
    let mut i: usize = 0;
    while i < n
        invariant
            n == a@.len(),
            n == b@.len(),
            i <= n,
            forall|k: int| 0 <= k < i ==> a@[k] == b@[k],
        decreases n - i,
    {
        if a.get_char(i) != b.get_char(i) {
            return false;
        }
        i += 1;
    }
    proof {
        assert(a@ =~= b@);
    }
    true
}

pub fn is_space(c: char) -> (r: bool)
    ensures
        r == is_space_char(c),
{
    c == ' ' || c == '\t' || c == '\n' || c == '\r' || c == '\x0b' || c == '\x0c'
}

/// Folds one character to uppercase, ASCII-only.
pub fn ascii_upper_char(c: char) -> (r: char)
    ensures
        r == upper_char(c),
{
    match c {
        'a' => 'A', 'b' => 'B', 'c' => 'C', 'd' => 'D', 'e' => 'E', 'f' => 'F',
        'g' => 'G', 'h' => 'H', 'i' => 'I', 'j' => 'J', 'k' => 'K', 'l' => 'L',
        'm' => 'M', 'n' => 'N', 'o' => 'O', 'p' => 'P', 'q' => 'Q', 'r' => 'R',
        's' => 'S', 't' => 'T', 'u' => 'U', 'v' => 'V', 'w' => 'W', 'x' => 'X',
        'y' => 'Y', 'z' => 'Z',
        _ => c,
    }
}

/// A copy of the string with each character folded to uppercase, ASCII-only.
pub fn upper_str(s: &str) -> (r: String)
    ensures
        r@ == upper_seq(s@),
{
    let n = s.unicode_len();
    let mut v: Vec<char> = Vec::new();
    let mut i: usize = 0;
    while i < n
        invariant
            n == s@.len(),
            i <= n,
            v@ =~= upper_seq(s@).subrange(0, i as int),
        decreases n - i,
    {
        v.push(ascii_upper_char(s.get_char(i)));
        i += 1;
    }
    proof {
        assert(v@ =~= upper_seq(s@));
    }
    chars_to_string(&v)
}

/// The string with its surrounding whitespace removed.
pub fn trim_str(s: &str) -> (r: String)
    ensures
        r@ == trim_spec(s@),
{
    let n = s.unicode_len();
    let mut lo: usize = 0;
    while lo < n && is_space(s.get_char(lo))
        invariant
            n == s@.len(),
            lo <= n,
            forall|k: int| 0 <= k < lo ==> is_space_char(#[trigger] s@[k]),
        decreases n - lo,
    {
        lo += 1;
    }
    proof {
        lemma_trim_start_at(s@, lo as int);
    }
    if lo == n {
        proof {
            lemma_trim_end_at(trim_start_spec(s@), 0);
            assert(trim_spec(s@) =~= Seq::<char>::empty());
        }
        return String::new();
    }
    let mut hi: usize = n;
    while hi > lo + 1 && is_space(s.get_char(hi - 1))
        invariant
            n == s@.len(),
            lo < hi <= n,
            !is_space_char(s@[lo as int]),
            forall|k: int| hi <= k < n ==> is_space_char(#[trigger] s@[k]),
        decreases hi,
    {
        hi -= 1;
    }
    if is_space(s.get_char(hi - 1)) {
        // only possible when hi == lo + 1, which contradicts s[lo] not space
        proof {
            assert(hi == lo + 1);
        }
    }
    proof {
        let t = trim_start_spec(s@);
        assert(t =~= s@.subrange(lo as int, n as int));
        lemma_trim_end_at(t, hi - lo);
        assert(t.subrange(0, hi - lo) =~= s@.subrange(lo as int, hi as int));
    }
    let r = s.substring_char(lo, hi);
    r.to_owned()
}

/// The first occurrence of `pat` in `s` at or after `from`.
pub fn find_str(s: &str, pat: &str, from: usize) -> (r: Option<usize>)
    requires
        pat@.len() > 0,
        from <= s@.len(),
    ensures
        match r {
            Some(i) => find_from(s@, pat@, from as int) == Some(i as int),
            None => find_from(s@, pat@, from as int) is None,
        },
{
    let n = s.unicode_len();
    let m = pat.unicode_len();
    if m > n {
        return None;
    }
    let mut i = from;
    while i <= n - m
        invariant
            n == s@.len(),
            m == pat@.len(),
            0 < m <= n,
            from <= i,
            find_from(s@, pat@, from as int) == find_from(s@, pat@, i as int),
        decreases n - i,
    {
        let mut j: usize = 0;
        while j < m && s.get_char(i + j) == pat.get_char(j)
            invariant
                n == s@.len(),
                m == pat@.len(),
                i <= n - m,
                i + m <= n,
                j <= m,
                forall|k: int| 0 <= k < j ==> s@[i + k] == pat@[k],
            decreases m - j,
        {
            j += 1;
        }
        if j == m {
            proof {
                assert(s@.subrange(i as int, i as int + m as int) =~= pat@);
            }
            return Some(i);
        }
        proof {
            assert(s@[i + j] != pat@[j as int]);
            assert(s@.subrange(i as int, i as int + m as int)[j as int] == s@[i + j]);
            assert(s@.subrange(i as int, i as int + m as int) != pat@);
        }
        i += 1;
    }
    None
}

pub proof fn lemma_dec_val_nonneg(s: Seq<char>)
    requires
        is_dec_digits(s),
    ensures
        dec_val(s) >= 0,
    decreases s.len(),
{
    if s.len() > 0 {
        assert(is_dec_digits(s.drop_last())) by {
            assert(forall|i: int| 0 <= i < s.len() - 1 ==> s.drop_last()[i] == s[i]);
        }
        lemma_dec_val_nonneg(s.drop_last());
    }
}

pub proof fn lemma_dec_str_digits(n: int)
    requires
        n >= 0,
    ensures
        dec_str(n).len() >= 1,
        is_dec_digits(dec_str(n)),
    decreases n,
{
    if n >= 10 {
        lemma_dec_str_digits(n / 10);
    }
}

pub proof fn lemma_dec_val_dec_str(n: int)
    requires
        n >= 0,
    ensures
        dec_val(dec_str(n)) == n,
    decreases n,
{
    let s = dec_str(n);
    if n < 10 {
        assert(s.drop_last() =~= Seq::<char>::empty());
        assert(dec_val(s.drop_last()) == 0);
        assert(dec_val(s) == dec_val(s.drop_last()) * 10 + digit_val(s[s.len() - 1]));
        assert(digit_val(dec_digit_char(n)) == n);
    } else {
        lemma_dec_val_dec_str(n / 10);
        assert(s.drop_last() =~= dec_str(n / 10));
        assert(dec_val(s) == dec_val(s.drop_last()) * 10 + digit_val(s[s.len() - 1]));
        assert(s[s.len() - 1] == dec_digit_char(n % 10));
        assert(digit_val(dec_digit_char(n % 10)) == n % 10);
        assert((n / 10) * 10 + n % 10 == n);
    }
}

/// The canonical decimal rendering of a length parses back to that length.
pub proof fn lemma_parse_len_of_dec_str(n: int)
    requires
        0 <= n <= usize::MAX as int,
    ensures
        parse_len_spec(dec_str(n)) == Some(n),
{
    let s = dec_str(n);
    lemma_dec_str_digits(n);
    lemma_dec_val_dec_str(n);
    lemma_trim_of_trimmed(s);
    assert(s[0] != '+');
}

/// A length that parses is nonnegative.
pub proof fn lemma_parse_len_nonneg(s: Seq<char>)
    ensures
        parse_len_spec(s) is Some ==> parse_len_spec(s)->0 >= 0,
{
    let t = trim_spec(s);
    let d = if t.len() > 0 && t[0] == '+' { t.drop_first() } else { t };
    if d.len() > 0 && is_dec_digits(d) {
        lemma_dec_val_nonneg(d);
    }
}

fn digit_str(d: usize) -> (r: &'static str)
    requires
        d < 10,
    ensures
        r@ =~= seq![dec_digit_char(d as int)],
{
    if d == 0 { proof { reveal_strlit("0"); } "0" }
    else if d == 1 { proof { reveal_strlit("1"); } "1" }
    else if d == 2 { proof { reveal_strlit("2"); } "2" }
    else if d == 3 { proof { reveal_strlit("3"); } "3" }
    else if d == 4 { proof { reveal_strlit("4"); } "4" }
    else if d == 5 { proof { reveal_strlit("5"); } "5" }
    else if d == 6 { proof { reveal_strlit("6"); } "6" }
    else if d == 7 { proof { reveal_strlit("7"); } "7" }
    else if d == 8 { proof { reveal_strlit("8"); } "8" }
    else { proof { reveal_strlit("9"); } "9" }
}

/// The decimal rendering of a number, most significant digit first.
pub fn dec_string(n: usize) -> (r: String)
    ensures
        r@ == dec_str(n as int),
    decreases n,
{
    if n < 10 {
        let r = digit_str(n).to_owned();
        proof {
            assert(r@ =~= dec_str(n as int));
        }
        r
    } else {
        let mut r = dec_string(n / 10);
        r.append(digit_str(n % 10));
        proof {
            assert(r@ =~= dec_str(n as int));
        }
        r
    }
}

/// Parses a length token: optional surrounding whitespace, an optional `+`,
/// then decimal digits.  `None` when the token is empty, holds any other
/// character, or denotes a value that does not fit in `usize`.
#[verifier::loop_isolation(false)]
pub fn parse_usize_str(s: &str) -> (r: Option<usize>)
    ensures
        match r {
            Some(v) => parse_len_spec(s@) == Some(v as int),
            None => parse_len_spec(s@) is None,
        },
{
    let t = trim_str(s);
    let v = str_chars(t.as_str());
    let ghost tv = trim_spec(s@);
    let start: usize = if v.len() > 0 && v[0] ==  '+' { 1 } else { 0 };
    let ghost d = if tv.len() > 0 && tv[0] == '+' { tv.drop_first() } else { tv };
    proof {
        assert(d =~= tv.subrange(start as int, tv.len() as int));
    }
    if v.len() == start {
        proof {
            assert(d.len() == 0);
        }
        return None;
    }
    let mut j: usize = start;
    let mut acc: usize = 0;
    let mut over: bool = false;
    while j < v.len()
        invariant
            v@ == tv,
            d =~= tv.subrange(start as int, tv.len() as int),
            start <= j <= v.len(),
            start < v.len(),
            forall|k: int| start <= k < j ==> is_digit_char(#[trigger] tv[k]),
            !over ==> acc as int == dec_val(tv.subrange(start as int, j as int)),
            over ==> dec_val(tv.subrange(start as int, j as int)) > usize::MAX as int,
        decreases v.len() - j,
    {
        let c = v[j];
        let u = c as u32;
        if u < 48 || u > 57 {
            proof {
                assert(!is_digit_char(d[j - start]));
                assert(!is_dec_digits(d));
            }
            return None;
        }
        let dv = (u - 48) as usize;
        proof {
            assert(tv.subrange(start as int, j as int + 1).drop_last()
                =~= tv.subrange(start as int, j as int));
            assert(dec_val(tv.subrange(start as int, j as int + 1))
                == dec_val(tv.subrange(start as int, j as int)) * 10 + digit_val(tv[j as int]));
        }
        if over {
            proof {
                assert(forall|k: int| 0 <= k < j - start ==> is_digit_char(
                    #[trigger] tv.subrange(start as int, j as int)[k]));
                lemma_dec_val_nonneg(tv.subrange(start as int, j as int));
            }
        } else if acc > usize::MAX / 10 {
            proof {
                assert(acc * 10 > usize::MAX as int);
            }
            over = true;
        } else {
            let acc10 = acc * 10;
            if dv > usize::MAX - acc10 {
                over = true;
            } else {
                acc = acc10 + dv;
            }
        }
        j += 1;
    }
    if over {
        proof {
            assert(tv.subrange(start as int, j as int) =~= d);
        }
        return None;
    }
    proof {
        assert(tv.subrange(start as int, j as int) =~= d);
        assert forall|k: int| 0 <= k < d.len() implies is_digit_char(#[trigger] d[k]) by {
            assert(d[k] == tv[start + k]);
        }
    }
    Some(acc)
}

} // verus!
