//! Award-progress helpers: extracting base membership numbers and callsign
//! prefixes, and counting distinct qualifying contacts.  The counting
//! functions keep the first qualifying contact per member, in input order,
//! and their contracts pin the result exactly through fold specifications.

use vstd::prelude::*;
use vstd::string::*;
use crate::text::{
    chars_to_string, is_digit_char, is_dec_digits, is_space_char, str_chars, str_eq, trim_spec,
    trim_str, upper_seq, upper_str,
};

verus! {

/// The end of the first word: the first whitespace position at or after `i`.
pub open spec fn word_end(s: Seq<char>, i: int) -> int
    recommends 0 <= i <= s.len(),
    decreases s.len() - i when 0 <= i <= s.len()
{
    if i >= s.len() {
        i
    } else if is_space_char(s[i]) {
        i
    } else {
        word_end(s, i + 1)
    }
}

pub proof fn lemma_word_end(s: Seq<char>, i: int)
    requires
        0 <= i <= s.len(),
    ensures
        i <= word_end(s, i) <= s.len(),
        forall|k: int| i <= k < word_end(s, i) ==> !is_space_char(#[trigger] s[k]),
        word_end(s, i) < s.len() ==> is_space_char(s[word_end(s, i)]),
    decreases s.len() - i,
{
    if i < s.len() && !is_space_char(s[i]) {
        lemma_word_end(s, i + 1);
    }
}

/// The first `x` at or after `i`: where a multiplier suffix begins.
pub open spec fn x_end(s: Seq<char>, i: int) -> int
    recommends 0 <= i <= s.len(),
    decreases s.len() - i when 0 <= i <= s.len()
{
    if i >= s.len() {
        i
    } else if s[i] == 'x' {
        i
    } else {
        x_end(s, i + 1)
    }
}

/// The first decimal digit at or after `i`.
pub open spec fn digit_pos(s: Seq<char>, i: int) -> int
    recommends 0 <= i <= s.len(),
    decreases s.len() - i when 0 <= i <= s.len()
{
    if i >= s.len() {
        i
    } else if is_digit_char(s[i]) {
        i
    } else {
        digit_pos(s, i + 1)
    }
}

/// The base membership number of a raw tag: the tag is trimmed, cut at the
/// first whitespace, stripped of an `x` multiplier and then of one trailing
/// award letter (C, T or S), and accepted only when digits remain.
pub open spec fn skcc_base(s: Seq<char>) -> Option<Seq<char>> {
    let t = trim_spec(s);
    if t.len() == 0 {
        None
    } else {
        let w0 = t.subrange(0, word_end(t, 0));
        let w1 = w0.subrange(0, x_end(w0, 0));
        let w2 = if w1.len() > 0 && (w1.last() == 'C' || w1.last() == 'T' || w1.last() == 'S') {
            w1.drop_last()
        } else {
            w1
        };
        if w2.len() > 0 && is_dec_digits(w2) {
            Some(w2)
        } else {
            None
        }
    }
}

/// The award prefix of a callsign: the callsign is trimmed and uppercased;
/// two-letter country prefixes starting with V or Z are kept whole, else
/// everything through the first digit is the prefix, and a callsign without
/// digits has none.
pub open spec fn prefix_of(s: Seq<char>) -> Option<Seq<char>> {
    let c = upper_seq(trim_spec(s));
    if c.len() >= 2 && (c[0] == 'V' || c[0] == 'Z') {
        Some(c.subrange(0, 2))
    } else {
        let p = digit_pos(c, 0);
        if p < c.len() {
            Some(c.subrange(0, p + 1))
        } else {
            None
        }
    }
}

/// Extracts the base membership number, as `skcc_base` describes.
#[verifier::loop_isolation(false)]
pub fn extract_base_skcc(skcc: &str) -> (r: Option<String>)
    ensures
        match r {
            Some(b) => skcc_base(skcc@) == Some(b@),
            None => skcc_base(skcc@) is None,
        },
{
    let t = trim_str(skcc);
    let v = str_chars(t.as_str());
    let ghost tv = trim_spec(skcc@);
    if v.len() == 0 {
        return None;
    }
    let mut we: usize = 0;
    while we < v.len() && !crate::text::is_space(v[we])
        invariant
            we <= v.len(),
            word_end(tv, 0) == word_end(tv, we as int),
        decreases v.len() - we,
    {
        we += 1;
    }
    proof {
        assert(word_end(tv, 0) == we);
    }
    let mut w: Vec<char> = Vec::new();
    let mut i: usize = 0;
    while i < we
        invariant
            i <= we <= v.len(),
            w@ =~= tv.subrange(0, i as int),
        decreases we - i,
    {
        w.push(v[i]);
        i += 1;
    }
    proof {
        assert(w@ =~= tv.subrange(0, we as int));
    }
    let ghost w0 = w@;
    let mut xe: usize = 0;
    while xe < w.len() && w[xe] != 'x'
        invariant
            xe <= w.len(),
            w@ == w0,
            x_end(w0, 0) == x_end(w0, xe as int),
        decreases w.len() - xe,
    {
        xe += 1;
    }
    proof {
        assert(x_end(w0, 0) == xe);
    }
    let mut w2: Vec<char> = Vec::new();
    let mut i2: usize = 0;
    while i2 < xe
        invariant
            i2 <= xe <= w.len(),
            w@ == w0,
            w2@ =~= w0.subrange(0, i2 as int),
        decreases xe - i2,
    {
        w2.push(w[i2]);
        i2 += 1;
    }
    proof {
        assert(w2@ =~= w0.subrange(0, xe as int));
    }
    if w2.len() > 0 {
        let last = w2[w2.len() - 1];
        if last == 'C' || last == 'T' || last == 'S' {
            w2.pop();
        }
    }
    if w2.len() == 0 {
        return None;
    }
    let mut i3: usize = 0;
    while i3 < w2.len()
        invariant
            i3 <= w2@.len(),
            forall|k: int| 0 <= k < i3 ==> is_digit_char(#[trigger] w2@[k]),
        decreases w2.len() - i3,
    {
        let c = w2[i3];
        let u = c as u32;
        if u < 48 || u > 57 {
            proof {
                assert(!is_digit_char(w2@[i3 as int]));
            }
            return None;
        }
        i3 += 1;
    }
    Some(chars_to_string(&w2))
}

/// Extracts the award prefix, as `prefix_of` describes.
#[verifier::loop_isolation(false)]
pub fn extract_prefix(callsign: &str) -> (r: Option<String>)
    ensures
        match r {
            Some(p) => prefix_of(callsign@) == Some(p@),
            None => prefix_of(callsign@) is None,
        },
{
    let t = trim_str(callsign);
    let u = upper_str(t.as_str());
    let v = str_chars(u.as_str());
    let ghost c = upper_seq(trim_spec(callsign@));
    if v.len() >= 2 && (v[0] == 'V' || v[0] == 'Z') {
        let mut p: Vec<char> = Vec::new();
        p.push(v[0]);
        p.push(v[1]);
        proof {
            assert(p@ =~= c.subrange(0, 2));
        }
        return Some(chars_to_string(&p));
    }
    let mut dp: usize = 0;
    while dp < v.len() && !is_digit_exec(v[dp])
        invariant
            dp <= v.len(),
            digit_pos(c, 0) == digit_pos(c, dp as int),
        decreases v.len() - dp,
    {
        dp += 1;
    }
    proof {
        assert(digit_pos(c, 0) == dp);
    }
    if dp >= v.len() {
        return None;
    }
    let mut p: Vec<char> = Vec::new();
    let mut i: usize = 0;
    while i <= dp
        invariant
            i <= dp + 1,
            dp < v.len(),
            p@ =~= c.subrange(0, i as int),
        decreases dp + 1 - i,
    {
        p.push(v[i]);
        i += 1;
    }
    proof {
        assert(p@ =~= c.subrange(0, dp + 1));
    }
    Some(chars_to_string(&p))
}

fn is_digit_exec(c: char) -> (r: bool)
    ensures
        r == is_digit_char(c),
{
    let u = c as u32;
    48 <= u && u <= 57
}

/// A mechanical key accepted for the awards.
pub open spec fn key_ok(k: Seq<char>) -> bool {
    k == "STRAIGHT"@ || k == "BUG"@ || k == "SIDESWIPER"@
}

/// The member number a contact counts for, for the basic award: CW contacts
/// with a mechanical key and a readable membership number.
/// A contact is `(callsign, member number, mode, key type, date, band)`.
pub open spec fn centurion_base(
    c: (Seq<char>, Seq<char>, Seq<char>, Seq<char>, Seq<char>, Seq<char>),
) -> Option<Seq<char>> {
    if c.2 == "CW"@ && key_ok(c.3) {
        skcc_base(c.1)
    } else {
        None
    }
}

/// The member number a contact counts for, for the senior award: as the
/// basic award, and the trimmed membership tag must end in T or S.
pub open spec fn tribune_base(
    c: (Seq<char>, Seq<char>, Seq<char>, Seq<char>, Seq<char>, Seq<char>),
) -> Option<Seq<char>> {
    if c.2 == "CW"@ && key_ok(c.3) {
        let t = trim_spec(c.1);
        if t.len() > 0 && (t.last() == 'T' || t.last() == 'S') {
            skcc_base(t)
        } else {
            None
        }
    } else {
        None
    }
}

pub open spec fn has_base(acc: Seq<(Seq<char>, Seq<char>, Seq<char>, Seq<char>)>, b: Seq<char>) -> bool {
    exists|i: int| 0 <= i < acc.len() && (#[trigger] acc[i]).0 == b
}

/// The award detail list: one `(member, callsign, date, band)` entry per
/// distinct member, taken from the first qualifying contact, in input order.
pub open spec fn progress_fold(
    cs: Seq<(Seq<char>, Seq<char>, Seq<char>, Seq<char>, Seq<char>, Seq<char>)>,
    j: int,
    acc: Seq<(Seq<char>, Seq<char>, Seq<char>, Seq<char>)>,
    trib: bool,
) -> Seq<(Seq<char>, Seq<char>, Seq<char>, Seq<char>)>
    decreases cs.len() - j when 0 <= j
{
    if j >= cs.len() {
        acc
    } else {
        let c = cs[j];
        let b = if trib { tribune_base(c) } else { centurion_base(c) };
        match b {
            Some(bb) => if has_base(acc, bb) {
                progress_fold(cs, j + 1, acc, trib)
            } else {
                progress_fold(cs, j + 1, acc.push((bb, c.0, c.4, c.5)), trib)
            },
            None => progress_fold(cs, j + 1, acc, trib),
        }
    }
}

#[verifier::loop_isolation(false)]
fn progress_details(
    contacts: &Vec<(String, String, String, String, String, String)>,
    trib: bool,
) -> (r: Vec<(String, String, String, String)>)
    ensures
        r.deep_view() == progress_fold(
            contacts.deep_view(),
            0,
            Seq::empty(),
            trib,
        ),
{
    let ghost cs = contacts.deep_view();
    let mut details: Vec<(String, String, String, String)> = Vec::new();
    let mut j: usize = 0;
    proof {
        assert(details.deep_view() =~= Seq::<(Seq<char>, Seq<char>, Seq<char>, Seq<char>)>::empty());
    }
    while j < contacts.len()
        invariant
            j <= contacts@.len(),
            cs.len() == contacts@.len(),
            progress_fold(cs, 0, Seq::empty(), trib)
                == progress_fold(cs, j as int, details.deep_view(), trib),
        decreases contacts@.len() - j,
    {
        let c = &contacts[j];
        proof {
            assert(cs[j as int] == (c.0@, c.1@, c.2@, c.3@, c.4@, c.5@));
        }
        let qualifies = str_eq(c.2.as_str(), "CW")
            && (str_eq(c.3.as_str(), "STRAIGHT") || str_eq(c.3.as_str(), "BUG")
                || str_eq(c.3.as_str(), "SIDESWIPER"));
        let base_opt: Option<String> = if qualifies {
            if trib {
                let t = trim_str(c.1.as_str());
                let tb = str_chars(t.as_str());
                if tb.len() > 0 && (tb[tb.len() - 1] == 'T' || tb[tb.len() - 1] == 'S') {
                    extract_base_skcc(t.as_str())
                } else {
                    None
                }
            } else {
                extract_base_skcc(c.1.as_str())
            }
        } else {
            None
        };
        proof {
            let ghost b = if trib { tribune_base(cs[j as int]) } else { centurion_base(cs[j as int]) };
            match base_opt {
                Some(ref bb) => { assert(b == Some(bb@)); },
                None => { assert(b is None); },
            }
        }
        match base_opt {
            Some(b) => {
                let mut found = false;
                let mut k: usize = 0;
                while k < details.len()
                    invariant
                        k <= details@.len(),
                        found ==> has_base(details.deep_view(), b@),
                        !found ==> forall|l: int| 0 <= l < k
                            ==> (#[trigger] details.deep_view()[l]).0 != b@,
                    decreases details@.len() - k,
                {
                    if str_eq(details[k].0.as_str(), b.as_str()) {
                        found = true;
                        proof {
                            assert(details.deep_view()[k as int].0 == b@);
                        }
                    }
                    k += 1;
                }
                if !found {
                    proof {
                        assert(!has_base(details.deep_view(), b@));
                    }
                    let entry = (b, c.0.clone(), c.4.clone(), c.5.clone());
                    let ghost before = details.deep_view();
                    details.push(entry);
                    proof {
                        assert(details.deep_view()
                            =~= before.push((b@, cs[j as int].0, cs[j as int].4, cs[j as int].5)));
                    }
                }
            },
            None => {},
        }
        j += 1;
    }
    details
}

/// Basic award progress: the number of distinct members reached by CW with
/// a mechanical key, and one detail entry `(member, callsign, date, band)`
/// per member from the first qualifying contact, in input order.
pub fn calculate_centurion_progress(
    contacts: Vec<(String, String, String, String, String, String)>,
) -> (r: (usize, Vec<(String, String, String, String)>))
    ensures
        r.1.deep_view() == progress_fold(contacts.deep_view(), 0, Seq::empty(), false),
        r.0 == r.1@.len(),
{
    let details = progress_details(&contacts, false);
    let count = details.len();
    (count, details)
}

/// Senior award progress: as the basic award, counting only members whose
/// membership tag carries the T or S suffix.
pub fn calculate_tribune_progress(
    contacts: Vec<(String, String, String, String, String, String)>,
) -> (r: (usize, Vec<(String, String, String, String)>))
    ensures
        r.1.deep_view() == progress_fold(contacts.deep_view(), 0, Seq::empty(), true),
        r.0 == r.1@.len(),
{
    let details = progress_details(&contacts, true);
    let count = details.len();
    (count, details)
}

/// The distinct non-empty strings of a list, first occurrences in order.
pub open spec fn seen_fold(ss: Seq<Seq<char>>, j: int, acc: Seq<Seq<char>>) -> Seq<Seq<char>>
    decreases ss.len() - j when 0 <= j
{
    if j >= ss.len() {
        acc
    } else {
        if ss[j].len() > 0 && !acc.contains(ss[j]) {
            seen_fold(ss, j + 1, acc.push(ss[j]))
        } else {
            seen_fold(ss, j + 1, acc)
        }
    }
}

/// Counts the distinct non-empty entries.
#[verifier::loop_isolation(false)]
pub fn count_unique_states(states: Vec<String>) -> (r: usize)
    ensures
        r == seen_fold(states.deep_view(), 0, Seq::empty()).len(),
{
    let ghost ss = states.deep_view();
    let mut seen: Vec<String> = Vec::new();
    let mut j: usize = 0;
    proof {
        assert(seen.deep_view() =~= Seq::<Seq<char>>::empty());
    }
    while j < states.len()
        invariant
            j <= states@.len(),
            ss.len() == states@.len(),
            seen_fold(ss, 0, Seq::empty()) == seen_fold(ss, j as int, seen.deep_view()),
        decreases states@.len() - j,
    {
        let s = &states[j];
        proof {
            assert(ss[j as int] == s@);
        }
        if !s.as_str().is_empty() {
            let mut found = false;
            let mut k: usize = 0;
            while k < seen.len()
                invariant
                    k <= seen@.len(),
                    found ==> seen.deep_view().contains(s@),
                    !found ==> forall|l: int| 0 <= l < k ==> seen.deep_view()[l] != s@,
                decreases seen@.len() - k,
            {
                if str_eq(seen[k].as_str(), s.as_str()) {
                    found = true;
                    proof {
                        assert(seen.deep_view()[k as int] == s@);
                    }
                }
                k += 1;
            }
            if !found {
                proof {
                    assert(!seen.deep_view().contains(s@));
                }
                let ghost before = seen.deep_view();
                seen.push(s.clone());
                proof {
                    assert(seen.deep_view() =~= before.push(s@));
                }
            } else {
                proof {
                    assert(seen.deep_view().contains(s@));
                }
            }
        }
        j += 1;
    }
    seen.len()
}

/// The distinct prefixes of a list of callsigns, first occurrences in order.
pub open spec fn prefix_fold(ss: Seq<Seq<char>>, j: int, acc: Seq<Seq<char>>) -> Seq<Seq<char>>
    decreases ss.len() - j when 0 <= j
{
    if j >= ss.len() {
        acc
    } else {
        match prefix_of(ss[j]) {
            Some(p) => if !acc.contains(p) {
                prefix_fold(ss, j + 1, acc.push(p))
            } else {
                prefix_fold(ss, j + 1, acc)
            },
            None => prefix_fold(ss, j + 1, acc),
        }
    }
}

/// Counts the distinct callsign prefixes, as `prefix_of` extracts them.
#[verifier::loop_isolation(false)]
pub fn count_unique_prefixes(callsigns: Vec<String>) -> (r: usize)
    ensures
        r == prefix_fold(callsigns.deep_view(), 0, Seq::empty()).len(),
{
    let ghost ss = callsigns.deep_view();
    let mut seen: Vec<String> = Vec::new();
    let mut j: usize = 0;
    proof {
        assert(seen.deep_view() =~= Seq::<Seq<char>>::empty());
    }
    while j < callsigns.len()
        invariant
            j <= callsigns@.len(),
            ss.len() == callsigns@.len(),
            prefix_fold(ss, 0, Seq::empty()) == prefix_fold(ss, j as int, seen.deep_view()),
        decreases callsigns@.len() - j,
    {
        let s = &callsigns[j];
        proof {
            assert(ss[j as int] == s@);
        }
        match extract_prefix(s.as_str()) {
            Some(p) => {
                let mut found = false;
                let mut k: usize = 0;
                while k < seen.len()
                    invariant
                        k <= seen@.len(),
                        found ==> seen.deep_view().contains(p@),
                        !found ==> forall|l: int| 0 <= l < k ==> seen.deep_view()[l] != p@,
                    decreases seen@.len() - k,
                {
                    if str_eq(seen[k].as_str(), p.as_str()) {
                        found = true;
                        proof {
                            assert(seen.deep_view()[k as int] == p@);
                        }
                    }
                    k += 1;
                }
                if !found {
                    proof {
                        assert(!seen.deep_view().contains(p@));
                    }
                    let ghost before = seen.deep_view();
                    seen.push(p);
                    proof {
                        assert(seen.deep_view() =~= before.push(prefix_of(ss[j as int])->0));
                    }
                } else {
                    proof {
                        assert(seen.deep_view().contains(p@));
                    }
                }
            },
            None => {},
        }
        j += 1;
    }
    seen.len()
}

} // verus!
