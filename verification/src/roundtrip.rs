//! The round-trip law: a record whose names are tag-safe and whose values
//! are non-empty and trimmed comes back field-for-field when its exported
//! text is parsed again.  Stated over the same spec functions the exporter
//! and the tokenizer are verified against.

use vstd::prelude::*;
use crate::adif::{
    field_text, format_record_spec, in_priority, is_len_stop, is_name_stop, len_end, name_end,
    ordered_fields_text, priority_at, remaining_fields_text, tokenize_from,
};
use crate::record::{record_of, rec_wf, spec_get, spec_insert};
use crate::text::{
    dec_str, find_from, is_digit_char, is_space_char, lemma_dec_str_digits,
    lemma_parse_len_of_dec_str, parse_len_spec, split_on, trim_end_spec, trim_spec,
    trim_start_spec, upper_seq,
};

verus! {

/// A name that survives the trip: non-empty, already uppercase, and free of
/// the three characters that end a name scan.
pub open spec fn exportable_name(n: Seq<char>) -> bool {
    &&& n.len() > 0
    &&& upper_seq(n) == n
    &&& forall|k: int| 0 <= k < n.len() ==> !is_name_stop(#[trigger] n[k])
}

/// A value that survives the trip: non-empty, equal to its own trim, and of
/// a length the length token can carry.
pub open spec fn exportable_value(v: Seq<char>) -> bool {
    &&& v.len() > 0
    &&& trim_spec(v) == v
    &&& v.len() <= usize::MAX
}

/// A record the round trip is promised for.
pub open spec fn exportable_record(m: Seq<(Seq<char>, Seq<char>)>) -> bool {
    &&& rec_wf(m)
    &&& forall|i: int| 0 <= i < m.len() ==> exportable_name((#[trigger] m[i]).0)
    &&& forall|i: int| 0 <= i < m.len() ==> exportable_value((#[trigger] m[i]).1)
}

proof fn lemma_name_run(s: Seq<char>, a: int, b: int)
    requires
        0 <= a <= b < s.len(),
        forall|k: int| a <= k < b ==> !is_name_stop(#[trigger] s[k]),
        is_name_stop(s[b]),
    ensures
        name_end(s, a) == b,
    decreases b - a,
{
    if a < b {
        lemma_name_run(s, a + 1, b);
    }
}

proof fn lemma_len_run(s: Seq<char>, a: int, b: int)
    requires
        0 <= a <= b < s.len(),
        forall|k: int| a <= k < b ==> !is_len_stop(#[trigger] s[k]),
        is_len_stop(s[b]),
    ensures
        len_end(s, a) == b,
    decreases b - a,
{
    if a < b {
        lemma_len_run(s, a + 1, b);
    }
}

/// One well-formed field at position `i` scans to exactly its pair, and the
/// scan resumes right after the field's trailing space.
proof fn lemma_tokenize_field(s: Seq<char>, i: int, n: Seq<char>, v: Seq<char>)
    requires
        0 <= i,
        i + field_text(n, v).len() <= s.len(),
        s.subrange(i, i + field_text(n, v).len() as int) == field_text(n, v),
        exportable_name(n),
        trim_spec(v) == v,
        v.len() <= usize::MAX,
    ensures
        tokenize_from(s, i) == seq![(n, v)] + tokenize_from(s, i + field_text(n, v).len()),
{
    let d = dec_str(v.len() as int);
    let ft = field_text(n, v);
    let nl = n.len() as int;
    let dl = d.len() as int;
    let vl = v.len() as int;
    let fl = ft.len() as int;
    lemma_dec_str_digits(v.len() as int);
    assert(fl == 4 + nl + dl + vl);
    assert forall|k: int| 0 <= k < fl implies s[i + k] == ft[k] by {
        assert(s.subrange(i, i + fl)[k] == s[i + k]);
    }
    assert(ft[0] == '<');
    assert(ft.subrange(1, 1 + nl) =~= n);
    assert(ft[1 + nl] == ':');
    assert(ft.subrange(2 + nl, 2 + nl + dl) =~= d);
    assert(ft[2 + nl + dl] == '>');
    assert(ft.subrange(3 + nl + dl, 3 + nl + dl + vl) =~= v);
    assert(ft[fl - 1] == ' ');
    assert(s[i] == '<');
    // the name scan stops at the ':' right after the name
    assert forall|k: int| i + 1 <= k < i + 1 + nl implies !is_name_stop(#[trigger] s[k]) by {
        assert(s[k] == ft[k - i]);
        assert(ft[k - i] == n[k - i - 1]);
    }
    assert(s[i + 1 + nl] == ':');
    lemma_name_run(s, i + 1, i + 1 + nl);
    let ne = i + 1 + nl;
    // the length scan stops at the '>' right after the digits
    assert forall|k: int| ne + 1 <= k < ne + 1 + dl implies !is_len_stop(#[trigger] s[k]) by {
        assert(s[k] == ft[k - i]);
        assert(ft[k - i] == d[k - i - 2 - nl]);
        assert(is_digit_char(d[k - i - 2 - nl]));
    }
    assert(s[ne + 1 + dl] == '>');
    lemma_len_run(s, ne + 1, ne + 1 + dl);
    let le = ne + 1 + dl;
    assert(s.subrange(ne + 1, le) =~= d);
    lemma_parse_len_of_dec_str(v.len() as int);
    assert(parse_len_spec(s.subrange(ne + 1, le)) == Some(vl));
    let ve = le + 1 + vl;
    assert(ve == i + fl - 1);
    assert(le + 1 + vl <= s.len());
    assert(s.subrange(le + 1, ve) =~= v);
    assert(s.subrange(i + 1, ne) =~= n);
    assert(tokenize_from(s, i)
        == seq![(upper_seq(n), trim_spec(v))] + tokenize_from(s, ve));
    assert(s[ve] == ' ');
    assert(tokenize_from(s, ve) == tokenize_from(s, i + fl));
    assert(seq![(upper_seq(n), trim_spec(v))] =~= seq![(n, v)]);
}

/// The text of a list of emitted pairs, one field after the other.
pub open spec fn pairs_text(ps: Seq<(Seq<char>, Seq<char>)>) -> Seq<char>
    decreases ps.len(),
{
    if ps.len() == 0 {
        Seq::empty()
    } else {
        field_text(ps[0].0, ps[0].1) + pairs_text(ps.drop_first())
    }
}

/// The pairs the priority part of the exporter emits, in order.
pub open spec fn ordered_pairs(m: Seq<(Seq<char>, Seq<char>)>, k: int) -> Seq<(Seq<char>, Seq<char>)>
    decreases 27 - k when k <= 27
{
    if k >= 27 {
        Seq::empty()
    } else {
        let rest = ordered_pairs(m, k + 1);
        match spec_get(m, priority_at(k)) {
            Some(v) => if v.len() > 0 { seq![(priority_at(k), v)] + rest } else { rest },
            None => rest,
        }
    }
}

/// The pairs the remaining part of the exporter emits, in insertion order.
pub open spec fn remaining_pairs(m: Seq<(Seq<char>, Seq<char>)>, j: int) -> Seq<(Seq<char>, Seq<char>)>
    decreases m.len() - j when 0 <= j
{
    if j >= m.len() {
        Seq::empty()
    } else {
        let rest = remaining_pairs(m, j + 1);
        if !in_priority(upper_seq(m[j].0)) && m[j].1.len() > 0 {
            seq![(upper_seq(m[j].0), m[j].1)] + rest
        } else {
            rest
        }
    }
}

pub open spec fn emitted_pairs(m: Seq<(Seq<char>, Seq<char>)>) -> Seq<(Seq<char>, Seq<char>)> {
    ordered_pairs(m, 0) + remaining_pairs(m, 0)
}

proof fn lemma_ordered_text(m: Seq<(Seq<char>, Seq<char>)>, k: int)
    requires
        k <= 27,
    ensures
        ordered_fields_text(m, k) == pairs_text(ordered_pairs(m, k)),
    decreases 27 - k,
{
    if k < 27 {
        lemma_ordered_text(m, k + 1);
        match spec_get(m, priority_at(k)) {
            Some(v) => {
                if v.len() > 0 {
                    let ps = seq![(priority_at(k), v)] + ordered_pairs(m, k + 1);
                    assert(ps.drop_first() =~= ordered_pairs(m, k + 1));
                    assert(pairs_text(ps)
                        == field_text(priority_at(k), v) + pairs_text(ordered_pairs(m, k + 1)));
                }
            },
            None => {},
        }
    }
}

proof fn lemma_remaining_text(m: Seq<(Seq<char>, Seq<char>)>, j: int)
    requires
        0 <= j,
    ensures
        remaining_fields_text(m, j) == pairs_text(remaining_pairs(m, j)),
    decreases m.len() - j,
{
    if j < m.len() {
        lemma_remaining_text(m, j + 1);
        if !in_priority(upper_seq(m[j].0)) && m[j].1.len() > 0 {
            let ps = seq![(upper_seq(m[j].0), m[j].1)] + remaining_pairs(m, j + 1);
            assert(ps.drop_first() =~= remaining_pairs(m, j + 1));
            assert(pairs_text(ps)
                == field_text(upper_seq(m[j].0), m[j].1) + pairs_text(remaining_pairs(m, j + 1)));
        }
    }
}

proof fn lemma_pairs_text_concat(a: Seq<(Seq<char>, Seq<char>)>, b: Seq<(Seq<char>, Seq<char>)>)
    ensures
        pairs_text(a + b) == pairs_text(a) + pairs_text(b),
    decreases a.len(),
{
    if a.len() == 0 {
        assert(a + b =~= b);
        assert(pairs_text(a) =~= Seq::<char>::empty());
        assert(pairs_text(a) + pairs_text(b) =~= pairs_text(b));
    } else {
        assert((a + b).drop_first() =~= a.drop_first() + b);
        lemma_pairs_text_concat(a.drop_first(), b);
        assert((a + b)[0] == a[0]);
        assert(pairs_text(a + b)
            == field_text(a[0].0, a[0].1) + (pairs_text(a.drop_first()) + pairs_text(b)));
        assert(field_text(a[0].0, a[0].1) + (pairs_text(a.drop_first()) + pairs_text(b))
            =~= (field_text(a[0].0, a[0].1) + pairs_text(a.drop_first())) + pairs_text(b));
    }
}

/// A run of well-formed fields scans to exactly its pairs.
proof fn lemma_tokenize_pairs(s: Seq<char>, i: int, ps: Seq<(Seq<char>, Seq<char>)>)
    requires
        0 <= i,
        i + pairs_text(ps).len() <= s.len(),
        s.subrange(i, i + pairs_text(ps).len() as int) == pairs_text(ps),
        forall|x: int| 0 <= x < ps.len() ==> exportable_name((#[trigger] ps[x]).0),
        forall|x: int| 0 <= x < ps.len() ==> trim_spec((#[trigger] ps[x]).1) == ps[x].1,
        forall|x: int| 0 <= x < ps.len() ==> (#[trigger] ps[x]).1.len() <= usize::MAX,
    ensures
        tokenize_from(s, i) == ps + tokenize_from(s, i + pairs_text(ps).len()),
    decreases ps.len(),
{
    if ps.len() == 0 {
        assert(ps + tokenize_from(s, i) =~= tokenize_from(s, i));
        assert(pairs_text(ps).len() == 0);
    } else {
        let p = ps[0];
        let ft = field_text(p.0, p.1);
        let rest = ps.drop_first();
        let pt = pairs_text(ps);
        assert(pt == ft + pairs_text(rest));
        assert forall|k: int| 0 <= k < pt.len() implies s[i + k] == pt[k] by {
            assert(s.subrange(i, i + pt.len())[k] == s[i + k]);
        }
        assert(s.subrange(i, i + ft.len() as int) =~= ft);
        lemma_tokenize_field(s, i, p.0, p.1);
        let i2 = i + ft.len();
        let prest = pairs_text(rest);
        assert forall|k: int| 0 <= k < prest.len()
            implies s.subrange(i2, i2 + prest.len() as int)[k] == prest[k] by {
            assert(s[i + (ft.len() + k)] == pt[ft.len() + k]);
            assert(pt[ft.len() + k] == prest[k]);
            assert(s.subrange(i2, i2 + prest.len() as int)[k] == s[i2 + k]);
            assert(i2 + k == i + (ft.len() + k));
        }
        assert(s.subrange(i2, i2 + prest.len() as int) =~= prest);
        assert(forall|x: int| 0 <= x < rest.len() ==> rest[x] == ps[x + 1]);
        lemma_tokenize_pairs(s, i2, rest);
        assert(tokenize_from(s, i)
            == seq![p] + (rest + tokenize_from(s, i + pt.len())));
        assert(seq![p] + (rest + tokenize_from(s, i + pt.len()))
            =~= ps + tokenize_from(s, i + pt.len()));
    }
}

/// The record sentinel at the very end scans to nothing.
proof fn lemma_tokenize_eor(s: Seq<char>, i: int)
    requires
        0 <= i,
        i + 5 == s.len(),
        s.subrange(i, s.len() as int) == "<EOR>"@,
    ensures
        tokenize_from(s, i) == Seq::<(Seq<char>, Seq<char>)>::empty(),
{
    reveal_strlit("<EOR>");
    assert("<EOR>"@.len() == 5);
    assert(s.subrange(i, i + 5) == "<EOR>"@);
    assert(s[i] == "<EOR>"@[0]) by { assert(s.subrange(i, i + 5)[0] == s[i]); }
    assert(s[i + 1] == "<EOR>"@[1]) by { assert(s.subrange(i, i + 5)[1] == s[i + 1]); }
    assert(s[i + 2] == "<EOR>"@[2]) by { assert(s.subrange(i, i + 5)[2] == s[i + 2]); }
    assert(s[i + 3] == "<EOR>"@[3]) by { assert(s.subrange(i, i + 5)[3] == s[i + 3]); }
    assert(s[i + 4] == "<EOR>"@[4]) by { assert(s.subrange(i, i + 5)[4] == s[i + 4]); }
    assert(s[i] == '<');
    assert(s[i + 1] == 'E');
    assert(s[i + 2] == 'O');
    assert(s[i + 3] == 'R');
    assert(s[i + 4] == '>');
    assert forall|k: int| i + 1 <= k < i + 4 implies !is_name_stop(#[trigger] s[k]) by {}
    lemma_name_run(s, i + 1, i + 4);
    assert(tokenize_from(s, i) == tokenize_from(s, i + 5));
}

/// The value stored under the last pair named `n`, if any: what a list of
/// raw fields leaves in the assembled record.
pub open spec fn last_value(l: Seq<(Seq<char>, Seq<char>)>, n: Seq<char>) -> Option<Seq<char>>
    decreases l.len(),
{
    if l.len() == 0 {
        None
    } else if l.last().0 == n {
        Some(l.last().1)
    } else {
        last_value(l.drop_last(), n)
    }
}

proof fn lemma_insert_get(
    r: Seq<(Seq<char>, Seq<char>)>,
    n0: Seq<char>,
    v0: Seq<char>,
    n: Seq<char>,
)
    ensures
        spec_get(spec_insert(r, n0, v0), n)
            == if n == n0 { Some(v0) } else { spec_get(r, n) },
    decreases r.len(),
{
    if r.len() == 0 {
        assert(spec_insert(r, n0, v0) == seq![(n0, v0)]);
        assert(seq![(n0, v0)][0] == (n0, v0));
        if n != n0 {
            assert(seq![(n0, v0)].drop_first() =~= Seq::<(Seq<char>, Seq<char>)>::empty());
            assert(spec_get(seq![(n0, v0)].drop_first(), n) is None);
        }
    } else if r[0].0 == n0 {
        let l = seq![(n0, v0)] + r.drop_first();
        assert(spec_insert(r, n0, v0) == l);
        assert(l[0] == (n0, v0));
        assert(l.drop_first() =~= r.drop_first());
        if n != n0 {
            assert(spec_get(l, n) == spec_get(r.drop_first(), n));
            assert(spec_get(r, n) == spec_get(r.drop_first(), n));
        }
    } else {
        lemma_insert_get(r.drop_first(), n0, v0, n);
        let l = seq![r[0]] + spec_insert(r.drop_first(), n0, v0);
        assert(spec_insert(r, n0, v0) == l);
        assert(l[0] == r[0]);
        assert(l.len() > 0);
        assert(l.drop_first() =~= spec_insert(r.drop_first(), n0, v0));
        if r[0].0 == n {
            assert(spec_get(l, n) == Some(r[0].1));
            assert(spec_get(r, n) == Some(r[0].1));
        } else {
            assert(spec_get(l, n) == spec_get(spec_insert(r.drop_first(), n0, v0), n));
            assert(spec_get(r, n) == spec_get(r.drop_first(), n));
        }
    }
}

/// Assembling raw fields and then looking a name up yields the value of the
/// last field with that name.
proof fn lemma_record_of_get(l: Seq<(Seq<char>, Seq<char>)>, n: Seq<char>)
    ensures
        spec_get(record_of(l), n) == last_value(l, n),
    decreases l.len(),
{
    if l.len() == 0 {
        assert(record_of(l) =~= Seq::<(Seq<char>, Seq<char>)>::empty());
    } else {
        lemma_record_of_get(l.drop_last(), n);
        lemma_insert_get(record_of(l.drop_last()), l.last().0, l.last().1, n);
    }
}

proof fn lemma_last_value_same(l: Seq<(Seq<char>, Seq<char>)>, n: Seq<char>, v: Seq<char>)
    requires
        forall|x: int| 0 <= x < l.len() && (#[trigger] l[x]).0 == n ==> l[x].1 == v,
        exists|x: int| 0 <= x < l.len() && (#[trigger] l[x]).0 == n,
    ensures
        last_value(l, n) == Some(v),
    decreases l.len(),
{
    if l.last().0 == n {
    } else {
        let x = choose|x: int| 0 <= x < l.len() && (#[trigger] l[x]).0 == n;
        assert(0 <= x < l.len() - 1);
        assert(l.drop_last()[x].0 == n);
        lemma_last_value_same(l.drop_last(), n, v);
    }
}

proof fn lemma_last_value_absent(l: Seq<(Seq<char>, Seq<char>)>, n: Seq<char>)
    requires
        forall|x: int| 0 <= x < l.len() ==> (#[trigger] l[x]).0 != n,
    ensures
        last_value(l, n) is None,
    decreases l.len(),
{
    if l.len() > 0 {
        lemma_last_value_absent(l.drop_last(), n);
    }
}

/// A stored value belongs to some field of the record.
proof fn lemma_spec_get_index(m: Seq<(Seq<char>, Seq<char>)>, n: Seq<char>)
    requires
        spec_get(m, n) is Some,
    ensures
        exists|j: int| 0 <= j < m.len() && (#[trigger] m[j]).0 == n
            && m[j].1 == spec_get(m, n)->0,
    decreases m.len(),
{
    if m[0].0 == n {
        assert(m[0].0 == n && m[0].1 == spec_get(m, n)->0);
    } else {
        lemma_spec_get_index(m.drop_first(), n);
        let j = choose|j: int| 0 <= j < m.drop_first().len()
            && (#[trigger] m.drop_first()[j]).0 == n && m.drop_first()[j].1 == spec_get(m.drop_first(), n)->0;
        assert(m[j + 1].0 == n && m[j + 1].1 == spec_get(m, n)->0);
    }
}

/// Every pair the priority part emits is a stored, non-empty field.
proof fn lemma_ordered_chars(m: Seq<(Seq<char>, Seq<char>)>, k: int)
    requires
        k <= 27,
    ensures
        forall|x: int| 0 <= x < ordered_pairs(m, k).len()
            ==> spec_get(m, (#[trigger] ordered_pairs(m, k)[x]).0)
                == Some(ordered_pairs(m, k)[x].1)
                && ordered_pairs(m, k)[x].1.len() > 0,
    decreases 27 - k,
{
    if k < 27 {
        lemma_ordered_chars(m, k + 1);
        let rest = ordered_pairs(m, k + 1);
        match spec_get(m, priority_at(k)) {
            Some(v) => {
                if v.len() > 0 {
                    let ps = seq![(priority_at(k), v)] + rest;
                    assert(forall|x: int| 1 <= x < ps.len() ==> ps[x] == rest[x - 1]);
                }
            },
            None => {},
        }
    }
}

/// Every pair the remaining part emits is a stored, non-empty field.
proof fn lemma_remaining_chars(m: Seq<(Seq<char>, Seq<char>)>, j: int)
    requires
        0 <= j,
        rec_wf(m),
    ensures
        forall|x: int| 0 <= x < remaining_pairs(m, j).len()
            ==> spec_get(m, (#[trigger] remaining_pairs(m, j)[x]).0)
                == Some(remaining_pairs(m, j)[x].1)
                && remaining_pairs(m, j)[x].1.len() > 0,
    decreases m.len() - j,
{
    if j < m.len() {
        lemma_remaining_chars(m, j + 1);
        let rest = remaining_pairs(m, j + 1);
        if !in_priority(upper_seq(m[j].0)) && m[j].1.len() > 0 {
            let ps = seq![(upper_seq(m[j].0), m[j].1)] + rest;
            assert(upper_seq(m[j].0) == m[j].0);
            crate::record::lemma_spec_get_at(m, m[j].0, j);
            assert(forall|x: int| 1 <= x < ps.len() ==> ps[x] == rest[x - 1]);
        }
    }
}

/// A present, non-empty priority field is emitted by the priority part.
proof fn lemma_ordered_contains(m: Seq<(Seq<char>, Seq<char>)>, k: int, k0: int)
    requires
        0 <= k <= k0 < 27,
        spec_get(m, priority_at(k0)) is Some,
        spec_get(m, priority_at(k0))->0.len() > 0,
    ensures
        exists|x: int| 0 <= x < ordered_pairs(m, k).len()
            && (#[trigger] ordered_pairs(m, k)[x]).0 == priority_at(k0),
    decreases 27 - k,
{
    let rest = ordered_pairs(m, k + 1);
    if k == k0 {
        let v = spec_get(m, priority_at(k))->0;
        let ps = seq![(priority_at(k), v)] + rest;
        assert(ordered_pairs(m, k) == ps);
        assert(ordered_pairs(m, k)[0].0 == priority_at(k0));
    } else {
        lemma_ordered_contains(m, k + 1, k0);
        let x = choose|x: int| 0 <= x < rest.len()
            && (#[trigger] rest[x]).0 == priority_at(k0);
        match spec_get(m, priority_at(k)) {
            Some(v) => {
                if v.len() > 0 {
                    let ps = seq![(priority_at(k), v)] + rest;
                    assert(ordered_pairs(m, k) == ps);
                    assert(ordered_pairs(m, k)[x + 1].0 == priority_at(k0));
                } else {
                    assert(ordered_pairs(m, k)[x].0 == priority_at(k0));
                }
            },
            None => {
                assert(ordered_pairs(m, k)[x].0 == priority_at(k0));
            },
        }
    }
}

/// A stored, non-empty field off the priority list is emitted by the
/// remaining part.
proof fn lemma_remaining_contains(m: Seq<(Seq<char>, Seq<char>)>, j: int, j0: int)
    requires
        0 <= j <= j0 < m.len(),
        rec_wf(m),
        !in_priority(upper_seq(m[j0].0)),
        m[j0].1.len() > 0,
    ensures
        exists|x: int| 0 <= x < remaining_pairs(m, j).len()
            && (#[trigger] remaining_pairs(m, j)[x]).0 == m[j0].0,
    decreases m.len() - j,
{
    let rest = remaining_pairs(m, j + 1);
    if j == j0 {
        let ps = seq![(upper_seq(m[j].0), m[j].1)] + rest;
        assert(remaining_pairs(m, j) == ps);
        assert(upper_seq(m[j].0) == m[j].0);
        assert(remaining_pairs(m, j)[0].0 == m[j0].0);
    } else {
        lemma_remaining_contains(m, j + 1, j0);
        let x = choose|x: int| 0 <= x < rest.len() && (#[trigger] rest[x]).0 == m[j0].0;
        if !in_priority(upper_seq(m[j].0)) && m[j].1.len() > 0 {
            let ps = seq![(upper_seq(m[j].0), m[j].1)] + rest;
            assert(remaining_pairs(m, j) == ps);
            assert(remaining_pairs(m, j)[x + 1].0 == m[j0].0);
        } else {
            assert(remaining_pairs(m, j)[x].0 == m[j0].0);
        }
    }
}

/// Every pair the exporter emits carries a stored, non-empty value of the
/// record.
proof fn lemma_emitted_stored(m: Seq<(Seq<char>, Seq<char>)>)
    requires
        rec_wf(m),
    ensures
        forall|x: int| 0 <= x < emitted_pairs(m).len()
            ==> spec_get(m, (#[trigger] emitted_pairs(m)[x]).0) == Some(emitted_pairs(m)[x].1)
                && emitted_pairs(m)[x].1.len() > 0,
{
    let ep = emitted_pairs(m);
    lemma_ordered_chars(m, 0);
    lemma_remaining_chars(m, 0);
    assert forall|x: int| 0 <= x < ep.len() implies
        spec_get(m, (#[trigger] ep[x]).0) == Some(ep[x].1) && ep[x].1.len() > 0 by {
        if x < ordered_pairs(m, 0).len() {
            assert(ep[x] == ordered_pairs(m, 0)[x]);
        } else {
            assert(ep[x] == remaining_pairs(m, 0)[x - ordered_pairs(m, 0).len()]);
        }
    }
}

/// Every pair the exporter emits meets the scan lemma's conditions.
proof fn lemma_emitted_ok(m: Seq<(Seq<char>, Seq<char>)>)
    requires
        exportable_record(m),
    ensures
        forall|x: int| 0 <= x < emitted_pairs(m).len()
            ==> exportable_name((#[trigger] emitted_pairs(m)[x]).0),
        forall|x: int| 0 <= x < emitted_pairs(m).len()
            ==> trim_spec((#[trigger] emitted_pairs(m)[x]).1) == emitted_pairs(m)[x].1,
        forall|x: int| 0 <= x < emitted_pairs(m).len()
            ==> (#[trigger] emitted_pairs(m)[x]).1.len() <= usize::MAX,
{
    let ep = emitted_pairs(m);
    lemma_emitted_stored(m);
    assert forall|x: int| 0 <= x < ep.len() implies exportable_name((#[trigger] ep[x]).0)
        && trim_spec(ep[x].1) == ep[x].1 && ep[x].1.len() <= usize::MAX by {
        lemma_spec_get_index(m, ep[x].0);
        let j = choose|j: int| 0 <= j < m.len() && (#[trigger] m[j]).0 == ep[x].0
            && m[j].1 == spec_get(m, ep[x].0)->0;
        assert(exportable_name(m[j].0));
        assert(exportable_value(m[j].1));
    }
}

/// Assembling the emitted pairs into a record preserves every lookup.
proof fn lemma_emitted_gets(m: Seq<(Seq<char>, Seq<char>)>)
    requires
        exportable_record(m),
    ensures
        forall|n: Seq<char>| spec_get(record_of(emitted_pairs(m)), n) == spec_get(m, n),
{
    let ep = emitted_pairs(m);
    lemma_emitted_stored(m);
    assert forall|n: Seq<char>| spec_get(record_of(ep), n) == spec_get(m, n) by {
        lemma_record_of_get(ep, n);
        match spec_get(m, n) {
            Some(v) => {
                lemma_spec_get_index(m, n);
                let j = choose|j: int| 0 <= j < m.len() && (#[trigger] m[j]).0 == n
                    && m[j].1 == spec_get(m, n)->0;
                assert(exportable_value(m[j].1));
                assert(v.len() > 0);
                if in_priority(n) {
                    let k0 = choose|k0: int| 0 <= k0 < 27 && priority_at(k0) == n;
                    lemma_ordered_contains(m, 0, k0);
                    let x = choose|x: int| 0 <= x < ordered_pairs(m, 0).len()
                        && (#[trigger] ordered_pairs(m, 0)[x]).0 == n;
                    assert(ep[x].0 == n);
                } else {
                    assert(upper_seq(m[j].0) == m[j].0);
                    lemma_remaining_contains(m, 0, j);
                    let x = choose|x: int| 0 <= x < remaining_pairs(m, 0).len()
                        && (#[trigger] remaining_pairs(m, 0)[x]).0 == n;
                    assert(ep[x + ordered_pairs(m, 0).len()].0 == n);
                }
                assert(exists|x: int| 0 <= x < ep.len() && (#[trigger] ep[x]).0 == n);
                lemma_last_value_same(ep, n, v);
            },
            None => {
                assert forall|x: int| 0 <= x < ep.len() implies (#[trigger] ep[x]).0 != n by {
                    if ep[x].0 == n {
                        assert(spec_get(m, n) == Some(ep[x].1));
                    }
                }
                lemma_last_value_absent(ep, n);
            },
        }
    }
}

/// The round-trip law at the record level: parsing the exported text of an
/// exportable record yields a record with exactly the same fields, name for
/// name.  Values that are empty or not trimmed, and names holding a tag
/// delimiter, are excluded: the exporter deliberately drops or rewrites
/// those.
pub proof fn lemma_format_parse_round_trip(m: Seq<(Seq<char>, Seq<char>)>)
    requires
        exportable_record(m),
    ensures
        forall|n: Seq<char>|
            spec_get(record_of(tokenize_from(format_record_spec(m), 0)), n)
                == spec_get(m, n),
{
    let ep = emitted_pairs(m);
    let body = pairs_text(ep);
    let full = format_record_spec(m);
    lemma_ordered_text(m, 0);
    lemma_remaining_text(m, 0);
    lemma_pairs_text_concat(ordered_pairs(m, 0), remaining_pairs(m, 0));
    assert(full =~= body + "<EOR>"@);
    lemma_emitted_ok(m);
    reveal_strlit("<EOR>");
    assert(full.subrange(0, body.len() as int) =~= body);
    lemma_tokenize_pairs(full, 0, ep);
    assert(full.subrange(body.len() as int, full.len() as int) =~= "<EOR>"@);
    lemma_tokenize_eor(full, body.len() as int);
    assert(tokenize_from(full, 0) =~= ep);
    lemma_emitted_gets(m);
}

/// Free of the tag-opening character, so no sentinel can start inside.
pub open spec fn free_of_lt(s: Seq<char>) -> bool {
    forall|k: int| 0 <= k < s.len() ==> (#[trigger] s[k]) != '<'
}

/// A name fit for a tag, uppercase or not: non-empty and free of the three
/// delimiters.
pub open spec fn tag_name_ok(n: Seq<char>) -> bool {
    n.len() > 0 && forall|k: int| 0 <= k < n.len() ==> !is_name_stop(#[trigger] n[k])
}

/// No occurrence of the five-character sentinel starts in `s`: every `<`
/// has four more characters after it inside `s`, and they do not spell the
/// sentinel.  Closed under concatenation, and strong enough to rule out
/// occurrences spanning a boundary.
spec fn no_sent(s: Seq<char>, sent: Seq<char>) -> bool {
    forall|p: int| 0 <= p < s.len() && (#[trigger] s[p]) == '<'
        ==> p + 5 <= s.len() && s.subrange(p, p + 5) != sent
}

/// The shape both sentinels share, as far as the tag analysis needs it.
spec fn sent_shape(sent: Seq<char>) -> bool {
    sent.len() == 5 && sent[0] == '<' && sent[2] != ':' && sent[3] != ':' && sent[4] == '>'
}

proof fn lemma_no_sent_of_lt_free(s: Seq<char>, sent: Seq<char>)
    requires
        free_of_lt(s),
    ensures
        no_sent(s, sent),
{
}

proof fn lemma_no_sent_concat(a: Seq<char>, b: Seq<char>, sent: Seq<char>)
    requires
        no_sent(a, sent),
        no_sent(b, sent),
    ensures
        no_sent(a + b, sent),
{
    let s = a + b;
    assert forall|p: int| 0 <= p < s.len() && (#[trigger] s[p]) == '<'
        implies p + 5 <= s.len() && s.subrange(p, p + 5) != sent by {
        if p < a.len() {
            assert(a[p] == '<');
            assert(s.subrange(p, p + 5) =~= a.subrange(p, p + 5));
        } else {
            let q = p - a.len();
            assert(b[q] == '<');
            assert(s.subrange(p, p + 5) =~= b.subrange(q, q + 5));
        }
    }
}

/// A whole tag — `<` name `:` length `>` value and one trailing character —
/// holds no sentinel start: its only `<` opens the tag itself, and a
/// tag-safe name cannot spell a sentinel.
proof fn lemma_tag_no_sent(n: Seq<char>, v: Seq<char>, tail: char, sent: Seq<char>)
    requires
        tag_name_ok(n),
        free_of_lt(v),
        tail != '<',
        sent_shape(sent),
    ensures
        no_sent(
            seq!['<'] + n + seq![':'] + dec_str(v.len() as int) + seq!['>'] + v + seq![tail],
            sent,
        ),
{
    let d = dec_str(v.len() as int);
    let t = seq!['<'] + n + seq![':'] + d + seq!['>'] + v + seq![tail];
    let nl = n.len() as int;
    let dl = d.len() as int;
    let vl = v.len() as int;
    lemma_dec_str_digits(v.len() as int);
    assert(t.len() == 4 + nl + dl + vl);
    assert(t[0] == '<');
    assert forall|k: int| 0 <= k < nl implies t[1 + k] == n[k] by {
        assert(t.subrange(1, 1 + nl) =~= n);
        assert(t.subrange(1, 1 + nl)[k] == t[1 + k]);
    }
    assert(t[1 + nl] == ':');
    assert forall|k: int| 0 <= k < dl implies t[2 + nl + k] == d[k] by {
        assert(t.subrange(2 + nl, 2 + nl + dl) =~= d);
        assert(t.subrange(2 + nl, 2 + nl + dl)[k] == t[2 + nl + k]);
    }
    assert(t[2 + nl + dl] == '>');
    assert forall|k: int| 0 <= k < vl implies t[3 + nl + dl + k] == v[k] by {
        assert(t.subrange(3 + nl + dl, 3 + nl + dl + vl) =~= v);
        assert(t.subrange(3 + nl + dl, 3 + nl + dl + vl)[k] == t[3 + nl + dl + k]);
    }
    assert(t[t.len() - 1] == tail);
    assert forall|p: int| 0 <= p < t.len() && (#[trigger] t[p]) == '<' implies p == 0 by {
        if p != 0 {
            if 1 <= p < 1 + nl {
                assert(t[p] == n[p - 1]);
                assert(!is_name_stop(n[p - 1]));
            } else if p == 1 + nl {
                assert(t[p] == ':');
            } else if 2 + nl <= p < 2 + nl + dl {
                assert(t[p] == d[p - 2 - nl]);
                assert(is_digit_char(d[p - 2 - nl]));
            } else if p == 2 + nl + dl {
                assert(t[p] == '>');
            } else if 3 + nl + dl <= p < 3 + nl + dl + vl {
                assert(t[p] == v[p - 3 - nl - dl]);
            } else {
                assert(p == t.len() - 1);
            }
        }
    }
    assert forall|p: int| 0 <= p < t.len() && (#[trigger] t[p]) == '<'
        implies p + 5 <= t.len() && t.subrange(p, p + 5) != sent by {
        assert(p == 0);
        assert(t.len() >= 6);
        let pre = t.subrange(0, 5);
        assert(forall|k: int| 0 <= k < 5 ==> pre[k] == t[k]);
        if nl >= 4 {
            assert(pre[4] == n[3]);
            assert(!is_name_stop(n[3]));
            assert(pre[4] != sent[4]);
        } else if nl == 3 {
            assert(pre[4] == ':');
            assert(pre[4] != sent[4]);
        } else if nl == 2 {
            assert(pre[3] == ':');
            assert(pre[3] != sent[3]);
        } else {
            assert(nl == 1);
            assert(pre[2] == ':');
            assert(pre[2] != sent[2]);
        }
    }
}

/// The sentinel in `a + sent + b` with a sentinel-free `a` is found exactly
/// at the seam.
proof fn lemma_find_sentinel(s: Seq<char>, a: Seq<char>, b: Seq<char>, sent: Seq<char>)
    requires
        s == a + sent + b,
        no_sent(a, sent),
        sent.len() == 5,
        sent[0] == '<',
    ensures
        find_from(s, sent, 0) == Some(a.len() as int),
{
    let al = a.len() as int;
    assert(s.subrange(al, al + 5) =~= sent);
    assert forall|k: int| 0 <= k < al implies #[trigger] s.subrange(k, k + 5) != sent by {
        if s.subrange(k, k + 5) == sent {
            assert(s.subrange(k, k + 5)[0] == s[k]);
            assert(s[k] == '<');
            assert(a[k] == '<');
            assert(k + 5 <= al && a.subrange(k, k + 5) != sent);
            assert(s.subrange(k, k + 5) =~= a.subrange(k, k + 5));
        }
    }
    crate::text::lemma_find_from_exact(s, sent, 0, al);
}

/// The emitted body of a non-empty exportable record ends in its one
/// trailing space, with a non-space before it.
proof fn lemma_pairs_text_shape(ps: Seq<(Seq<char>, Seq<char>)>)
    requires
        ps.len() > 0,
        forall|x: int| 0 <= x < ps.len() ==> exportable_name((#[trigger] ps[x]).0),
        forall|x: int| 0 <= x < ps.len() ==> trim_spec((#[trigger] ps[x]).1) == ps[x].1,
        forall|x: int| 0 <= x < ps.len() ==> (#[trigger] ps[x]).1.len() > 0,
    ensures
        pairs_text(ps).len() >= 2,
        pairs_text(ps).last() == ' ',
        !is_space_char(pairs_text(ps)[pairs_text(ps).len() - 2]),
        pairs_text(ps)[0] == '<',
    decreases ps.len(),
{
    let p = ps[0];
    let ft = field_text(p.0, p.1);
    let v = p.1;
    assert(pairs_text(ps) == ft + pairs_text(ps.drop_first()));
    assert(ft[0] == '<');
    assert(pairs_text(ps)[0] == ft[0]);
    if ps.len() == 1 {
        assert(pairs_text(ps.drop_first()).len() == 0) by {
            assert(ps.drop_first().len() == 0);
        }
        assert(pairs_text(ps) =~= ft);
        let fl = ft.len() as int;
        let nl = p.0.len() as int;
        let dl = dec_str(v.len() as int).len() as int;
        assert(fl == 4 + nl + dl + v.len());
        assert(ft[fl - 1] == ' ');
        assert(ft.subrange(3 + nl + dl, 3 + nl + dl + v.len() as int) =~= v);
        assert(ft[fl - 2] == v[v.len() - 1]) by {
            assert(ft.subrange(3 + nl + dl, 3 + nl + dl + v.len() as int)[v.len() - 1]
                == ft[3 + nl + dl + v.len() - 1]);
        }
        // a trimmed, non-empty value does not end in whitespace
        assert(!is_space_char(v[v.len() - 1])) by {
            lemma_trim_end_no_tail_space(trim_start_spec(v));
        }
    } else {
        let rest = ps.drop_first();
        assert(forall|x: int| 0 <= x < rest.len() ==> rest[x] == ps[x + 1]);
        lemma_pairs_text_shape(rest);
        let rt = pairs_text(rest);
        assert(pairs_text(ps).last() == rt.last());
        assert(pairs_text(ps)[pairs_text(ps).len() - 2] == rt[rt.len() - 2]);
    }
}

/// What the end-trim leaves never ends in whitespace.
proof fn lemma_trim_end_no_tail_space(x: Seq<char>)
    ensures
        trim_end_spec(x).len() == 0 || !is_space_char(trim_end_spec(x).last()),
    decreases x.len(),
{
    if x.len() > 0 && is_space_char(x[x.len() - 1]) {
        lemma_trim_end_no_tail_space(x.drop_last());
    }
}

/// An uppercase folding keeps a name tag-safe.
proof fn lemma_upper_name_ok(n: Seq<char>)
    requires
        tag_name_ok(n),
    ensures
        tag_name_ok(upper_seq(n)),
{
    assert forall|k: int| 0 <= k < upper_seq(n).len()
        implies !is_name_stop(#[trigger] upper_seq(n)[k]) by {
        assert(!is_name_stop(n[k]));
    }
}

/// The emitted header fields hold no sentinel start.
proof fn lemma_header_fields_no_sent(h: Seq<(Seq<char>, Seq<char>)>, j: int, sent: Seq<char>)
    requires
        0 <= j,
        sent_shape(sent),
        forall|k: int| 0 <= k < h.len() ==> tag_name_ok((#[trigger] h[k]).0),
        forall|k: int| 0 <= k < h.len() ==> free_of_lt((#[trigger] h[k]).1),
    ensures
        no_sent(crate::adif::header_fields_text(h, j), sent),
    decreases h.len() - j,
{
    if j < h.len() {
        lemma_header_fields_no_sent(h, j + 1, sent);
        lemma_upper_name_ok(h[j].0);
        lemma_tag_no_sent(upper_seq(h[j].0), h[j].1, '\n', sent);
        assert(no_sent(crate::adif::header_tag_text(upper_seq(h[j].0), h[j].1), sent));
        lemma_no_sent_concat(
            crate::adif::header_tag_text(upper_seq(h[j].0), h[j].1),
            crate::adif::header_fields_text(h, j + 1),
            sent,
        );
    }
}

/// The emitted record body holds no sentinel start.
proof fn lemma_pairs_text_no_sent(ps: Seq<(Seq<char>, Seq<char>)>, sent: Seq<char>)
    requires
        sent_shape(sent),
        forall|x: int| 0 <= x < ps.len() ==> exportable_name((#[trigger] ps[x]).0),
        forall|x: int| 0 <= x < ps.len() ==> free_of_lt((#[trigger] ps[x]).1),
    ensures
        no_sent(pairs_text(ps), sent),
    decreases ps.len(),
{
    if ps.len() > 0 {
        let rest = ps.drop_first();
        assert(forall|x: int| 0 <= x < rest.len() ==> rest[x] == ps[x + 1]);
        lemma_pairs_text_no_sent(rest, sent);
        lemma_tag_no_sent(ps[0].0, ps[0].1, ' ', sent);
        assert(no_sent(field_text(ps[0].0, ps[0].1), sent));
        lemma_no_sent_concat(field_text(ps[0].0, ps[0].1), pairs_text(rest), sent);
    }
}

/// A well-formed field whose trailing space was trimmed away, standing at
/// the very end of the text, still scans to exactly its pair.
proof fn lemma_tokenize_last_field(s: Seq<char>, i: int, n: Seq<char>, v: Seq<char>)
    requires
        0 <= i,
        s.len() == i + field_text(n, v).len() - 1,
        s.subrange(i, s.len() as int) == field_text(n, v).subrange(
            0, field_text(n, v).len() - 1),
        exportable_name(n),
        trim_spec(v) == v,
        v.len() <= usize::MAX,
    ensures
        tokenize_from(s, i) == seq![(n, v)],
{
    let d = dec_str(v.len() as int);
    let ft = field_text(n, v);
    let nl = n.len() as int;
    let dl = d.len() as int;
    let vl = v.len() as int;
    let fl = ft.len() as int;
    lemma_dec_str_digits(v.len() as int);
    assert(fl == 4 + nl + dl + vl);
    assert forall|k: int| 0 <= k < fl - 1 implies s[i + k] == ft[k] by {
        assert(s.subrange(i, s.len() as int)[k] == s[i + k]);
        assert(ft.subrange(0, fl - 1)[k] == ft[k]);
    }
    assert(ft[0] == '<');
    assert(ft.subrange(1, 1 + nl) =~= n);
    assert(ft[1 + nl] == ':');
    assert(ft.subrange(2 + nl, 2 + nl + dl) =~= d);
    assert(ft[2 + nl + dl] == '>');
    assert(ft.subrange(3 + nl + dl, 3 + nl + dl + vl) =~= v);
    assert(s[i] == '<');
    assert forall|k: int| i + 1 <= k < i + 1 + nl implies !is_name_stop(#[trigger] s[k]) by {
        assert(s[k] == ft[k - i]);
        assert(ft[k - i] == n[k - i - 1]);
    }
    assert(s[i + 1 + nl] == ':');
    lemma_name_run(s, i + 1, i + 1 + nl);
    let ne = i + 1 + nl;
    assert forall|k: int| ne + 1 <= k < ne + 1 + dl implies !is_len_stop(#[trigger] s[k]) by {
        assert(s[k] == ft[k - i]);
        assert(ft[k - i] == d[k - i - 2 - nl]);
        assert(is_digit_char(d[k - i - 2 - nl]));
    }
    assert(s[ne + 1 + dl] == '>');
    lemma_len_run(s, ne + 1, ne + 1 + dl);
    let le = ne + 1 + dl;
    assert(s.subrange(ne + 1, le) =~= d);
    lemma_parse_len_of_dec_str(v.len() as int);
    assert(parse_len_spec(s.subrange(ne + 1, le)) == Some(vl));
    let ve = le + 1 + vl;
    assert(ve == s.len());
    assert(s.subrange(le + 1, ve) =~= v);
    assert(s.subrange(i + 1, ne) =~= n);
    assert(tokenize_from(s, ve) =~= Seq::<(Seq<char>, Seq<char>)>::empty());
    assert(tokenize_from(s, i)
        == seq![(upper_seq(n), trim_spec(v))] + tokenize_from(s, ve));
    assert(seq![(upper_seq(n), trim_spec(v))] + tokenize_from(s, ve) =~= seq![(n, v)]);
}

/// Assembling at least one raw field leaves at least one stored field.
proof fn lemma_record_of_nonempty(l: Seq<(Seq<char>, Seq<char>)>)
    requires
        l.len() > 0,
    ensures
        record_of(l).len() > 0,
{
    let r = record_of(l.drop_last());
    assert(record_of(l) == spec_insert(r, l.last().0, l.last().1));
    if r.len() == 0 {
    } else if r[0].0 == l.last().0 {
        assert(spec_insert(r, l.last().0, l.last().1).len() == r.len());
    } else {
        assert(spec_insert(r, l.last().0, l.last().1).len()
            == 1 + spec_insert(r.drop_first(), l.last().0, l.last().1).len());
    }
}

/// The records that parsing an exported document yields.
pub open spec fn parsed_export_records(
    m: Seq<(Seq<char>, Seq<char>)>,
    h: Seq<(Seq<char>, Seq<char>)>,
    pid: Seq<char>,
    pver: Seq<char>,
) -> Seq<Seq<(Seq<char>, Seq<char>)>> {
    crate::adif::records_of_chunks(split_on(
        crate::adif::adi_records_text(
            crate::adif::export_adi_spec(seq![m], Some(h), pid, pver)),
        "<EOR>"@,
    ))
}

/// The round-trip law for a whole document: exporting one exportable record
/// with a header and parsing the text back yields exactly one record, and
/// it stores the same value as the original under every name.  The header
/// names must be tag-safe and no header value, program id or version may
/// hold the tag opener, since any of those could forge a sentinel.
pub proof fn lemma_export_parse_round_trip(
    m: Seq<(Seq<char>, Seq<char>)>,
    h: Seq<(Seq<char>, Seq<char>)>,
    pid: Seq<char>,
    pver: Seq<char>,
)
    requires
        exportable_record(m),
        m.len() > 0,
        forall|i: int| 0 <= i < m.len() ==> free_of_lt((#[trigger] m[i]).1),
        forall|k: int| 0 <= k < h.len() ==> tag_name_ok((#[trigger] h[k]).0),
        forall|k: int| 0 <= k < h.len() ==> free_of_lt((#[trigger] h[k]).1),
        free_of_lt(pid),
        free_of_lt(pver),
    ensures
        parsed_export_records(m, h, pid, pver).len() == 1,
        forall|n: Seq<char>|
            spec_get(parsed_export_records(m, h, pid, pver)[0], n) == spec_get(m, n),
{
    reveal_strlit("<EOH>");
    reveal_strlit("<EOR>");
    reveal_strlit("<EOH>\n\n");
    reveal_strlit("ADIF Export from ");
    reveal_strlit("\n");
    reveal_strlit("\n\n");
    reveal_strlit("<ADIF_VER:5>3.1.5\n");
    reveal_strlit("PROGRAMID");
    reveal_strlit("PROGRAMVERSION");
    let eoh = "<EOH>"@;
    let eor = "<EOR>"@;
    assert(sent_shape(eoh));
    assert(sent_shape(eor));
    let full = crate::adif::export_adi_spec(seq![m], Some(h), pid, pver);
    let banner = "ADIF Export from "@ + pid + "\n"@;
    let t1 = crate::adif::header_tag_text("PROGRAMID"@, pid);
    let t2 = crate::adif::header_tag_text("PROGRAMVERSION"@, pver);
    let adv = "<ADIF_VER:5>3.1.5\n"@;
    let hf = crate::adif::header_fields_text(h, 0);
    let a = banner + t1 + t2 + adv + hf;
    let fr = format_record_spec(m);
    let b = "\n\n"@ + fr + "\n"@;
    assert(crate::adif::export_records_text(seq![m], 1)
        =~= Seq::<char>::empty());
    assert(crate::adif::export_records_text(seq![m], 0) =~= fr + "\n"@);
    assert("<EOH>\n\n"@ =~= eoh + "\n\n"@);
    assert(full =~= a + eoh + b);
    // nothing before the seam can spell the header sentinel
    assert(free_of_lt(banner)) by {
        assert forall|k: int| 0 <= k < banner.len() implies (#[trigger] banner[k]) != '<' by {
            if k < "ADIF Export from "@.len() {
                assert(banner[k] == "ADIF Export from "@[k]);
            } else if k < "ADIF Export from "@.len() + pid.len() {
                assert(banner[k] == pid[k - "ADIF Export from "@.len()]);
            } else {
                assert(banner[k] == "\n"@[k - "ADIF Export from "@.len() - pid.len()]);
            }
        }
    }
    lemma_no_sent_of_lt_free(banner, eoh);
    assert(tag_name_ok("PROGRAMID"@));
    assert(tag_name_ok("PROGRAMVERSION"@));
    lemma_tag_no_sent("PROGRAMID"@, pid, '\n', eoh);
    assert(no_sent(t1, eoh));
    lemma_tag_no_sent("PROGRAMVERSION"@, pver, '\n', eoh);
    assert(no_sent(t2, eoh));
    assert(no_sent(adv, eoh)) by {
        assert forall|p: int| 0 <= p < adv.len() && (#[trigger] adv[p]) == '<'
            implies p + 5 <= adv.len() && adv.subrange(p, p + 5) != eoh by {
            assert(p == 0);
            assert(adv.subrange(0, 5)[1] == adv[1]);
            assert(adv[1] == 'A');
        }
    }
    lemma_header_fields_no_sent(h, 0, eoh);
    lemma_no_sent_concat(banner, t1, eoh);
    lemma_no_sent_concat(banner + t1, t2, eoh);
    lemma_no_sent_concat(banner + t1 + t2, adv, eoh);
    lemma_no_sent_concat(banner + t1 + t2 + adv, hf, eoh);
    lemma_find_sentinel(full, a, b, eoh);
    assert(crate::adif::adi_records_text(full) =~= b) by {
        assert(find_from(full, eoh, 0) == Some(a.len() as int));
        assert(full.subrange(a.len() as int + 5, full.len() as int) =~= b);
    }
    // the record body and its one sentinel
    let ep = emitted_pairs(m);
    lemma_ordered_text(m, 0);
    lemma_remaining_text(m, 0);
    lemma_pairs_text_concat(ordered_pairs(m, 0), remaining_pairs(m, 0));
    let body = pairs_text(ep);
    assert(fr =~= body + eor);
    let pre = "\n\n"@ + body;
    assert(b =~= pre + eor + "\n"@);
    lemma_emitted_ok(m);
    lemma_emitted_stored(m);
    assert(ep.len() > 0) by {
        crate::record::lemma_spec_get_at(m, m[0].0, 0);
        if in_priority(m[0].0) {
            let k0 = choose|k0: int| 0 <= k0 < 27 && priority_at(k0) == m[0].0;
            lemma_ordered_contains(m, 0, k0);
        } else {
            assert(upper_seq(m[0].0) == m[0].0);
            lemma_remaining_contains(m, 0, 0);
        }
    }
    assert(no_sent(pre, eor)) by {
        assert(free_of_lt("\n\n"@)) by {
            assert("\n\n"@[0] == '\n');
            assert("\n\n"@[1] == '\n');
        }
        lemma_no_sent_of_lt_free("\n\n"@, eor);
        assert forall|x: int| 0 <= x < ep.len() implies free_of_lt((#[trigger] ep[x]).1) by {
            lemma_spec_get_index(m, ep[x].0);
            let j = choose|j: int| 0 <= j < m.len() && (#[trigger] m[j]).0 == ep[x].0
                && m[j].1 == spec_get(m, ep[x].0)->0;
            assert(free_of_lt(m[j].1));
        }
        lemma_pairs_text_no_sent(ep, eor);
        lemma_no_sent_concat("\n\n"@, body, eor);
    }
    lemma_find_sentinel(b, pre, "\n"@, eor);
    assert(split_on(b, eor) =~= seq![pre, "\n"@]) by {
        assert(find_from(b, eor, 0) == Some(pre.len() as int));
        assert(b.subrange(0, pre.len() as int) =~= pre);
        assert(b.subrange(pre.len() as int + 5, b.len() as int) =~= "\n"@);
        assert(find_from("\n"@, eor, 0) is None);
        assert(split_on("\n"@, eor) == seq!["\n"@]);
    }
    // the blank chunk after the record sentinel is dropped
    assert(trim_spec("\n"@).len() == 0) by {
        assert(is_space_char("\n"@[0]));
        crate::text::lemma_trim_start_at("\n"@, 1);
        assert(trim_start_spec("\n"@) =~= Seq::<char>::empty());
    }
    // the record chunk trims to the body without its trailing space
    lemma_pairs_text_shape(ep);
    let tb = body.subrange(0, body.len() - 1);
    assert(trim_spec(pre) =~= tb) by {
        assert(is_space_char(pre[0]));
        assert(is_space_char(pre[1]));
        assert(pre[2] == body[0]);
        crate::text::lemma_trim_start_at(pre, 2);
        assert(trim_start_spec(pre) =~= body);
        crate::text::lemma_trim_end_at(body, body.len() - 1);
    }
    // that text scans to exactly the emitted pairs
    let dl = ep.drop_last();
    let lastp = ep.last();
    lemma_pairs_text_concat(dl, seq![lastp]);
    assert(dl + seq![lastp] =~= ep);
    assert(pairs_text(seq![lastp]) =~= field_text(lastp.0, lastp.1)) by {
        assert(seq![lastp].drop_first().len() == 0);
        assert(pairs_text(seq![lastp].drop_first()) =~= Seq::<char>::empty());
    }
    let ft = field_text(lastp.0, lastp.1);
    assert(body =~= pairs_text(dl) + ft);
    assert(forall|x: int| 0 <= x < dl.len() ==> dl[x] == ep[x]);
    assert forall|k: int| 0 <= k < pairs_text(dl).len()
        implies tb.subrange(0, pairs_text(dl).len() as int)[k] == pairs_text(dl)[k] by {
        assert(tb[k] == body[k]);
        assert(body[k] == (pairs_text(dl) + ft)[k]);
    }
    assert(tb.subrange(0, pairs_text(dl).len() as int) =~= pairs_text(dl));
    lemma_tokenize_pairs(tb, 0, dl);
    assert(ft.len() >= 5);
    assert forall|k: int| 0 <= k < ft.len() - 1
        implies tb.subrange(pairs_text(dl).len() as int, tb.len() as int)[k]
            == ft.subrange(0, ft.len() - 1)[k] by {
        assert(tb[pairs_text(dl).len() + k] == body[pairs_text(dl).len() + k]);
        assert(body[pairs_text(dl).len() + k] == ft[k]);
    }
    assert(tb.subrange(pairs_text(dl).len() as int, tb.len() as int)
        =~= ft.subrange(0, ft.len() - 1));
    lemma_tokenize_last_field(tb, pairs_text(dl).len() as int, lastp.0, lastp.1);
    assert(tokenize_from(tb, 0) =~= ep) by {
        assert(tokenize_from(tb, 0)
            == dl + tokenize_from(tb, pairs_text(dl).len() as int));
    }
    // assemble: one non-empty record with the original's fields
    lemma_record_of_nonempty(ep);
    let chunks = split_on(b, eor);
    assert(crate::adif::records_of_chunks(chunks) =~= seq![record_of(ep)]) by {
        assert(chunks[0] == pre);
        assert(chunks.drop_first() =~= seq!["\n"@]);
        assert(crate::adif::chunk_records(pre) =~= seq![record_of(ep)]);
        assert(crate::adif::chunk_records("\n"@) =~= Seq::<Seq<(Seq<char>, Seq<char>)>>::empty());
        assert(seq!["\n"@].drop_first() =~= Seq::<Seq<char>>::empty());
        assert(crate::adif::records_of_chunks(seq!["\n"@].drop_first()).len() == 0);
        assert(crate::adif::records_of_chunks(seq!["\n"@])
            =~= Seq::<Seq<(Seq<char>, Seq<char>)>>::empty());
    }
    assert(parsed_export_records(m, h, pid, pver) =~= seq![record_of(ep)]);
    lemma_emitted_gets(m);
    assert forall|n: Seq<char>|
        spec_get(parsed_export_records(m, h, pid, pver)[0], n) == spec_get(m, n) by {
        assert(parsed_export_records(m, h, pid, pver)[0] == record_of(ep));
    }
}

} // verus!
