//! The tag/value codec: a tolerant tokenizer for `<NAME:LENGTH>VALUE` text,
//! the assembler that groups fields into a header and records, and the
//! exporter that writes records back out.
//!
//! The tokenizer is specified as a finite-state scan over the character
//! sequence: `tokenize_from` is the single source of truth for what any text
//! parses to, and the executable scanner is proved to produce exactly that.
//! Malformed tags are never an error: the offending tag is dropped and the
//! scan resumes, so parsing is total.

use vstd::prelude::*;
use vstd::string::*;
use crate::record::{Record, record_of, rec_wf, spec_get, spec_insert};
use crate::text::{
    dec_str, dec_string, find_from, find_str, lemma_find_from_bounds, parse_len_spec,
    parse_usize_str, split_on, trim_spec, trim_str, upper_seq, upper_str,
};

verus! {

/// The characters that end a tag-name scan: the name terminator and the two
/// malformed-tag markers.
pub open spec fn is_name_stop(c: char) -> bool {
    c == ':' || c == '<' || c == '>'
}

/// The characters that end a length-token scan.
pub open spec fn is_len_stop(c: char) -> bool {
    c == '<' || c == '>'
}

/// The position of the first name-stop character at or after `i`.
pub open spec fn name_end(s: Seq<char>, i: int) -> int
    recommends 0 <= i <= s.len(),
    decreases s.len() - i when 0 <= i <= s.len()
{
    if i >= s.len() {
        i
    } else if is_name_stop(s[i]) {
        i
    } else {
        name_end(s, i + 1)
    }
}

/// The position of the first length-stop character at or after `i`.
pub open spec fn len_end(s: Seq<char>, i: int) -> int
    recommends 0 <= i <= s.len(),
    decreases s.len() - i when 0 <= i <= s.len()
{
    if i >= s.len() {
        i
    } else if is_len_stop(s[i]) {
        i
    } else {
        len_end(s, i + 1)
    }
}

pub proof fn lemma_name_end(s: Seq<char>, i: int)
    requires
        0 <= i <= s.len(),
    ensures
        i <= name_end(s, i) <= s.len(),
        forall|k: int| i <= k < name_end(s, i) ==> !is_name_stop(#[trigger] s[k]),
        name_end(s, i) < s.len() ==> is_name_stop(s[name_end(s, i)]),
    decreases s.len() - i,
{
    if i < s.len() && !is_name_stop(s[i]) {
        lemma_name_end(s, i + 1);
    }
}

pub proof fn lemma_len_end(s: Seq<char>, i: int)
    requires
        0 <= i <= s.len(),
    ensures
        i <= len_end(s, i) <= s.len(),
        forall|k: int| i <= k < len_end(s, i) ==> !is_len_stop(#[trigger] s[k]),
        len_end(s, i) < s.len() ==> is_len_stop(s[len_end(s, i)]),
    decreases s.len() - i,
{
    if i < s.len() && !is_len_stop(s[i]) {
        lemma_len_end(s, i + 1);
    }
}

/// The fields that the tolerant scan of `s` emits from position `i` on:
/// `(name, value)` pairs with the name folded to uppercase and the value
/// trimmed of surrounding whitespace.
///
/// The scan ignores characters outside tags.  On `<` it reads a name up to
/// `:`; an empty name, a stray `<` or `>`, a length that is not a number, or
/// text that ends mid-tag all drop the tag and resume scanning.  A parsed
/// length reads exactly that many characters as the value, fewer when the
/// text ends first.
pub open spec fn tokenize_from(s: Seq<char>, i: int) -> Seq<(Seq<char>, Seq<char>)>
    recommends 0 <= i,
    decreases s.len() - i when 0 <= i via tokenize_from_decreases
{
    if i >= s.len() {
        Seq::empty()
    } else if s[i] != '<' {
        tokenize_from(s, i + 1)
    } else {
        let ne = name_end(s, i + 1);
        if ne == i + 1 {
            // empty tag name: the tag is dropped; a ':' stop was consumed
            if ne < s.len() && s[ne] == ':' {
                tokenize_from(s, ne + 1)
            } else {
                tokenize_from(s, ne)
            }
        } else if ne >= s.len() {
            // text ends inside the name: nothing more is emitted
            Seq::empty()
        } else if s[ne] == '<' {
            tokenize_from(s, ne)
        } else if s[ne] == '>' {
            // no length token: the tag is dropped
            tokenize_from(s, ne + 1)
        } else {
            // s[ne] == ':'
            let le = len_end(s, ne + 1);
            let lstr = s.subrange(ne + 1, le);
            if le >= s.len() {
                match parse_len_spec(lstr) {
                    None => Seq::empty(),
                    Some(l) => seq![
                        (upper_seq(s.subrange(i + 1, ne)), trim_spec(Seq::<char>::empty()))
                    ],
                }
            } else if s[le] == '<' {
                match parse_len_spec(lstr) {
                    None => tokenize_from(s, le),
                    Some(l) => {
                        let ve = if le + l <= s.len() { le + l } else { s.len() as int };
                        seq![(upper_seq(s.subrange(i + 1, ne)), trim_spec(s.subrange(le, ve)))]
                            + tokenize_from(s, ve)
                    },
                }
            } else {
                // s[le] == '>'
                match parse_len_spec(lstr) {
                    None => tokenize_from(s, le + 1),
                    Some(l) => {
                        let ve = if le + 1 + l <= s.len() { le + 1 + l } else { s.len() as int };
                        seq![
                            (upper_seq(s.subrange(i + 1, ne)), trim_spec(s.subrange(le + 1, ve)))
                        ] + tokenize_from(s, ve)
                    },
                }
            }
        }
    }
}

#[via_fn]
proof fn tokenize_from_decreases(s: Seq<char>, i: int) {
    if 0 <= i < s.len() && s[i] == '<' {
        lemma_name_end(s, i + 1);
        let ne = name_end(s, i + 1);
        if ne < s.len() {
            lemma_len_end(s, ne + 1);
            let le = len_end(s, ne + 1);
            crate::text::lemma_parse_len_nonneg(s.subrange(ne + 1, le));
        }
    }
}

/// The first name-stop position, computed.
fn scan_name(text: &str, from: usize) -> (r: usize)
    requires
        from <= text@.len(),
    ensures
        r == name_end(text@, from as int),
        r <= text@.len(),
{
    let n = text.unicode_len();
    let mut j = from;
    while j < n
        invariant
            n == text@.len(),
            from <= j <= n,
            name_end(text@, from as int) == name_end(text@, j as int),
        decreases n - j,
    {
        let c = text.get_char(j);
        if c == ':' || c == '<' || c == '>' {
            return j;
        }
        j += 1;
    }
    j
}

/// The first length-stop position, computed.
fn scan_len(text: &str, from: usize) -> (r: usize)
    requires
        from <= text@.len(),
    ensures
        r == len_end(text@, from as int),
        r <= text@.len(),
{
    let n = text.unicode_len();
    let mut j = from;
    while j < n
        invariant
            n == text@.len(),
            from <= j <= n,
            len_end(text@, from as int) == len_end(text@, j as int),
        decreases n - j,
    {
        let c = text.get_char(j);
        if c == '<' || c == '>' {
            return j;
        }
        j += 1;
    }
    j
}

/// Parses tagged fields out of free-form text.  Total: malformed input never
/// fails, the offending tags are dropped.  The result is exactly the record
/// that the specified scan assembles: names uppercased, values trimmed,
/// duplicate names overwritten in place.
#[verifier::loop_isolation(false)]
pub fn parse_fields(text: &str) -> (r: Record)
    ensures
        r@ == record_of(tokenize_from(text@, 0)),
        r.wf(),
{
    let ghost s = text@;
    let n = text.unicode_len();
    let mut rec = Record::new();
    let ghost mut done: Seq<(Seq<char>, Seq<char>)> = Seq::empty();
    proof {
        assert(record_of(done) =~= rec@);
    }
    let mut i: usize = 0;
    while i < n
        invariant
            i <= n,
            n == s.len(),
            rec@ == record_of(done),
            rec.wf(),
            tokenize_from(s, 0) == done + tokenize_from(s, i as int),
        decreases n - i,
    {
        let ghost i0 = i as int;
        if text.get_char(i) != '<' {
            proof {
                assert(done + tokenize_from(s, i0) == done + tokenize_from(s, i0 + 1));
            }
            i += 1;
            continue;
        }
        let ne = scan_name(text, i + 1);
        proof {
            lemma_name_end(s, i0 + 1);
        }
        if ne == i + 1 {
            if ne < n && text.get_char(ne) == ':' {
                proof {
                    assert(done + tokenize_from(s, i0) == done + tokenize_from(s, ne + 1));
                }
                i = ne + 1;
            } else {
                proof {
                    assert(done + tokenize_from(s, i0) == done + tokenize_from(s, ne as int));
                }
                i = ne;
            }
            continue;
        }
        if ne >= n {
            proof {
                assert(tokenize_from(s, i0) =~= Seq::<(Seq<char>, Seq<char>)>::empty());
                assert(done + tokenize_from(s, i0) =~= done + tokenize_from(s, n as int));
            }
            i = n;
            continue;
        }
        let stop = text.get_char(ne);
        if stop == '<' {
            proof {
                assert(done + tokenize_from(s, i0) == done + tokenize_from(s, ne as int));
            }
            i = ne;
            continue;
        }
        if stop == '>' {
            proof {
                assert(done + tokenize_from(s, i0) == done + tokenize_from(s, ne + 1));
            }
            i = ne + 1;
            continue;
        }
        // stop == ':'
        let le = scan_len(text, ne + 1);
        proof {
            lemma_len_end(s, ne as int + 1);
        }
        let lstr = text.substring_char(ne + 1, le);
        let lopt = parse_usize_str(lstr);
        if le >= n {
            match lopt {
                Some(_l) => {
                    let name_str = text.substring_char(i + 1, ne);
                    let empty_value = trim_str("");
                    let ghost fld = (upper_seq(s.subrange(i0 + 1, ne as int)),
                        trim_spec(Seq::<char>::empty()));
                    rec.insert(name_str, empty_value.as_str());
                    proof {
                        reveal_strlit("");
                        assert(""@ =~= Seq::<char>::empty());
                        assert(tokenize_from(s, i0) == seq![fld]);
                        assert((done.push(fld)).drop_last() =~= done);
                        assert(record_of(done.push(fld))
                            == spec_insert(record_of(done), fld.0, fld.1));
                        done = done.push(fld);
                        assert(done + tokenize_from(s, n as int) =~= tokenize_from(s, 0));
                    }
                    i = n;
                },
                None => {
                    proof {
                        assert(tokenize_from(s, i0) =~= Seq::<(Seq<char>, Seq<char>)>::empty());
                        assert(done + tokenize_from(s, i0) =~= done + tokenize_from(s, n as int));
                    }
                    i = n;
                },
            }
            continue;
        }
        let lstop = text.get_char(le);
        match lopt {
            None => {
                if lstop == '<' {
                    proof {
                        assert(done + tokenize_from(s, i0) == done + tokenize_from(s, le as int));
                    }
                    i = le;
                } else {
                    proof {
                        assert(done + tokenize_from(s, i0) == done + tokenize_from(s, le + 1));
                    }
                    i = le + 1;
                }
            },
            Some(l) => {
                let vstart = if lstop == '<' { le } else { le + 1 };
                let ve = if l >= n - vstart { n } else { vstart + l };
                let value = text.substring_char(vstart, ve);
                let trimmed = trim_str(value);
                let name_str = text.substring_char(i + 1, ne);
                let ghost fld = (upper_seq(s.subrange(i0 + 1, ne as int)),
                    trim_spec(s.subrange(vstart as int, ve as int)));
                rec.insert(name_str, trimmed.as_str());
                proof {
                    assert(tokenize_from(s, i0) == seq![fld] + tokenize_from(s, ve as int));
                    assert((done.push(fld)).drop_last() =~= done);
                    assert(record_of(done.push(fld))
                        == spec_insert(record_of(done), fld.0, fld.1));
                    done = done.push(fld);
                    assert(done + tokenize_from(s, ve as int) =~= tokenize_from(s, 0));
                }
                i = ve;
            },
        }
    }
    proof {
        assert(tokenize_from(s, n as int) =~= Seq::<(Seq<char>, Seq<char>)>::empty());
        assert(done =~= tokenize_from(s, 0));
    }
    rec
}

/// The records one chunk of text between record sentinels yields: none when
/// the chunk is blank or parses to no fields, else the one record it holds.
pub open spec fn chunk_records(c: Seq<char>) -> Seq<Seq<(Seq<char>, Seq<char>)>> {
    let t = trim_spec(c);
    if t.len() == 0 {
        Seq::empty()
    } else {
        let r = record_of(tokenize_from(t, 0));
        if r.len() == 0 {
            Seq::empty()
        } else {
            seq![r]
        }
    }
}

/// The records a sequence of chunks yields, in order.
pub open spec fn records_of_chunks(chunks: Seq<Seq<char>>) -> Seq<Seq<(Seq<char>, Seq<char>)>>
    decreases chunks.len(),
{
    if chunks.len() == 0 {
        Seq::empty()
    } else {
        chunk_records(chunks[0]) + records_of_chunks(chunks.drop_first())
    }
}

/// Everything before the first header sentinel; empty when there is none.
pub open spec fn adi_header_text(s: Seq<char>) -> Seq<char> {
    match find_from(s, "<EOH>"@, 0) {
        None => Seq::empty(),
        Some(p) => s.subrange(0, p),
    }
}

/// Everything after the first header sentinel; the whole text when there is
/// none.
pub open spec fn adi_records_text(s: Seq<char>) -> Seq<char> {
    match find_from(s, "<EOH>"@, 0) {
        None => s,
        Some(p) => s.subrange(p + "<EOH>"@.len(), s.len() as int),
    }
}

/// Trims a chunk, parses it, and keeps the record when it is not empty.
fn process_chunk(out: &mut Vec<Record>, chunk: &str)
    ensures
        final(out).deep_view() =~= old(out).deep_view() + chunk_records(chunk@),
        final(out)@.len() >= old(out)@.len(),
        forall|i: int| 0 <= i < old(out)@.len() ==> final(out)@[i] == old(out)@[i],
        forall|i: int| old(out)@.len() <= i < final(out)@.len()
            ==> (#[trigger] final(out)@[i]).wf(),
{
    let t = trim_str(chunk);
    if t.as_str().unicode_len() == 0 {
        proof {
            assert(final(out).deep_view() =~= old(out).deep_view() + chunk_records(chunk@));
        }
        return;
    }
    let r = parse_fields(t.as_str());
    if r.is_empty() {
        proof {
            assert(final(out).deep_view() =~= old(out).deep_view() + chunk_records(chunk@));
        }
        return;
    }
    out.push(r);
    proof {
        assert(final(out).deep_view() =~= old(out).deep_view() + chunk_records(chunk@));
    }
}

/// Splits a records-only blob on the record sentinel and parses each chunk:
/// blank chunks and chunks with no parsable fields are dropped, everything
/// else becomes one record each, in input order.
pub fn batch_parse_records(records_str: &str) -> (r: Vec<Record>)
    ensures
        r.deep_view() =~= records_of_chunks(split_on(records_str@, "<EOR>"@)),
        forall|i: int| 0 <= i < r@.len() ==> (#[trigger] r@[i]).wf(),
{
    let eor: &str = "<EOR>";
    proof {
        reveal_strlit("<EOR>");
    }
    let mut out: Vec<Record> = Vec::new();
    let mut rest: &str = records_str;
    loop
        invariant_except_break
            eor@.len() == 5,
            records_of_chunks(split_on(records_str@, eor@))
                =~= out.deep_view() + records_of_chunks(split_on(rest@, eor@)),
            forall|i: int| 0 <= i < out@.len() ==> (#[trigger] out@[i]).wf(),
        ensures
            records_of_chunks(split_on(records_str@, eor@)) =~= out.deep_view(),
            forall|i: int| 0 <= i < out@.len() ==> (#[trigger] out@[i]).wf(),
        decreases rest@.len(),
    {
        match find_str(rest, eor, 0) {
            None => {
                let ghost before = out.deep_view();
                process_chunk(&mut out, rest);
                proof {
                    assert(split_on(rest@, eor@) =~= seq![rest@]);
                    assert(seq![rest@].drop_first() =~= Seq::<Seq<char>>::empty());
                    assert(records_of_chunks(seq![rest@].drop_first()).len() == 0);
                    assert(records_of_chunks(seq![rest@]) =~= chunk_records(rest@));
                    assert(records_of_chunks(split_on(records_str@, eor@))
                        =~= out.deep_view());
                }
                break;
            },
            Some(p) => {
                proof {
                    lemma_find_from_bounds(rest@, eor@, 0);
                }
                let chunk = rest.substring_char(0, p);
                let ghost old_rest = rest@;
                process_chunk(&mut out, chunk);
                let rn = rest.unicode_len();
                let new_rest = rest.substring_char(p + 5, rn);
                proof {
                    let tail = split_on(new_rest@, eor@);
                    assert(split_on(old_rest, eor@) == seq![chunk@] + tail);
                    assert((seq![chunk@] + tail).drop_first() =~= tail);
                    assert(records_of_chunks(seq![chunk@] + tail)
                        =~= chunk_records(chunk@) + records_of_chunks(tail));
                    assert(records_of_chunks(split_on(records_str@, eor@))
                        =~= out.deep_view() + records_of_chunks(tail));
                }
                rest = new_rest;
            },
        }
    }
    out
}

/// Parses a whole document: the text before the first header sentinel
/// becomes the header, the rest is split on the record sentinel and each
/// non-blank chunk becomes a record.  Returns `(records, header)`.
pub fn parse_adi(content: &str) -> (r: (Vec<Record>, Record))
    ensures
        r.1@ == record_of(tokenize_from(adi_header_text(content@), 0)),
        r.1.wf(),
        r.0.deep_view() =~= records_of_chunks(split_on(adi_records_text(content@), "<EOR>"@)),
        forall|i: int| 0 <= i < r.0@.len() ==> (#[trigger] r.0@[i]).wf(),
{
    let eoh: &str = "<EOH>";
    proof {
        reveal_strlit("<EOH>");
    }
    let n = content.unicode_len();
    match find_str(content, eoh, 0) {
        Some(p) => {
            proof {
                lemma_find_from_bounds(content@, eoh@, 0);
            }
            let h = content.substring_char(0, p);
            let rest = content.substring_char(p + 5, n);
            let header = parse_fields(h);
            let records = batch_parse_records(rest);
            (records, header)
        },
        None => {
            let header = parse_fields("");
            let records = batch_parse_records(content);
            proof {
                reveal_strlit("");
                assert(""@ =~= Seq::<char>::empty());
            }
            (records, header)
        },
    }
}

/// One field as the exporter writes it: `<NAME:length>value` and one
/// separating space.  The length counts characters.
pub open spec fn field_text(n: Seq<char>, v: Seq<char>) -> Seq<char> {
    seq!['<'] + n + seq![':'] + dec_str(v.len() as int) + seq!['>'] + v + seq![' ']
}

/// The fixed priority list: these fields are written first, in this order.
pub open spec fn priority_at(k: int) -> Seq<char> {
    if k == 0 { "BAND"@ } else if k == 1 { "CALL"@ } else if k == 2 { "COMMENT"@ }
    else if k == 3 { "COUNTRY"@ } else if k == 4 { "DXCC"@ } else if k == 5 { "FREQ"@ }
    else if k == 6 { "APP_SKCCLOGGER_KEYTYPE"@ } else if k == 7 { "MODE"@ }
    else if k == 8 { "MY_GRIDSQUARE"@ } else if k == 9 { "NAME"@ }
    else if k == 10 { "OPERATOR"@ } else if k == 11 { "QSO_DATE"@ }
    else if k == 12 { "QTH"@ } else if k == 13 { "RST_RCVD"@ }
    else if k == 14 { "RST_SENT"@ } else if k == 15 { "SKCC"@ }
    else if k == 16 { "STATE"@ } else if k == 17 { "STATION_CALLSIGN"@ }
    else if k == 18 { "TIME_OFF"@ } else if k == 19 { "TIME_ON"@ }
    else if k == 20 { "TX_PWR"@ } else if k == 21 { "RX_PWR"@ }
    else if k == 22 { "CONTEST_ID"@ } else if k == 23 { "GRIDSQUARE"@ }
    else if k == 24 { "NOTES"@ } else if k == 25 { "DISTANCE"@ }
    else { "PROPAGATION_MODE"@ }
}

pub open spec fn in_priority(n: Seq<char>) -> bool {
    exists|k: int| 0 <= k < 27 && priority_at(k) == n
}

/// The text of the priority-ordered part of an exported record, from entry
/// `k` of the priority list on: present, non-empty fields only.
pub open spec fn ordered_fields_text(m: Seq<(Seq<char>, Seq<char>)>, k: int) -> Seq<char>
    decreases 27 - k when k <= 27
{
    if k >= 27 {
        Seq::empty()
    } else {
        let rest = ordered_fields_text(m, k + 1);
        match spec_get(m, priority_at(k)) {
            Some(v) => if v.len() > 0 { field_text(priority_at(k), v) + rest } else { rest },
            None => rest,
        }
    }
}

/// The text of the remaining fields, in insertion order: names folded to
/// uppercase, fields on the priority list or with empty values skipped.
pub open spec fn remaining_fields_text(m: Seq<(Seq<char>, Seq<char>)>, j: int) -> Seq<char>
    decreases m.len() - j when 0 <= j
{
    if j >= m.len() {
        Seq::empty()
    } else {
        let rest = remaining_fields_text(m, j + 1);
        let k = upper_seq(m[j].0);
        if !in_priority(k) && m[j].1.len() > 0 {
            field_text(k, m[j].1) + rest
        } else {
            rest
        }
    }
}

/// A whole exported record: priority fields, then the rest, then the record
/// sentinel.
pub open spec fn format_record_spec(m: Seq<(Seq<char>, Seq<char>)>) -> Seq<char> {
    ordered_fields_text(m, 0) + remaining_fields_text(m, 0) + "<EOR>"@
}

fn priority_name(k: usize) -> (r: &'static str)
    requires
        k < 27,
    ensures
        r@ == priority_at(k as int),
{
    match k {
        0 => "BAND", 1 => "CALL", 2 => "COMMENT", 3 => "COUNTRY", 4 => "DXCC",
        5 => "FREQ", 6 => "APP_SKCCLOGGER_KEYTYPE", 7 => "MODE", 8 => "MY_GRIDSQUARE",
        9 => "NAME", 10 => "OPERATOR", 11 => "QSO_DATE", 12 => "QTH", 13 => "RST_RCVD",
        14 => "RST_SENT", 15 => "SKCC", 16 => "STATE", 17 => "STATION_CALLSIGN",
        18 => "TIME_OFF", 19 => "TIME_ON", 20 => "TX_PWR", 21 => "RX_PWR",
        22 => "CONTEST_ID", 23 => "GRIDSQUARE", 24 => "NOTES", 25 => "DISTANCE",
        _ => "PROPAGATION_MODE",
    }
}

#[verifier::loop_isolation(false)]
fn is_priority_name(n: &str) -> (r: bool)
    ensures
        r == in_priority(n@),
{
    let mut k: usize = 0;
    while k < 27
        invariant
            k <= 27,
            forall|l: int| 0 <= l < k ==> priority_at(l) != n@,
        decreases 27 - k,
    {
        if crate::text::str_eq(n, priority_name(k)) {
            proof {
                assert(priority_at(k as int) == n@);
            }
            return true;
        }
        k += 1;
    }
    false
}

/// Writes one `<NAME:length>value ` field onto the output.
fn append_field(out: &mut String, n: &str, v: &str)
    ensures
        final(out)@ == old(out)@ + field_text(n@, v@),
{
    out.append("<");
    out.append(n);
    out.append(":");
    let l = v.unicode_len();
    let ls = dec_string(l);
    out.append(ls.as_str());
    out.append(">");
    out.append(v);
    out.append(" ");
    proof {
        reveal_strlit("<");
        reveal_strlit(":");
        reveal_strlit(">");
        reveal_strlit(" ");
        assert("<"@ =~= seq!['<']);
        assert(":"@ =~= seq![':']);
        assert(">"@ =~= seq!['>']);
        assert(" "@ =~= seq![' ']);
        assert(final(out)@ =~= old(out)@ + field_text(n@, v@));
    }
}

/// Serializes one record: fields from the priority list first, in that
/// order, then the remaining fields in insertion order, empty values always
/// skipped, each field followed by one space, and the record sentinel last.
#[verifier::loop_isolation(false)]
pub fn format_record(record: &Record) -> (r: String)
    ensures
        r@ == format_record_spec(record@),
{
    let ghost m = record@;
    let mut out = String::new();
    let mut k: usize = 0;
    while k < 27
        invariant
            k <= 27,
            out@ + ordered_fields_text(m, k as int) == ordered_fields_text(m, 0),
        decreases 27 - k,
    {
        let name = priority_name(k);
        match record.get(name) {
            Some(v) => {
                if !v.as_str().is_empty() {
                    append_field(&mut out, name, v.as_str());
                }
            },
            None => {},
        }
        proof {
            assert(out@ + ordered_fields_text(m, k + 1) =~= ordered_fields_text(m, 0));
        }
        k += 1;
    }
    let n = record.len();
    let mut j: usize = 0;
    while j < n
        invariant
            j <= n,
            n == m.len(),
            out@ + remaining_fields_text(m, j as int)
                == ordered_fields_text(m, 0) + remaining_fields_text(m, 0),
        decreases n - j,
    {
        let p = record.field_at(j);
        let uk = upper_str(p.0.as_str());
        if !is_priority_name(uk.as_str()) && !p.1.as_str().is_empty() {
            append_field(&mut out, uk.as_str(), p.1.as_str());
        }
        proof {
            assert(out@ + remaining_fields_text(m, j + 1)
                =~= ordered_fields_text(m, 0) + remaining_fields_text(m, 0));
        }
        j += 1;
    }
    out.append("<EOR>");
    proof {
        assert(out@ =~= format_record_spec(m));
    }
    out
}

/// One header tag as the exporter writes it: `<NAME:length>value` and a
/// newline.
pub open spec fn header_tag_text(n: Seq<char>, v: Seq<char>) -> Seq<char> {
    seq!['<'] + n + seq![':'] + dec_str(v.len() as int) + seq!['>'] + v + seq!['\n']
}

/// The caller-supplied header fields, each as a tag on its own line, names
/// folded to uppercase, nothing skipped.
pub open spec fn header_fields_text(h: Seq<(Seq<char>, Seq<char>)>, j: int) -> Seq<char>
    decreases h.len() - j when 0 <= j
{
    if j >= h.len() {
        Seq::empty()
    } else {
        header_tag_text(upper_seq(h[j].0), h[j].1) + header_fields_text(h, j + 1)
    }
}

/// The whole header section: a banner line, the program tags, the fixed
/// format-version tag, any custom header fields, and the header sentinel.
pub open spec fn export_header_text(
    h: Option<Seq<(Seq<char>, Seq<char>)>>,
    pid: Seq<char>,
    pver: Seq<char>,
) -> Seq<char> {
    "ADIF Export from "@ + pid + "\n"@
        + header_tag_text("PROGRAMID"@, pid)
        + header_tag_text("PROGRAMVERSION"@, pver)
        + "<ADIF_VER:5>3.1.5\n"@
        + (match h { Some(hh) => header_fields_text(hh, 0), None => Seq::empty() })
        + "<EOH>\n\n"@
}

/// The record section: each record followed by a newline.
pub open spec fn export_records_text(rs: Seq<Seq<(Seq<char>, Seq<char>)>>, j: int) -> Seq<char>
    decreases rs.len() - j when 0 <= j
{
    if j >= rs.len() {
        Seq::empty()
    } else {
        format_record_spec(rs[j]) + "\n"@ + export_records_text(rs, j + 1)
    }
}

pub open spec fn export_adi_spec(
    rs: Seq<Seq<(Seq<char>, Seq<char>)>>,
    h: Option<Seq<(Seq<char>, Seq<char>)>>,
    pid: Seq<char>,
    pver: Seq<char>,
) -> Seq<char> {
    export_header_text(h, pid, pver) + export_records_text(rs, 0)
}

/// Writes one `<NAME:length>value` header tag and a newline.
fn append_header_tag(out: &mut String, n: &str, v: &str)
    ensures
        final(out)@ == old(out)@ + header_tag_text(n@, v@),
{
    out.append("<");
    out.append(n);
    out.append(":");
    let l = v.unicode_len();
    let ls = dec_string(l);
    out.append(ls.as_str());
    out.append(">");
    out.append(v);
    out.append("\n");
    proof {
        reveal_strlit("<");
        reveal_strlit(":");
        reveal_strlit(">");
        reveal_strlit("\n");
        assert("<"@ =~= seq!['<']);
        assert(":"@ =~= seq![':']);
        assert(">"@ =~= seq!['>']);
        assert("\n"@ =~= seq!['\n']);
        assert(final(out)@ =~= old(out)@ + header_tag_text(n@, v@));
    }
}

/// Serializes a whole document: the header section with program
/// identification and the fixed format-version tag, then every record on its
/// own line.
#[verifier::loop_isolation(false)]
pub fn export_adi(
    records: &Vec<Record>,
    header: Option<&Record>,
    program_id: &str,
    program_version: &str,
) -> (r: String)
    ensures
        r@ == export_adi_spec(
            records.deep_view(),
            match header { Some(h) => Some(h@), None => None },
            program_id@,
            program_version@,
        ),
{
    let ghost hview: Option<Seq<(Seq<char>, Seq<char>)>> = match header {
        Some(h) => Some(h@),
        None => None,
    };
    let mut out = String::new();
    out.append("ADIF Export from ");
    out.append(program_id);
    out.append("\n");
    append_header_tag(&mut out, "PROGRAMID", program_id);
    append_header_tag(&mut out, "PROGRAMVERSION", program_version);
    out.append("<ADIF_VER:5>3.1.5\n");
    proof {
        reveal_strlit("PROGRAMID");
        reveal_strlit("PROGRAMVERSION");
    }
    match header {
        Some(h) => {
            let ghost hh = h@;
            let hn = h.len();
            let mut j: usize = 0;
            while j < hn
                invariant
                    j <= hn,
                    hn == hh.len(),
                    out@ + header_fields_text(hh, j as int)
                        == "ADIF Export from "@ + program_id@ + "\n"@
                            + header_tag_text("PROGRAMID"@, program_id@)
                            + header_tag_text("PROGRAMVERSION"@, program_version@)
                            + "<ADIF_VER:5>3.1.5\n"@
                            + header_fields_text(hh, 0),
                decreases hn - j,
            {
                let p = h.field_at(j);
                let uk = upper_str(p.0.as_str());
                append_header_tag(&mut out, uk.as_str(), p.1.as_str());
                proof {
                    assert(out@ + header_fields_text(hh, j + 1)
                        =~= "ADIF Export from "@ + program_id@ + "\n"@
                            + header_tag_text("PROGRAMID"@, program_id@)
                            + header_tag_text("PROGRAMVERSION"@, program_version@)
                            + "<ADIF_VER:5>3.1.5\n"@
                            + header_fields_text(hh, 0));
                }
                j += 1;
            }
        },
        None => {},
    }
    out.append("<EOH>\n\n");
    proof {
        assert(out@ =~= export_header_text(hview, program_id@, program_version@));
    }
    let ghost rs = records.deep_view();
    let rn = records.len();
    let mut j: usize = 0;
    while j < rn
        invariant
            j <= rn,
            rn == rs.len(),
            rs == records.deep_view(),
            out@ + export_records_text(rs, j as int)
                == export_header_text(hview, program_id@, program_version@)
                    + export_records_text(rs, 0),
        decreases rn - j,
    {
        let line = format_record(&records[j]);
        out.append(line.as_str());
        out.append("\n");
        proof {
            assert(out@ + export_records_text(rs, j + 1)
                =~= export_header_text(hview, program_id@, program_version@)
                    + export_records_text(rs, 0));
        }
        j += 1;
    }
    proof {
        assert(out@ =~= export_adi_spec(rs, hview, program_id@, program_version@));
    }
    out
}

/// Whether a required field is absent or blank in a record.
pub open spec fn field_missing(m: Seq<(Seq<char>, Seq<char>)>, n: Seq<char>) -> bool {
    match spec_get(m, n) {
        None => true,
        Some(v) => trim_spec(v).len() == 0,
    }
}

/// The required fields a record lacks, in the fixed checking order.
pub open spec fn missing_list(m: Seq<(Seq<char>, Seq<char>)>) -> Seq<Seq<char>> {
    (if field_missing(m, "CALL"@) { seq!["CALL"@] } else { Seq::empty() })
        + (if field_missing(m, "QSO_DATE"@) { seq!["QSO_DATE"@] } else { Seq::empty() })
        + (if field_missing(m, "TIME_ON"@) { seq!["TIME_ON"@] } else { Seq::empty() })
}

fn required_missing(record: &Record, n: &str) -> (r: bool)
    ensures
        r == field_missing(record@, n@),
{
    match record.get(n) {
        None => true,
        Some(v) => {
            let t = trim_str(v.as_str());
            t.as_str().is_empty()
        },
    }
}

/// The advisory validity check: a record is valid when the call sign, the
/// contact date and the start time are all present and not blank.  Returns
/// the verdict and the names of the missing fields; it never blocks export.
pub fn validate_record(record: &Record) -> (r: (bool, Vec<String>))
    ensures
        r.0 == (!field_missing(record@, "CALL"@) && !field_missing(record@, "QSO_DATE"@)
            && !field_missing(record@, "TIME_ON"@)),
        r.1.deep_view() =~= missing_list(record@),
{
    let mut missing: Vec<String> = Vec::new();
    let m_call = required_missing(record, "CALL");
    if m_call {
        missing.push("CALL".to_owned());
    }
    let m_date = required_missing(record, "QSO_DATE");
    if m_date {
        missing.push("QSO_DATE".to_owned());
    }
    let m_time = required_missing(record, "TIME_ON");
    if m_time {
        missing.push("TIME_ON".to_owned());
    }
    let ok = missing.len() == 0;
    proof {
        assert(missing.deep_view() =~= missing_list(record@));
    }
    (ok, missing)
}

} // verus!
