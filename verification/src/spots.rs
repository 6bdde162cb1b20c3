//! Spot handling: filtering received spots against worked/member lists,
//! parsing spot lines from the reverse-beacon network, and mapping
//! frequencies to bands and modes.  Frequencies are held exactly, as
//! integer hertz.

use vstd::prelude::*;
use vstd::string::*;
use crate::awards::word_end;
use crate::text::{
    dec_val, is_dec_digits, is_digit_char, is_space_char, str_chars, str_eq, upper_seq, upper_str,
};

verus! {

/// One spot, as the filters consume it.  The frequency is in hertz.
#[derive(Clone, Debug)]
pub struct Spot {
    pub callsign: String,
    pub frequency: u64,
    pub band: String,
    pub mode: String,
    pub snr: i32,
    pub spotter: String,
    pub timestamp: String,
}

/// Membership and worked-before lists for spot filtering.  Worked bands are
/// held as `CALL:BAND` keys, as the host supplies them.
pub struct SpotMatcher {
    worked_callsigns: Vec<String>,
    worked_callsign_bands: Vec<String>,
    skcc_members: Vec<String>,
    tribune_members: Vec<String>,
}

fn list_contains(v: &Vec<String>, s: &str) -> (r: bool)
    ensures
        r == v.deep_view().contains(s@),
{
    let mut k: usize = 0;
    while k < v.len()
        invariant
            k <= v@.len(),
            forall|l: int| 0 <= l < k ==> v.deep_view()[l] != s@,
        decreases v@.len() - k,
    {
        if str_eq(v[k].as_str(), s) {
            proof {
                assert(v.deep_view()[k as int] == s@);
            }
            return true;
        }
        k += 1;
    }
    false
}

/// The `CALL:BAND` key the worked-band list is searched with.
pub open spec fn band_key(callsign: Seq<char>, band: Seq<char>) -> Seq<char> {
    callsign + ":"@ + band
}

fn make_band_key(callsign: &str, band: &str) -> (r: String)
    ensures
        r@ == band_key(callsign@, band@),
{
    let mut k = callsign.to_owned();
    k.append(":");
    k.append(band);
    k
}

impl SpotMatcher {
    pub closed spec fn worked(&self) -> Seq<Seq<char>> {
        self.worked_callsigns.deep_view()
    }

    pub closed spec fn worked_bands(&self) -> Seq<Seq<char>> {
        self.worked_callsign_bands.deep_view()
    }

    pub closed spec fn skcc(&self) -> Seq<Seq<char>> {
        self.skcc_members.deep_view()
    }

    pub closed spec fn tribune(&self) -> Seq<Seq<char>> {
        self.tribune_members.deep_view()
    }

    /// A matcher with no worked contacts and no members.
    pub fn new() -> (r: SpotMatcher)
        ensures
            r.worked() =~= Seq::<Seq<char>>::empty(),
            r.worked_bands() =~= Seq::<Seq<char>>::empty(),
            r.skcc() =~= Seq::<Seq<char>>::empty(),
            r.tribune() =~= Seq::<Seq<char>>::empty(),
    {
        SpotMatcher {
            worked_callsigns: Vec::new(),
            worked_callsign_bands: Vec::new(),
            skcc_members: Vec::new(),
            tribune_members: Vec::new(),
        }
    }

    /// Whether the callsign has been worked before, on any band.
    pub fn is_worked(&self, callsign: &str) -> (r: bool)
        ensures
            r == self.worked().contains(callsign@),
    {
        list_contains(&self.worked_callsigns, callsign)
    }

    /// Whether the callsign has been worked on the given band.
    pub fn is_worked_on_band(&self, callsign: &str, band: &str) -> (r: bool)
        ensures
            r == self.worked_bands().contains(band_key(callsign@, band@)),
    {
        let key = make_band_key(callsign, band);
        list_contains(&self.worked_callsign_bands, key.as_str())
    }

    /// Whether the callsign is a member.
    pub fn is_skcc(&self, callsign: &str) -> (r: bool)
        ensures
            r == self.skcc().contains(callsign@),
    {
        list_contains(&self.skcc_members, callsign)
    }

    /// Whether the callsign holds the senior award suffix.
    pub fn is_tribune(&self, callsign: &str) -> (r: bool)
        ensures
            r == self.tribune().contains(callsign@),
    {
        list_contains(&self.tribune_members, callsign)
    }

    /// Whether one spot passes the filter.  A spot is
    /// `(callsign, frequency, band, mode, snr, spotter, timestamp)`.
    pub open spec fn spot_passes(
        &self,
        spot: (Seq<char>, u64, Seq<char>, Seq<char>, i32, Seq<char>, Seq<char>),
        min_snr: i32,
        bands: Seq<Seq<char>>,
        skcc_only: bool,
        unworked_only: bool,
    ) -> bool {
        &&& spot.4 >= min_snr
        &&& (bands.len() == 0 || bands.contains(spot.2))
        &&& (skcc_only ==> self.skcc().contains(spot.0))
        &&& (unworked_only ==> !self.worked_bands().contains(band_key(spot.0, spot.2)))
    }

    /// The indices of the spots that pass all filters, in increasing order:
    /// strong enough signal, band on the list (an empty list passes all),
    /// members only when asked, and unworked band-slots only when asked.
    #[verifier::loop_isolation(false)]
    pub fn filter_spots(
        &self,
        spots: &Vec<(String, u64, String, String, i32, String, String)>,
        min_snr: i32,
        bands: &Vec<String>,
        skcc_only: bool,
        unworked_only: bool,
    ) -> (r: Vec<usize>)
        ensures
            forall|k1: int, k2: int| 0 <= k1 < k2 < r@.len() ==> r@[k1] < r@[k2],
            forall|k: int| 0 <= k < r@.len() ==> (#[trigger] r@[k]) < spots@.len(),
            forall|i: int| 0 <= i < spots@.len()
                ==> (r@.contains(i as usize) <==> self.spot_passes(
                    spots.deep_view()[i], min_snr, bands.deep_view(), skcc_only, unworked_only)),
    {
        let ghost sv = spots.deep_view();
        let mut r: Vec<usize> = Vec::new();
        let mut idx: usize = 0;
        while idx < spots.len()
            invariant
                idx <= spots@.len(),
                sv.len() == spots@.len(),
                forall|k1: int, k2: int| 0 <= k1 < k2 < r@.len() ==> r@[k1] < r@[k2],
                forall|k: int| 0 <= k < r@.len() ==> (#[trigger] r@[k]) < idx,
                forall|i: int| 0 <= i < idx
                    ==> (r@.contains(i as usize) <==> self.spot_passes(
                        sv[i], min_snr, bands.deep_view(), skcc_only, unworked_only)),
            decreases spots@.len() - idx,
        {
            let s = &spots[idx];
            proof {
                assert(sv[idx as int] == (s.0@, s.1, s.2@, s.3@, s.4, s.5@, s.6@));
            }
            let band_pass = bands.len() == 0 || list_contains(bands, s.2.as_str());
            let pass = s.4 >= min_snr && band_pass
                && (!skcc_only || self.is_skcc(s.0.as_str()))
                && (!unworked_only || !self.is_worked_on_band(s.0.as_str(), s.2.as_str()));
            let ghost before = r@;
            if pass {
                r.push(idx);
            }
            proof {
                assert forall|i: int| 0 <= i < idx + 1 implies
                    (r@.contains(i as usize) <==> self.spot_passes(
                        sv[i], min_snr, bands.deep_view(), skcc_only, unworked_only)) by {
                    if pass {
                        assert(r@ == before.push(idx));
                        if i < idx {
                            if before.contains(i as usize) {
                                let w = choose|w: int| 0 <= w < before.len()
                                    && before[w] == i as usize;
                                assert(r@[w] == i as usize);
                            }
                            if r@.contains(i as usize) {
                                let w = choose|w: int| 0 <= w < r@.len()
                                    && r@[w] == i as usize;
                                if w < before.len() {
                                    assert(before[w] == i as usize);
                                }
                            }
                        } else {
                            assert(r@[r@.len() - 1] == idx as usize);
                        }
                    } else {
                        if i == idx {
                            if r@.contains(i as usize) {
                                let w = choose|w: int| 0 <= w < r@.len()
                                    && r@[w] == i as usize;
                                assert(r@[w] < idx);
                            }
                        }
                    }
                }
            }
            idx += 1;
        }
        r
    }
}

/// A matcher with nothing worked and no members, as a starting point.
pub fn create_spot_matcher() -> (r: SpotMatcher)
    ensures
        r.worked() =~= Seq::<Seq<char>>::empty(),
        r.worked_bands() =~= Seq::<Seq<char>>::empty(),
        r.skcc() =~= Seq::<Seq<char>>::empty(),
        r.tribune() =~= Seq::<Seq<char>>::empty(),
{
    SpotMatcher::new()
}

/// Whether one batch spot passes: `(callsign, band, snr)` against the
/// worked-band keys and the member list.
pub open spec fn batch_spot_passes(
    spot: (Seq<char>, Seq<char>, i32),
    worked_bands: Seq<Seq<char>>,
    skcc: Seq<Seq<char>>,
    min_snr: i32,
    bands: Seq<Seq<char>>,
    skcc_only: bool,
    unworked_only: bool,
) -> bool {
    &&& spot.2 >= min_snr
    &&& (bands.len() == 0 || bands.contains(spot.1))
    &&& (skcc_only ==> skcc.contains(spot.0))
    &&& (unworked_only ==> !worked_bands.contains(band_key(spot.0, spot.1)))
}

/// Filters a batch of `(callsign, band, snr)` spots against the given
/// lists, returning the indices that pass, in increasing order.  The worked
/// and senior-member lists are accepted for interface parity and do not
/// take part in the filter.
#[verifier::loop_isolation(false)]
pub fn batch_filter_spots(
    spots: &Vec<(String, String, i32)>,
    _worked_calls: Vec<String>,
    worked_bands: Vec<String>,
    skcc_members: Vec<String>,
    _tribune_members: Vec<String>,
    min_snr: i32,
    bands: Vec<String>,
    skcc_only: bool,
    unworked_only: bool,
) -> (r: Vec<usize>)
    ensures
        forall|k1: int, k2: int| 0 <= k1 < k2 < r@.len() ==> r@[k1] < r@[k2],
        forall|k: int| 0 <= k < r@.len() ==> (#[trigger] r@[k]) < spots@.len(),
        forall|i: int| 0 <= i < spots@.len()
            ==> (r@.contains(i as usize) <==> batch_spot_passes(
                spots.deep_view()[i], worked_bands.deep_view(), skcc_members.deep_view(),
                min_snr, bands.deep_view(), skcc_only, unworked_only)),
{
    let ghost sv = spots.deep_view();
    let mut r: Vec<usize> = Vec::new();
    let mut idx: usize = 0;
    while idx < spots.len()
        invariant
            idx <= spots@.len(),
            sv.len() == spots@.len(),
            forall|k1: int, k2: int| 0 <= k1 < k2 < r@.len() ==> r@[k1] < r@[k2],
            forall|k: int| 0 <= k < r@.len() ==> (#[trigger] r@[k]) < idx,
            forall|i: int| 0 <= i < idx
                ==> (r@.contains(i as usize) <==> batch_spot_passes(
                    sv[i], worked_bands.deep_view(), skcc_members.deep_view(),
                    min_snr, bands.deep_view(), skcc_only, unworked_only)),
        decreases spots@.len() - idx,
    {
        let s = &spots[idx];
        proof {
            assert(sv[idx as int] == (s.0@, s.1@, s.2));
        }
        let band_pass = bands.len() == 0 || list_contains(&bands, s.1.as_str());
        let key = make_band_key(s.0.as_str(), s.1.as_str());
        let pass = s.2 >= min_snr && band_pass
            && (!skcc_only || list_contains(&skcc_members, s.0.as_str()))
            && (!unworked_only || !list_contains(&worked_bands, key.as_str()));
        let ghost before = r@;
        if pass {
            r.push(idx);
        }
        proof {
            assert forall|i: int| 0 <= i < idx + 1 implies
                (r@.contains(i as usize) <==> batch_spot_passes(
                    sv[i], worked_bands.deep_view(), skcc_members.deep_view(),
                    min_snr, bands.deep_view(), skcc_only, unworked_only)) by {
                if pass {
                    assert(r@ == before.push(idx));
                    if i < idx {
                        if before.contains(i as usize) {
                            let w = choose|w: int| 0 <= w < before.len()
                                && before[w] == i as usize;
                            assert(r@[w] == i as usize);
                        }
                        if r@.contains(i as usize) {
                            let w = choose|w: int| 0 <= w < r@.len() && r@[w] == i as usize;
                            if w < before.len() {
                                assert(before[w] == i as usize);
                            }
                        }
                    } else {
                        assert(r@[r@.len() - 1] == idx as usize);
                    }
                } else {
                    if i == idx {
                        if r@.contains(i as usize) {
                            let w = choose|w: int| 0 <= w < r@.len() && r@[w] == i as usize;
                            assert(r@[w] < idx);
                        }
                    }
                }
            }
        }
        idx += 1;
    }
    r
}

/// The whitespace-separated words of a line, from position `i` on.
pub open spec fn words_from(s: Seq<char>, i: int) -> Seq<Seq<char>>
    recommends 0 <= i,
    decreases s.len() - i when 0 <= i via words_from_decreases
{
    if i >= s.len() {
        Seq::empty()
    } else if is_space_char(s[i]) {
        words_from(s, i + 1)
    } else {
        let e = word_end(s, i);
        seq![s.subrange(i, e)] + words_from(s, e)
    }
}

#[via_fn]
proof fn words_from_decreases(s: Seq<char>, i: int) {
    if 0 <= i < s.len() && !is_space_char(s[i]) {
        crate::awards::lemma_word_end(s, i);
    }
}

/// Splits a line into its whitespace-separated words.
#[verifier::loop_isolation(false)]
pub fn split_words(line: &str) -> (r: Vec<String>)
    ensures
        r.deep_view() == words_from(line@, 0),
{
    let ghost s = line@;
    let n = line.unicode_len();
    let mut out: Vec<String> = Vec::new();
    let ghost mut done: Seq<Seq<char>> = Seq::empty();
    proof {
        assert(out.deep_view() =~= done);
    }
    let mut i: usize = 0;
    while i < n
        invariant
            i <= n,
            n == s.len(),
            out.deep_view() == done,
            words_from(s, 0) == done + words_from(s, i as int),
        decreases n - i,
    {
        if crate::text::is_space(line.get_char(i)) {
            proof {
                assert(done + words_from(s, i as int) == done + words_from(s, i + 1));
            }
            i += 1;
            continue;
        }
        proof {
            crate::awards::lemma_word_end(s, i as int);
        }
        let mut e = i;
        while e < n && !crate::text::is_space(line.get_char(e))
            invariant
                i <= e <= n,
                word_end(s, i as int) == word_end(s, e as int),
            decreases n - e,
        {
            e += 1;
        }
        proof {
            assert(word_end(s, i as int) == e);
        }
        let w = line.substring_char(i, e);
        let ghost wv = s.subrange(i as int, e as int);
        out.push(w.to_owned());
        proof {
            assert(words_from(s, i as int) == seq![wv] + words_from(s, e as int));
            done = done.push(wv);
            assert(out.deep_view() =~= done);
            assert(done + words_from(s, e as int) =~= words_from(s, 0));
        }
        i = e;
    }
    proof {
        assert(words_from(s, n as int) =~= Seq::<Seq<char>>::empty());
        assert(done =~= done + words_from(s, n as int));
    }
    out
}

/// The first `.` at or after `i`.
pub open spec fn dot_pos(s: Seq<char>, i: int) -> int
    recommends 0 <= i <= s.len(),
    decreases s.len() - i when 0 <= i <= s.len()
{
    if i >= s.len() {
        i
    } else if s[i] == '.' {
        i
    } else {
        dot_pos(s, i + 1)
    }
}

/// The thousandths a fractional kilohertz part contributes: the first three
/// fraction digits, anything finer discarded.
pub open spec fn frac_milli(fp: Seq<char>) -> int {
    (if fp.len() >= 1 { crate::text::digit_val(fp[0]) * 100 } else { 0 })
        + (if fp.len() >= 2 { crate::text::digit_val(fp[1]) * 10 } else { 0 })
        + (if fp.len() >= 3 { crate::text::digit_val(fp[2]) } else { 0 })
}

/// A kilohertz token (`14025.0`) as exact hertz: plain decimal digits with
/// an optional fraction, no sign and no exponent, rejected when the value
/// cannot be carried in hertz.
pub open spec fn khz_token_hz(w: Seq<char>) -> Option<int> {
    let dp = dot_pos(w, 0);
    let ip = w.subrange(0, dp);
    let fp = if dp < w.len() { w.subrange(dp + 1, w.len() as int) } else { Seq::empty() };
    if (ip.len() > 0 || fp.len() > 0) && is_dec_digits(ip) && is_dec_digits(fp)
        && dec_val(ip) <= (u64::MAX as int - 999) / 1000 {
        Some(dec_val(ip) * 1000 + frac_milli(fp))
    } else {
        None
    }
}

/// Parses a kilohertz token into hertz, as `khz_token_hz` describes.
#[verifier::loop_isolation(false)]
fn parse_khz_to_hz(w: &str) -> (r: Option<u64>)
    ensures
        match r {
            Some(hz) => khz_token_hz(w@) == Some(hz as int),
            None => khz_token_hz(w@) is None,
        },
{
    let v = str_chars(w);
    let ghost s = w@;
    let mut dp: usize = 0;
    while dp < v.len() && v[dp] != '.'
        invariant
            dp <= v.len(),
            dot_pos(s, 0) == dot_pos(s, dp as int),
        decreases v.len() - dp,
    {
        dp += 1;
    }
    proof {
        assert(dot_pos(s, 0) == dp);
    }
    let ghost ip = s.subrange(0, dp as int);
    let ghost fp = if (dp as int) < s.len() { s.subrange(dp as int + 1, s.len() as int) } else {
        Seq::<char>::empty()
    };
    let fstart = if dp < v.len() { dp + 1 } else { dp };
    if dp == 0 && fstart >= v.len() {
        // neither integer nor fraction digits
        return None;
    }
    // every fraction character must be a digit
    let mut k = fstart;
    while k < v.len()
        invariant
            fstart <= k <= v.len(),
            forall|l: int| fstart <= l < k ==> is_digit_char(#[trigger] s[l]),
        decreases v.len() - k,
    {
        let u = v[k] as u32;
        if u < 48 || u > 57 {
            proof {
                assert(!is_digit_char(fp[k - fstart]));
            }
            return None;
        }
        k += 1;
    }
    proof {
        assert forall|l: int| 0 <= l < fp.len() implies is_digit_char(#[trigger] fp[l]) by {
            assert(fp[l] == s[fstart + l]);
        }
    }
    // integer part: digits, bounded so the hertz value fits
    let bound = (u64::MAX - 999) / 1000;
    let mut acc: u64 = 0;
    let mut over = false;
    let mut j: usize = 0;
    while j < dp
        invariant
            j <= dp,
            dp <= v.len(),
            forall|l: int| 0 <= l < j ==> is_digit_char(#[trigger] s[l]),
            !over ==> acc as int == dec_val(s.subrange(0, j as int)),
            !over ==> acc <= bound,
            over ==> dec_val(s.subrange(0, j as int)) > bound,
        decreases dp - j,
    {
        let u = v[j] as u32;
        if u < 48 || u > 57 {
            proof {
                assert(!is_digit_char(ip[j as int]));
            }
            return None;
        }
        let dv = (u - 48) as u64;
        proof {
            assert(s.subrange(0, j as int + 1).drop_last() =~= s.subrange(0, j as int));
            assert(dec_val(s.subrange(0, j as int + 1))
                == dec_val(s.subrange(0, j as int)) * 10 + crate::text::digit_val(s[j as int]));
        }
        if over {
            proof {
                assert(forall|l: int| 0 <= l < j ==> is_digit_char(
                    #[trigger] s.subrange(0, j as int)[l]));
                crate::text::lemma_dec_val_nonneg(s.subrange(0, j as int));
            }
        } else if acc > bound / 10 {
            proof {
                assert(acc * 10 > bound);
            }
            over = true;
        } else {
            let acc10 = acc * 10;
            if dv > bound - acc10 {
                over = true;
            } else {
                acc = acc10 + dv;
            }
        }
        j += 1;
    }
    proof {
        assert(s.subrange(0, dp as int) =~= ip);
    }
    if over {
        return None;
    }
    let mut frac: u64 = 0;
    if fstart < v.len() {
        let flen = v.len() - fstart;
        let d0 = v[fstart] as u32;
        frac = ((d0 - 48) as u64) * 100;
        if flen >= 2 {
            let d1 = v[fstart + 1] as u32;
            frac = frac + ((d1 - 48) as u64) * 10;
        }
        if flen >= 3 {
            let d2 = v[fstart + 2] as u32;
            frac = frac + ((d2 - 48) as u64);
        }
    }
    proof {
        assert(frac as int == frac_milli(fp));
        assert(acc as int == dec_val(ip));
        assert(acc * 1000 + 999 <= u64::MAX);
    }
    Some(acc * 1000 + frac)
}

/// A signed decimal token as `i32` parses it: an optional sign, then
/// digits, within the type's range.
pub open spec fn parse_i32_spec(w: Seq<char>) -> Option<int> {
    let signed = w.len() > 0 && (w[0] == '-' || w[0] == '+');
    let neg = w.len() > 0 && w[0] == '-';
    let d = if signed { w.drop_first() } else { w };
    if d.len() > 0 && is_dec_digits(d)
        && (if neg { dec_val(d) <= 2147483648 } else { dec_val(d) <= 2147483647 }) {
        Some(if neg { -dec_val(d) } else { dec_val(d) })
    } else {
        None
    }
}

#[verifier::loop_isolation(false)]
fn parse_i32(w: &str) -> (r: Option<i32>)
    ensures
        match r {
            Some(v) => parse_i32_spec(w@) == Some(v as int),
            None => parse_i32_spec(w@) is None,
        },
{
    let v = str_chars(w);
    let ghost s = w@;
    let signed = v.len() > 0 && (v[0] == '-' || v[0] == '+');
    let neg = v.len() > 0 && v[0] == '-';
    let start: usize = if signed { 1 } else { 0 };
    let ghost d = if signed { s.drop_first() } else { s };
    proof {
        assert(d =~= s.subrange(start as int, s.len() as int));
    }
    if v.len() == start {
        return None;
    }
    let limit: u32 = if neg { 2147483648 } else { 2147483647 };
    let mut acc: u32 = 0;
    let mut over = false;
    let mut j = start;
    while j < v.len()
        invariant
            start <= j <= v.len(),
            start < v.len(),
            forall|l: int| start <= l < j ==> is_digit_char(#[trigger] s[l]),
            !over ==> acc as int == dec_val(s.subrange(start as int, j as int)),
            !over ==> acc <= limit,
            over ==> dec_val(s.subrange(start as int, j as int)) > limit,
        decreases v.len() - j,
    {
        let u = v[j] as u32;
        if u < 48 || u > 57 {
            proof {
                assert(!is_digit_char(d[j - start]));
            }
            return None;
        }
        let dv = u - 48;
        proof {
            assert(s.subrange(start as int, j as int + 1).drop_last()
                =~= s.subrange(start as int, j as int));
            assert(dec_val(s.subrange(start as int, j as int + 1))
                == dec_val(s.subrange(start as int, j as int)) * 10
                    + crate::text::digit_val(s[j as int]));
        }
        if over {
            proof {
                assert(forall|l: int| 0 <= l < j - start ==> is_digit_char(
                    #[trigger] s.subrange(start as int, j as int)[l]));
                crate::text::lemma_dec_val_nonneg(s.subrange(start as int, j as int));
            }
        } else if acc > limit / 10 {
            proof {
                assert(acc * 10 > limit);
            }
            over = true;
        } else {
            let acc10 = acc * 10;
            if dv > limit - acc10 {
                over = true;
            } else {
                acc = acc10 + dv;
            }
        }
        j += 1;
    }
    proof {
        assert(s.subrange(start as int, j as int) =~= d);
        assert forall|l: int| 0 <= l < d.len() implies is_digit_char(#[trigger] d[l]) by {
            assert(d[l] == s[start + l]);
        }
    }
    if over {
        return None;
    }
    if neg {
        if acc == 2147483648 {
            Some(i32::MIN)
        } else {
            Some(-(acc as i32))
        }
    } else {
        Some(acc as i32)
    }
}

/// The reported signal strength: the first word followed by `dB` that
/// parses as a number, zero when there is none.
pub open spec fn snr_of(parts: Seq<Seq<char>>, i: int) -> int
    recommends 0 <= i,
    decreases parts.len() - i when 0 <= i
{
    if i + 1 >= parts.len() {
        0
    } else if parts[i + 1] == "dB"@ && parse_i32_spec(parts[i]) is Some {
        parse_i32_spec(parts[i])->0
    } else {
        snr_of(parts, i + 1)
    }
}

/// The timestamp: the last word ending in `Z`, empty when there is none.
pub open spec fn ts_of(parts: Seq<Seq<char>>, i: int) -> Seq<char>
    recommends i < parts.len(),
    decreases i + 1 when i < parts.len()
{
    if i < 0 {
        Seq::empty()
    } else if parts[i].len() > 0 && parts[i].last() == 'Z' {
        parts[i]
    } else {
        ts_of(parts, i - 1)
    }
}

/// One parsed spot line from the reverse-beacon network.
#[derive(Clone, Debug)]
pub struct RbnSpot {
    pub callsign: String,
    /// The spotted frequency, in hertz.
    pub frequency: u64,
    pub snr: i32,
    pub timestamp: String,
}

/// Why a spot line is rejected: it does not follow the network's format.
#[derive(PartialEq, Eq, Structural, Clone, Copy, Debug)]
pub enum RbnError {
    InvalidRbnFormat,
}

/// A line is accepted when it has at least seven words, opens with
/// `DX de`, and carries a readable frequency in its fourth word.
pub open spec fn rbn_line_ok(parts: Seq<Seq<char>>) -> bool {
    &&& parts.len() >= 7
    &&& parts[0] == "DX"@
    &&& parts[1] == "de"@
    &&& khz_token_hz(parts[3]) is Some
}

/// Parses one spot line, such as
/// `DX de K3LR-#:     14025.0  W4GNS  CW  24 dB  33 WPM  CQ  1234Z`:
/// the callsign is the fifth word, the frequency the fourth, the signal
/// strength the first number followed by `dB`, and the timestamp the last
/// word ending in `Z`.
#[verifier::loop_isolation(false)]
pub fn parse_rbn_spot(line: &str) -> (r: Result<RbnSpot, RbnError>)
    ensures
        r is Ok <==> rbn_line_ok(words_from(line@, 0)),
        r is Ok ==> r->Ok_0.callsign@ == words_from(line@, 0)[4],
        r is Ok ==> Some(r->Ok_0.frequency as int) == khz_token_hz(words_from(line@, 0)[3]),
        r is Ok ==> r->Ok_0.snr as int == snr_of(words_from(line@, 0), 0),
        r is Ok ==> r->Ok_0.timestamp@ == ts_of(
            words_from(line@, 0), words_from(line@, 0).len() - 1),
{
    let parts = split_words(line);
    let ghost ps = words_from(line@, 0);
    if parts.len() < 7 {
        return Err(RbnError::InvalidRbnFormat);
    }
    if !str_eq(parts[0].as_str(), "DX") || !str_eq(parts[1].as_str(), "de") {
        return Err(RbnError::InvalidRbnFormat);
    }
    let frequency = match parse_khz_to_hz(parts[3].as_str()) {
        Some(hz) => hz,
        None => { return Err(RbnError::InvalidRbnFormat); },
    };
    let callsign = parts[4].clone();
    // signal strength: the first number followed by "dB"
    let mut snr: i32 = 0;
    let mut found_snr = false;
    let mut i: usize = 0;
    while !found_snr && i < parts.len() - 1
        invariant
            i <= parts@.len(),
            parts@.len() >= 7,
            !found_snr ==> snr == 0 && snr_of(ps, 0) == snr_of(ps, i as int),
            found_snr ==> snr as int == snr_of(ps, 0),
        decreases parts@.len() - i,
    {
        if str_eq(parts[i + 1].as_str(), "dB") {
            match parse_i32(parts[i].as_str()) {
                Some(v) => {
                    snr = v;
                    found_snr = true;
                    proof {
                        assert(ps[i as int + 1] == "dB"@);
                        assert(snr_of(ps, i as int) == v as int);
                    }
                },
                None => {},
            }
        }
        proof {
            if !found_snr {
                assert(snr_of(ps, i as int) == snr_of(ps, i + 1));
            }
        }
        i += 1;
    }
    proof {
        if !found_snr {
            assert(snr_of(ps, i as int) == 0);
        }
    }
    // timestamp: the last word ending in 'Z'
    let mut timestamp = String::new();
    let mut found_ts = false;
    let mut k = parts.len();
    while !found_ts && k > 0
        invariant
            k <= parts@.len(),
            !found_ts ==> ts_of(ps, ps.len() - 1) == ts_of(ps, k - 1),
            !found_ts ==> timestamp@ == Seq::<char>::empty(),
            found_ts ==> timestamp@ == ts_of(ps, ps.len() - 1),
        decreases k,
    {
        let w = &parts[k - 1];
        let n = w.as_str().unicode_len();
        if n > 0 && w.as_str().get_char(n - 1) == 'Z' {
            timestamp = w.clone();
            found_ts = true;
            proof {
                assert(ps[k - 1].len() > 0 && ps[k - 1].last() == 'Z');
                assert(ts_of(ps, k - 1) == ps[k - 1]);
            }
        } else {
            proof {
                assert(!(ps[k - 1].len() > 0 && ps[k - 1].last() == 'Z'));
                assert(ts_of(ps, k - 1) == ts_of(ps, k - 2));
            }
        }
        k -= 1;
    }
    proof {
        if !found_ts {
            assert(ts_of(ps, -1) == Seq::<char>::empty());
        }
    }
    Ok(RbnSpot { callsign, frequency, snr, timestamp })
}

/// The amateur band a frequency falls in, as the band plan's edges have
/// it, or `UNK` outside every band.
pub open spec fn band_of(hz: int) -> Seq<char> {
    if 1800000 <= hz && hz <= 2000000 { "160M"@ }
    else if 3500000 <= hz && hz <= 4000000 { "80M"@ }
    else if 5300000 <= hz && hz <= 5400000 { "60M"@ }
    else if 7000000 <= hz && hz <= 7300000 { "40M"@ }
    else if 10100000 <= hz && hz <= 10150000 { "30M"@ }
    else if 14000000 <= hz && hz <= 14350000 { "20M"@ }
    else if 18068000 <= hz && hz <= 18168000 { "17M"@ }
    else if 21000000 <= hz && hz <= 21450000 { "15M"@ }
    else if 24890000 <= hz && hz <= 24990000 { "12M"@ }
    else if 28000000 <= hz && hz <= 29700000 { "10M"@ }
    else if 50000000 <= hz && hz <= 54000000 { "6M"@ }
    else { "UNK"@ }
}

/// Maps a frequency in hertz to its band name.
pub fn frequency_to_band(freq_hz: u64) -> (r: String)
    ensures
        r@ == band_of(freq_hz as int),
{
    let b: &str = if 1800000 <= freq_hz && freq_hz <= 2000000 { "160M" }
    else if 3500000 <= freq_hz && freq_hz <= 4000000 { "80M" }
    else if 5300000 <= freq_hz && freq_hz <= 5400000 { "60M" }
    else if 7000000 <= freq_hz && freq_hz <= 7300000 { "40M" }
    else if 10100000 <= freq_hz && freq_hz <= 10150000 { "30M" }
    else if 14000000 <= freq_hz && freq_hz <= 14350000 { "20M" }
    else if 18068000 <= freq_hz && freq_hz <= 18168000 { "17M" }
    else if 21000000 <= freq_hz && freq_hz <= 21450000 { "15M" }
    else if 24890000 <= freq_hz && freq_hz <= 24990000 { "12M" }
    else if 28000000 <= freq_hz && freq_hz <= 29700000 { "10M" }
    else if 50000000 <= freq_hz && freq_hz <= 54000000 { "6M" }
    else { "UNK" };
    b.to_owned()
}

/// A usable explicit mode hint, folded to uppercase.
pub open spec fn hint_mode(h: Seq<char>) -> Option<Seq<char>> {
    let u = upper_seq(h);
    if u == "CW"@ || u == "SSB"@ || u == "USB"@ || u == "LSB"@ || u == "FM"@
        || u == "RTTY"@ || u == "FT8"@ || u == "FT4"@ {
        Some(u)
    } else {
        None
    }
}

/// The mode the band plan assigns a frequency, the telegraphy segments
/// first, then the voice segments, telegraphy when nothing matches.
pub open spec fn freq_mode(hz: int) -> Seq<char> {
    if 1800000 <= hz && hz <= 1840000 { "CW"@ }
    else if 3500000 <= hz && hz <= 3600000 { "CW"@ }
    else if 7000000 <= hz && hz <= 7040000 { "CW"@ }
    else if 14000000 <= hz && hz <= 14070000 { "CW"@ }
    else if 21000000 <= hz && hz <= 21070000 { "CW"@ }
    else if 28000000 <= hz && hz <= 28070000 { "CW"@ }
    else if 3600000 <= hz && hz <= 4000000 { "LSB"@ }
    else if 7040000 <= hz && hz <= 7300000 { "LSB"@ }
    else if 14150000 <= hz && hz <= 14350000 { "USB"@ }
    else if 21200000 <= hz && hz <= 21450000 { "USB"@ }
    else if 28300000 <= hz && hz <= 29700000 { "USB"@ }
    else { "CW"@ }
}

pub open spec fn mode_of(hz: int, hint: Option<Seq<char>>) -> Seq<char> {
    match hint {
        Some(h) => match hint_mode(h) {
            Some(m) => m,
            None => freq_mode(hz),
        },
        None => freq_mode(hz),
    }
}

/// Determines the operating mode: a recognized explicit hint wins, folded
/// to uppercase; otherwise the frequency decides through the band plan.
pub fn determine_mode(freq_hz: u64, mode_hint: Option<&str>) -> (r: String)
    ensures
        r@ == mode_of(freq_hz as int, match mode_hint { Some(h) => Some(h@), None => None }),
{
    match mode_hint {
        Some(h) => {
            let u = upper_str(h);
            if str_eq(u.as_str(), "CW") || str_eq(u.as_str(), "SSB")
                || str_eq(u.as_str(), "USB") || str_eq(u.as_str(), "LSB")
                || str_eq(u.as_str(), "FM") || str_eq(u.as_str(), "RTTY")
                || str_eq(u.as_str(), "FT8") || str_eq(u.as_str(), "FT4") {
                return u;
            }
        },
        None => {},
    }
    let m: &str = if 1800000 <= freq_hz && freq_hz <= 1840000 { "CW" }
    else if 3500000 <= freq_hz && freq_hz <= 3600000 { "CW" }
    else if 7000000 <= freq_hz && freq_hz <= 7040000 { "CW" }
    else if 14000000 <= freq_hz && freq_hz <= 14070000 { "CW" }
    else if 21000000 <= freq_hz && freq_hz <= 21070000 { "CW" }
    else if 28000000 <= freq_hz && freq_hz <= 28070000 { "CW" }
    else if 3600000 <= freq_hz && freq_hz <= 4000000 { "LSB" }
    else if 7040000 <= freq_hz && freq_hz <= 7300000 { "LSB" }
    else if 14150000 <= freq_hz && freq_hz <= 14350000 { "USB" }
    else if 21200000 <= freq_hz && freq_hz <= 21450000 { "USB" }
    else if 28300000 <= freq_hz && freq_hz <= 29700000 { "USB" }
    else { "CW" };
    m.to_owned()
}

} // verus!
