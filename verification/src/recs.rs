//! Recommendations: keywords and years read from titles, the user's
//! affinity built from history and favorites, and the integer parts of the
//! scoring and filtering of candidates.

use vstd::prelude::*;
use vstd::utf8::encode_utf8;
use crate::text::{
    strings_view, trim, trim_ws, lower, to_lower, to_chars, string_from_chars, eq_str,
    split_char, split_on, is_digit, digits_value, all_digits, chars_eq, push_all, dec,
    dec_chars,
};
use crate::urls::opt_str_view;
use crate::jobs::headers_view;

verus! {

// ------------------------------------------------------------------ keywords

/// `char::is_alphanumeric` (Unicode `Alphabetic` or `Numeric`).
pub uninterp spec fn is_alphanumeric_spec(c: char) -> bool;

/// ASCII letters and digits.
pub open spec fn ascii_alnum(c: char) -> bool {
    ('A' <= c && c <= 'Z') || ('a' <= c && c <= 'z') || ('0' <= c && c <= '9')
}

/// `char::is_alphanumeric`. Besides naming the Unicode property, the
/// contract states what the std documentation gives for ASCII: there, the
/// alphanumerics are exactly the letters and digits.
#[verifier::external_body]
fn is_alphanumeric(c: char) -> (r: bool)
    ensures
        r == is_alphanumeric_spec(c),
        (c as u32) < 128 ==> r == ascii_alnum(c),
{
    c.is_alphanumeric()
}

/// Whether a character is alphanumeric: below 128, an ASCII letter or
/// digit; above, the Unicode property.
pub open spec fn alnum_class(c: char) -> bool {
    if (c as u32) < 128 {
        ascii_alnum(c)
    } else {
        is_alphanumeric_spec(c)
    }
}

/// The pieces of `s` between non-alphanumeric characters
/// (`str::split(|c| !c.is_alphanumeric())`).
pub open spec fn alnum_pieces(s: Seq<char>) -> Seq<Seq<char>>
    decreases s.len(),
{
    if s.len() == 0 {
        seq![Seq::<char>::empty()]
    } else {
        let prev = alnum_pieces(s.drop_last());
        if !alnum_class(s.last()) {
            prev.push(Seq::<char>::empty())
        } else {
            prev.update(prev.len() - 1, prev.last().push(s.last()))
        }
    }
}

/// Words too common in titles to say anything about taste.
pub open spec fn is_rec_stopword(w: Seq<char>) -> bool {
    ||| w == "the"@ ||| w == "a"@ ||| w == "an"@ ||| w == "and"@ ||| w == "or"@ ||| w == "of"@
    ||| w == "in"@ ||| w == "on"@ ||| w == "at"@ ||| w == "to"@ ||| w == "for"@ ||| w == "with"@
    ||| w == "vs"@ ||| w == "part"@ ||| w == "season"@ ||| w == "episode"@ ||| w == "movie"@
    ||| w == "film"@ ||| w == "series"@ ||| w == "show"@ ||| w == "hd"@ ||| w == "4k"@
    ||| w == "full"@ ||| w == "dubbed"@ ||| w == "hindi"@ ||| w == "english"@ ||| w == "tamil"@
    ||| w == "telugu"@ ||| w == "ii"@ ||| w == "iii"@ ||| w == "iv"@
}

fn is_rec_stopword_exec(w: &[char]) -> (r: bool)
    ensures
        r == is_rec_stopword(w@),
{
    eq_str(w, "the") || eq_str(w, "a") || eq_str(w, "an") || eq_str(w, "and") || eq_str(w, "or")
        || eq_str(w, "of") || eq_str(w, "in") || eq_str(w, "on") || eq_str(w, "at") || eq_str(
        w,
        "to",
    ) || eq_str(w, "for") || eq_str(w, "with") || eq_str(w, "vs") || eq_str(w, "part") || eq_str(
        w,
        "season",
    ) || eq_str(w, "episode") || eq_str(w, "movie") || eq_str(w, "film") || eq_str(w, "series")
        || eq_str(w, "show") || eq_str(w, "hd") || eq_str(w, "4k") || eq_str(w, "full") || eq_str(
        w,
        "dubbed",
    ) || eq_str(w, "hindi") || eq_str(w, "english") || eq_str(w, "tamil") || eq_str(w, "telugu")
        || eq_str(w, "ii") || eq_str(w, "iii") || eq_str(w, "iv")
}

/// A piece kept as a keyword: at least three bytes once trimmed and
/// lower-cased, and not a stopword.
pub open spec fn keeps(w: Seq<char>) -> bool {
    encode_utf8(w).len() >= 3 && !is_rec_stopword(w)
}

/// The keywords among the pieces, trimmed and lower-cased, in order.
pub open spec fn keep_tokens(ps: Seq<Seq<char>>) -> Seq<Seq<char>>
    decreases ps.len(),
{
    if ps.len() == 0 {
        Seq::empty()
    } else {
        let w = lower(trim(ps.last()));
        if keeps(w) {
            keep_tokens(ps.drop_last()).push(w)
        } else {
            keep_tokens(ps.drop_last())
        }
    }
}

/// The keywords of a title.
pub open spec fn rec_tokens_spec(s: Seq<char>) -> Seq<Seq<char>> {
    keep_tokens(alnum_pieces(s))
}

fn alnum_pieces_exec(s: &[char]) -> (r: Vec<Vec<char>>)
    ensures
        r@.map_values(|x: Vec<char>| x@) == alnum_pieces(s@),
{
    let mut parts: Vec<Vec<char>> = Vec::new();
    let mut cur: Vec<char> = Vec::new();
    let mut i: usize = 0;
    assert(s@.take(0) =~= Seq::<char>::empty());
    assert(parts@.map_values(|x: Vec<char>| x@).push(cur@) =~= seq![Seq::<char>::empty()]);
    while i < s.len()
        invariant
            i <= s.len(),
            alnum_pieces(s@.take(i as int)) == parts@.map_values(|x: Vec<char>| x@).push(cur@),
        decreases s.len() - i,
    {
        let c = s[i];
        let ghost before = parts@.map_values(|x: Vec<char>| x@);
        let ghost cur_before = cur@;
        assert(s@.take(i + 1).drop_last() =~= s@.take(i as int));
        if !is_alphanumeric(c) {
            parts.push(cur);
            cur = Vec::new();
            assert(parts@.map_values(|x: Vec<char>| x@) =~= before.push(cur_before));
            assert(alnum_pieces(s@.take(i + 1)) =~= parts@.map_values(|x: Vec<char>| x@).push(
                cur@,
            ));
        } else {
            cur.push(c);
            assert(alnum_pieces(s@.take(i + 1)) =~= parts@.map_values(|x: Vec<char>| x@).push(
                cur@,
            ));
        }
        i = i + 1;
    }
    assert(s@.take(s.len() as int) =~= s@);
    parts.push(cur);
    parts
}

/// The keywords of a title: its alphanumeric runs, trimmed and lower-cased
/// (ASCII), of at least three bytes and not stopwords.
pub fn rec_tokens(s: &str) -> (r: Vec<String>)
    ensures
        strings_view(r@) == rec_tokens_spec(s@),
{
    rec_tokens_of(&to_chars(s))
}

fn rec_tokens_of(s: &[char]) -> (r: Vec<String>)
    ensures
        strings_view(r@) == rec_tokens_spec(s@),
{
    let ps = alnum_pieces_exec(s);
    let ghost psv = alnum_pieces(s@);
    let mut r: Vec<String> = Vec::new();
    let mut i: usize = 0;
    while i < ps.len()
        invariant
            i <= ps.len(),
            ps@.map_values(|x: Vec<char>| x@) == psv,
            psv == alnum_pieces(s@),
            strings_view(r@) == keep_tokens(psv.take(i as int)),
        decreases ps.len() - i,
    {
        assert(ps[i as int]@ == psv[i as int]);
        assert(psv.take(i + 1).drop_last() =~= psv.take(i as int));
        let w = to_lower(&trim_ws(&ps[i]));
        let ws = string_from_chars(&w);
        if ws.as_str().as_bytes().len() >= 3 && !is_rec_stopword_exec(&w) {
            let ghost before = strings_view(r@);
            let ghost wv = ws@;
            r.push(ws);
            assert(strings_view(r@) =~= before.push(wv));
        }
        i = i + 1;
    }
    assert(psv.take(ps.len() as int) =~= psv);
    r
}

// ------------------------------------------------------------------ years

/// The ASCII digits of `s`, in order.
pub open spec fn digits_of(s: Seq<char>) -> Seq<char>
    decreases s.len(),
{
    if s.len() == 0 {
        Seq::empty()
    } else if is_digit(s.last()) {
        digits_of(s.drop_last()).push(s.last())
    } else {
        digits_of(s.drop_last())
    }
}

/// The year of a release date: the first four digits it contains, when
/// they make a year from 1900 to 2100.
pub open spec fn rec_year_spec(s: Seq<char>) -> Option<int> {
    let d = digits_of(s);
    if d.len() >= 4 && 1900 <= digits_value(d.take(4)) <= 2100 {
        Some(digits_value(d.take(4)))
    } else {
        None
    }
}

pub proof fn lemma_digits_of_all(s: Seq<char>)
    ensures
        all_digits(digits_of(s)),
    decreases s.len(),
{
    if s.len() > 0 {
        lemma_digits_of_all(s.drop_last());
        let d = digits_of(s);
        let p = digits_of(s.drop_last());
        assert forall|i: int| 0 <= i < d.len() implies is_digit(#[trigger] d[i]) by {
            if i < p.len() {
                assert(d[i] == p[i]);
            }
        }
    }
}

/// Reads the year of a release date such as `2019-05-01`.
pub fn parse_rec_year(s: &str) -> (r: Option<i32>)
    ensures
        r matches Some(y) ==> rec_year_spec(s@) == Some(y as int),
        r is None ==> rec_year_spec(s@) is None,
{
    let c = to_chars(s);
    let mut d: Vec<char> = Vec::new();
    let mut i: usize = 0;
    while i < c.len()
        invariant
            i <= c.len(),
            c@ == s@,
            d@ == digits_of(c@.take(i as int)),
        decreases c.len() - i,
    {
        assert(c@.take(i + 1).drop_last() =~= c@.take(i as int));
        if '0' <= c[i] && c[i] <= '9' {
            d.push(c[i]);
        }
        i = i + 1;
    }
    assert(c@.take(c.len() as int) =~= c@);
    if d.len() < 4 {
        return None;
    }
    proof {
        lemma_digits_of_all(s@);
    }
    let mut y: i32 = 0;
    let mut k: usize = 0;
    while k < 4
        invariant
            k <= 4,
            d.len() >= 4,
            d@ == digits_of(s@),
            all_digits(d@),
            y as int == digits_value(d@.take(k as int)),
            0 <= y < 10000,
            k == 0 ==> y == 0,
            y < (if k == 0 {
                1int
            } else if k == 1 {
                10int
            } else if k == 2 {
                100int
            } else if k == 3 {
                1000int
            } else {
                10000int
            }),
        decreases 4 - k,
    {
        assert(d@.take(k + 1).drop_last() =~= d@.take(k as int));
        assert(is_digit(d@[k as int]));
        let dv: i32 = (d[k] as u32 - '0' as u32) as i32;
        y = y * 10 + dv;
        k = k + 1;
    }
    if 1900 <= y && y <= 2100 {
        Some(y)
    } else {
        None
    }
}

// ------------------------------------------------------------------ affinity

/// A watched or favorite title, by what the affinity reads of it.
pub struct RecEntry {
    pub title: String,
    /// `1` for a movie.
    pub stype: i64,
    pub release_year: String,
}

/// What the user's history and favorites say about their taste.
pub struct RecAffinity {
    /// Keyword weights: one per history mention, two per favorite mention,
    /// each keyword once, in order of first appearance.
    pub kw_freq: Vec<(String, u128)>,
    /// Movies among the entries considered.
    pub movies: u64,
    /// Entries considered.
    pub total: u64,
    /// The median year of the entries that have one.
    pub median_year: Option<i32>,
}

/// History entries considered.
pub const REC_HISTORY_MAX: usize = 100;

/// Favorites considered.
pub const REC_FAVORITES_MAX: usize = 250;

pub open spec fn count_in(s: Seq<Seq<char>>, k: Seq<char>) -> nat
    decreases s.len(),
{
    if s.len() == 0 {
        0
    } else {
        count_in(s.drop_last(), k) + if s.last() == k {
            1nat
        } else {
            0nat
        }
    }
}

/// Weight of keyword `k` over entries, each mention counting `w`.
pub open spec fn weight_in(es: Seq<RecEntry>, k: Seq<char>, w: nat) -> nat
    decreases es.len(),
{
    if es.len() == 0 {
        0
    } else {
        weight_in(es.drop_last(), k, w) + w * count_in(rec_tokens_spec(es.last().title@), k)
    }
}

/// The weight of keyword `k`: once per mention in the first 100 history
/// entries, twice per mention in the first 250 favorites.
pub open spec fn kw_weight(history: Seq<RecEntry>, favs: Seq<RecEntry>, k: Seq<char>) -> nat {
    weight_in(rec_window(history, 100), k, 1) + weight_in(rec_window(favs, 250), k, 2)
}

/// The first `n` entries (all of them when there are fewer).
pub open spec fn rec_window(es: Seq<RecEntry>, n: int) -> Seq<RecEntry> {
    es.take(min_int(es.len() as int, n))
}

pub open spec fn min_int(a: int, b: int) -> int {
    if a <= b {
        a
    } else {
        b
    }
}

/// Movies among entries.
pub open spec fn movies_in(es: Seq<RecEntry>) -> nat
    decreases es.len(),
{
    if es.len() == 0 {
        0
    } else {
        movies_in(es.drop_last()) + if es.last().stype == 1 {
            1nat
        } else {
            0nat
        }
    }
}

/// The years of the entries that have one, in order.
pub open spec fn years_in(es: Seq<RecEntry>) -> Seq<int>
    decreases es.len(),
{
    if es.len() == 0 {
        Seq::empty()
    } else {
        match rec_year_spec(es.last().release_year@) {
            Some(y) => years_in(es.drop_last()).push(y),
            None => years_in(es.drop_last()),
        }
    }
}

/// How many of `ys` are at most `y`.
pub open spec fn count_le(ys: Seq<int>, y: int) -> nat
    decreases ys.len(),
{
    if ys.len() == 0 {
        0
    } else {
        count_le(ys.drop_last(), y) + if ys.last() <= y {
            1nat
        } else {
            0nat
        }
    }
}

/// The median of `ys`: the element at index `len / 2` once sorted, that is
/// the smallest year at or below which more than half of them lie.
pub open spec fn is_median(ys: Seq<int>, m: int) -> bool {
    count_le(ys, m) > ys.len() / 2 && count_le(ys, m - 1) <= ys.len() / 2
}

pub proof fn lemma_count_le_mono(ys: Seq<int>, a: int, b: int)
    requires
        a <= b,
    ensures
        count_le(ys, a) <= count_le(ys, b),
    decreases ys.len(),
{
    if ys.len() > 0 {
        lemma_count_le_mono(ys.drop_last(), a, b);
    }
}

/// There is one median at most.
pub proof fn lemma_median_unique(ys: Seq<int>, m1: int, m2: int)
    requires
        is_median(ys, m1),
        is_median(ys, m2),
    ensures
        m1 == m2,
{
    if m1 < m2 {
        lemma_count_le_mono(ys, m1, m2 - 1);
    } else if m2 < m1 {
        lemma_count_le_mono(ys, m2, m1 - 1);
    }
}

pub proof fn lemma_count_le_bounds(ys: Seq<int>, lo: int, hi: int)
    requires
        forall|i: int| 0 <= i < ys.len() ==> lo <= #[trigger] ys[i] <= hi,
    ensures
        count_le(ys, lo - 1) == 0,
        count_le(ys, hi) == ys.len(),
    decreases ys.len(),
{
    if ys.len() > 0 {
        assert forall|i: int| 0 <= i < ys.drop_last().len() implies lo <= #[trigger] ys.drop_last()[i]
            <= hi by {
            assert(ys.drop_last()[i] == ys[i]);
        }
        lemma_count_le_bounds(ys.drop_last(), lo, hi);
        assert(ys[ys.len() - 1] == ys.last());
    }
}

pub open spec fn kw_view(kw: Seq<(String, u128)>) -> Seq<(Seq<char>, int)> {
    kw.map_values(|p: (String, u128)| (p.0@, p.1 as int))
}

/// The weight recorded for `k` (zero when absent).
pub open spec fn recorded(kw: Seq<(Seq<char>, int)>, k: Seq<char>) -> int {
    if exists|i: int| 0 <= i < kw.len() && kw[i].0 == k {
        kw[choose|i: int| 0 <= i < kw.len() && kw[i].0 == k].1
    } else {
        0
    }
}

pub open spec fn distinct_keys(kw: Seq<(Seq<char>, int)>) -> bool {
    forall|i: int, j: int| 0 <= i < kw.len() && 0 <= j < kw.len() && i != j ==> kw[i].0 != kw[j].0
}

/// The keyword table of an affinity: each keyword once, with its weight,
/// and every weighted keyword present.
pub open spec fn kw_table_ok(kw: Seq<(Seq<char>, int)>, history: Seq<RecEntry>, favs: Seq<RecEntry>) -> bool {
    &&& distinct_keys(kw)
    &&& forall|k: Seq<char>| #![trigger recorded(kw, k)] recorded(kw, k) == kw_weight(history, favs, k)
    &&& forall|i: int| 0 <= i < kw.len() ==> (#[trigger] kw[i]).1 > 0
}

proof fn lemma_recorded_at(kw: Seq<(Seq<char>, int)>, i: int)
    requires
        distinct_keys(kw),
        0 <= i < kw.len(),
    ensures
        recorded(kw, kw[i].0) == kw[i].1,
{
    let k = kw[i].0;
    assert(exists|j: int| 0 <= j < kw.len() && kw[j].0 == k);
    let j = choose|j: int| 0 <= j < kw.len() && kw[j].0 == k;
    assert(j == i);
}

/// `nv` records `w` more for `t` than `ov`, and the same for other keywords.
pub open spec fn adds_weight(nv: Seq<(Seq<char>, int)>, ov: Seq<(Seq<char>, int)>, t: Seq<char>, w: int) -> bool {
    forall|k: Seq<char>|
        #![trigger recorded(nv, k)]
        recorded(nv, k) == recorded(ov, k) + if k == t {
            w
        } else {
            0
        }
}

/// Adds `w` to the weight of keyword `t`.
fn add_weight(kw: &mut Vec<(String, u128)>, t: &String, w: u128)
    requires
        distinct_keys(kw_view(old(kw)@)),
        forall|i: int| 0 <= i < old(kw)@.len() ==> (#[trigger] kw_view(old(kw)@)[i]).1 > 0,
        forall|k: Seq<char>| #[trigger] recorded(kw_view(old(kw)@), k) + w <= u128::MAX,
        w > 0,
    ensures
        distinct_keys(kw_view(final(kw)@)),
        forall|i: int| 0 <= i < final(kw)@.len() ==> (#[trigger] kw_view(final(kw)@)[i]).1 > 0,
        adds_weight(kw_view(final(kw)@), kw_view(old(kw)@), t@, w as int),
{
    let ghost old_v = kw_view(kw@);
    let tc = to_chars(t.as_str());
    let mut i: usize = 0;
    while i < kw.len()
        invariant
            i <= kw@.len(),
            kw_view(kw@) == old_v,
            old_v == kw_view(old(kw)@),
            tc@ == t@,
            distinct_keys(old_v),
            forall|j: int| 0 <= j < old_v.len() ==> (#[trigger] old_v[j]).1 > 0,
            forall|k: Seq<char>| #[trigger] recorded(old_v, k) + w <= u128::MAX,
            w > 0,
            forall|j: int| 0 <= j < i ==> old_v[j].0 != t@,
        decreases kw@.len() - i,
    {
        assert(old_v[i as int] == (kw@[i as int].0@, kw@[i as int].1 as int));
        if chars_eq(&to_chars(kw[i].0.as_str()), &tc) {
            assert(old_v[i as int].0 == t@);
            proof {
                lemma_recorded_at(old_v, i as int);
            }
            let cur = kw[i].1;
            assert(cur as int == recorded(old_v, t@));
            assert(recorded(old_v, t@) + w <= u128::MAX);
            let name = kw[i].0.clone();
            kw.set(i, (name, cur + w));
            let ghost nv = kw_view(kw@);
            assert(nv =~= old_v.update(i as int, (t@, cur + w)));
            assert forall|a: int, b: int| 0 <= a < nv.len() && 0 <= b < nv.len() && a != b implies nv[a].0
                != nv[b].0 by {
                assert(nv[a].0 == old_v[a].0 && nv[b].0 == old_v[b].0);
            }
            assert forall|a: int| 0 <= a < nv.len() implies (#[trigger] nv[a]).1 > 0 by {
                if a != i {
                    assert(nv[a] == old_v[a]);
                }
            }
            assert forall|k: Seq<char>| #![trigger recorded(nv, k)] recorded(nv, k) == recorded(old_v, k) + if k
                == t@ {
                w as int
            } else {
                0
            } by {
                if k == t@ {
                    lemma_recorded_at(nv, i as int);
                } else {
                    if exists|j: int| 0 <= j < old_v.len() && old_v[j].0 == k {
                        let j = choose|j: int| 0 <= j < old_v.len() && old_v[j].0 == k;
                        lemma_recorded_at(old_v, j);
                        lemma_recorded_at(nv, j);
                    } else {
                        assert forall|j: int| 0 <= j < nv.len() implies nv[j].0 != k by {
                            assert(nv[j].0 == old_v[j].0);
                        }
                    }
                }
            }
            assert(adds_weight(nv, old_v, t@, w as int));
            return;
        }
        i = i + 1;
    }
    kw.push((t.clone(), w));
    let ghost nv = kw_view(kw@);
    assert(nv =~= old_v.push((t@, w as int)));
    assert forall|a: int, b: int| 0 <= a < nv.len() && 0 <= b < nv.len() && a != b implies nv[a].0
        != nv[b].0 by {
        if a < old_v.len() {
            assert(nv[a] == old_v[a]);
        }
        if b < old_v.len() {
            assert(nv[b] == old_v[b]);
        }
    }
    assert forall|k: Seq<char>| #![trigger recorded(nv, k)] recorded(nv, k) == recorded(old_v, k) + if k == t@ {
        w as int
    } else {
        0
    } by {
        if k == t@ {
            lemma_recorded_at(nv, old_v.len() as int);
            assert forall|j: int| 0 <= j < old_v.len() implies old_v[j].0 != k by {}
        } else {
            if exists|j: int| 0 <= j < old_v.len() && old_v[j].0 == k {
                let j = choose|j: int| 0 <= j < old_v.len() && old_v[j].0 == k;
                lemma_recorded_at(old_v, j);
                assert(nv[j] == old_v[j]);
                lemma_recorded_at(nv, j);
            } else {
                assert forall|j: int| 0 <= j < nv.len() implies nv[j].0 != k by {
                    if j < old_v.len() {
                        assert(nv[j] == old_v[j]);
                    }
                }
            }
        }
    }
}

pub proof fn lemma_count_in_le(s: Seq<Seq<char>>, k: Seq<char>)
    ensures
        count_in(s, k) <= s.len(),
    decreases s.len(),
{
    if s.len() > 0 {
        lemma_count_in_le(s.drop_last(), k);
    }
}

/// Adds the keywords of one title, each mention weighing `w`.
fn add_title(kw: &mut Vec<(String, u128)>, title: &String, w: u128, Ghost(base): Ghost<
    Seq<(Seq<char>, int)>,
>)
    requires
        kw_view(old(kw)@) == base,
        distinct_keys(base),
        forall|i: int| 0 <= i < base.len() ==> (#[trigger] base[i]).1 > 0,
        forall|k: Seq<char>| #[trigger] recorded(base, k) <= u128::MAX / 2,
        1 <= w <= 2,
    ensures
        distinct_keys(kw_view(final(kw)@)),
        forall|i: int| 0 <= i < final(kw)@.len() ==> (#[trigger] kw_view(final(kw)@)[i]).1 > 0,
        forall|k: Seq<char>| #![trigger recorded(kw_view(final(kw)@), k)] recorded(kw_view(final(kw)@), k) == recorded(base, k) + w
            * count_in(rec_tokens_spec(title@), k),
        forall|k: Seq<char>| #[trigger] recorded(kw_view(final(kw)@), k) <= recorded(base, k) + title_weight_cap(),
{
    let toks = rec_tokens(title.as_str());
    let ghost tv = rec_tokens_spec(title@);
    let n = toks.len();
    assert(tv.len() == n);
    let mut j: usize = 0;
    assert forall|k: Seq<char>| #![trigger recorded(kw_view(kw@), k)] recorded(kw_view(kw@), k) == recorded(base, k) + w
        * count_in(tv.take(0), k) by {
        assert(tv.take(0) =~= Seq::<Seq<char>>::empty());
    }
    while j < toks.len()
        invariant
            j <= toks.len(),
            strings_view(toks@) == tv,
            tv == rec_tokens_spec(title@),
            tv.len() <= usize::MAX,
            1 <= w <= 2,
            distinct_keys(kw_view(kw@)),
            forall|i: int| 0 <= i < kw@.len() ==> (#[trigger] kw_view(kw@)[i]).1 > 0,
            forall|k: Seq<char>| #[trigger] recorded(base, k) <= u128::MAX / 2,
            forall|k: Seq<char>| #![trigger recorded(kw_view(kw@), k)] recorded(kw_view(kw@), k) == recorded(base, k) + w
                * count_in(tv.take(j as int), k),
        decreases toks.len() - j,
    {
        assert(toks[j as int]@ == tv[j as int]);
        assert(tv.take(j + 1).drop_last() =~= tv.take(j as int));
        proof {
            assert forall|k: Seq<char>| #[trigger] recorded(kw_view(kw@), k) + w <= u128::MAX by {
                lemma_count_in_le(tv.take(j as int), k);
                assert(w * count_in(tv.take(j as int), k) <= 2 * (usize::MAX + 1)) by (
                nonlinear_arith)
                    requires
                        w <= 2,
                        count_in(tv.take(j as int), k) <= usize::MAX,
                ;
            }
        }
        add_weight(kw, &toks[j], w);
        proof {
            assert forall|k: Seq<char>| #![trigger recorded(kw_view(kw@), k)] recorded(kw_view(kw@), k) == recorded(base, k)
                + w * count_in(tv.take(j + 1), k) by {
                assert(count_in(tv.take(j + 1), k) == count_in(tv.take(j as int), k) + if tv[j as int]
                    == k {
                    1nat
                } else {
                    0nat
                });
                assert(w * count_in(tv.take(j + 1), k) == w * count_in(tv.take(j as int), k) + if tv[j as int]
                    == k {
                    w as int
                } else {
                    0
                }) by (nonlinear_arith)
                    requires
                        count_in(tv.take(j + 1), k) == count_in(tv.take(j as int), k) + if tv[j as int]
                            == k {
                            1nat
                        } else {
                            0nat
                        },
                ;
            }
        }
        j = j + 1;
    }
    assert(tv.take(toks.len() as int) =~= tv);
    assert forall|k: Seq<char>| #[trigger] recorded(kw_view(kw@), k) <= recorded(base, k) + title_weight_cap() by {
        lemma_count_in_le(tv, k);
        assert(w * count_in(tv, k) <= 2 * usize::MAX) by (nonlinear_arith)
            requires
                w <= 2,
                count_in(tv, k) <= usize::MAX,
        ;
    }
}

/// A bound on the weight that one title adds to one keyword.
pub open spec fn title_weight_cap() -> int {
    0x4_0000_0000_0000_0000
}


pub open spec fn years_view(v: Seq<i32>) -> Seq<int> {
    v.map_values(|y: i32| y as int)
}

/// The years read from the entries an affinity considers: history first,
/// then favorites.
pub open spec fn affinity_years(history: Seq<RecEntry>, favs: Seq<RecEntry>) -> Seq<int> {
    years_in(rec_window(history, 100)) + years_in(rec_window(favs, 250))
}

/// How many of the years are at most `y`.
fn count_at_most(ys: &Vec<i32>, y: i32) -> (r: usize)
    ensures
        r == count_le(years_view(ys@), y as int),
{
    let mut c: usize = 0;
    let mut i: usize = 0;
    while i < ys.len()
        invariant
            i <= ys.len(),
            c <= i,
            c == count_le(years_view(ys@).take(i as int), y as int),
        decreases ys.len() - i,
    {
        assert(years_view(ys@).take(i + 1).drop_last() =~= years_view(ys@).take(i as int));
        if ys[i] <= y {
            c = c + 1;
        }
        i = i + 1;
    }
    assert(years_view(ys@).take(ys.len() as int) =~= years_view(ys@));
    c
}

/// The median of the years, all from 1900 to 2100: the smallest year at or
/// below which more than half of them lie.
fn median_of_years(years: &Vec<i32>) -> (r: Option<i32>)
    requires
        forall|i: int| 0 <= i < years@.len() ==> 1900 <= #[trigger] years@[i] <= 2100,
    ensures
        match r {
            Some(m) => is_median(years_view(years@), m as int),
            None => years@.len() == 0,
        },
{
    let ghost ys = years_view(years@);
    let n = years.len();
    if n == 0 {
        return None;
    }
    let half = n / 2;
    proof {
        assert forall|i: int| 0 <= i < ys.len() implies 1900 <= #[trigger] ys[i] <= 2100 by {
            assert(ys[i] == years@[i] as int);
        }
        lemma_count_le_bounds(ys, 1900, 2100);
    }
    let mut m: i32 = 1900;
    loop
        invariant
            ys == years_view(years@),
            n == ys.len(),
            n > 0,
            half == n / 2,
            1900 <= m <= 2100,
            count_le(ys, m - 1) <= half,
            count_le(ys, 2100) == n,
        ensures
            is_median(ys, m as int),
        decreases 2100 - m,
    {
        let c = count_at_most(years, m);
        if c > half {
            break;
        }
        if m == 2100 {
            assert(false);
        }
        m = m + 1;
    }
    Some(m)
}

/// Builds the affinity from the first 100 history entries and the first
/// 250 favorites.
pub fn build_rec_affinity(history: &[RecEntry], favs: &[RecEntry]) -> (a: RecAffinity)
    ensures
        kw_table_ok(kw_view(a.kw_freq@), history@, favs@),
        a.movies == movies_in(rec_window(history@, 100)) + movies_in(rec_window(favs@, 250)),
        a.total == rec_window(history@, 100).len() + rec_window(favs@, 250).len(),
        match a.median_year {
            Some(m) => is_median(affinity_years(history@, favs@), m as int),
            None => affinity_years(history@, favs@).len() == 0,
        },
{
    let mut kw: Vec<(String, u128)> = Vec::new();
    let mut movies: u64 = 0;
    let mut total: u64 = 0;
    let mut years: Vec<i32> = Vec::new();
    let hn: usize = if history.len() < REC_HISTORY_MAX {
        history.len()
    } else {
        REC_HISTORY_MAX
    };
    let ghost hs = history@.take(hn as int);
    assert(hs == rec_window(history@, 100));
    let mut i: usize = 0;
    assert(history@.take(0) =~= Seq::<RecEntry>::empty());
    while i < hn
        invariant
            hn <= history@.len(),
            hn <= 100,
            i <= hn,
            distinct_keys(kw_view(kw@)),
            forall|j: int| 0 <= j < kw@.len() ==> (#[trigger] kw_view(kw@)[j]).1 > 0,
            forall|k: Seq<char>| #[trigger] recorded(kw_view(kw@), k) == weight_in(history@.take(i as int), k, 1),
            forall|k: Seq<char>| #[trigger] recorded(kw_view(kw@), k) <= i * title_weight_cap(),
            movies == movies_in(history@.take(i as int)),
            movies <= i,
            total == i,
            years_view(years@) == years_in(history@.take(i as int)),
            forall|j: int| 0 <= j < years@.len() ==> 1900 <= #[trigger] years@[j] <= 2100,
        decreases hn - i,
    {
        let ghost base = kw_view(kw@);
        let ghost prev = history@.take(i as int);
        let ghost next = history@.take(i + 1);
        assert(next.drop_last() =~= prev);
        assert(next.last() == history@[i as int]);
        add_title(&mut kw, &history[i].title, 1, Ghost(base));
        assert forall|k: Seq<char>| #[trigger] recorded(kw_view(kw@), k) == weight_in(next, k, 1) by {}
        if history[i].stype == 1 {
            movies = movies + 1;
        }
        total = total + 1;
        let y = parse_rec_year(history[i].release_year.as_str());
        let ghost ys_before = years_view(years@);
        if let Some(yv) = y {
            years.push(yv);
            assert(years_view(years@) =~= ys_before.push(yv as int));
        }
        assert(years_view(years@) == years_in(next));
        i = i + 1;
    }
    let fnn: usize = if favs.len() < REC_FAVORITES_MAX {
        favs.len()
    } else {
        REC_FAVORITES_MAX
    };
    let ghost fs = favs@.take(fnn as int);
    assert(fs == rec_window(favs@, 250));
    let ghost hy = years_in(hs);
    let ghost hm = movies_in(hs);
    let mut i: usize = 0;
    assert(favs@.take(0) =~= Seq::<RecEntry>::empty());
    assert(hy + years_in(favs@.take(0)) =~= hy);
    while i < fnn
        invariant
            fnn <= favs@.len(),
            fnn <= 250,
            i <= fnn,
            hn <= 100,
            distinct_keys(kw_view(kw@)),
            forall|j: int| 0 <= j < kw@.len() ==> (#[trigger] kw_view(kw@)[j]).1 > 0,
            forall|k: Seq<char>| #[trigger] recorded(kw_view(kw@), k) == weight_in(hs, k, 1) + weight_in(favs@.take(i as int), k, 2),
            forall|k: Seq<char>| #[trigger] recorded(kw_view(kw@), k) <= (hn + i) * title_weight_cap(),
            movies == hm + movies_in(favs@.take(i as int)),
            movies <= hn + i,
            total == hn + i,
            years_view(years@) == hy + years_in(favs@.take(i as int)),
            forall|j: int| 0 <= j < years@.len() ==> 1900 <= #[trigger] years@[j] <= 2100,
        decreases fnn - i,
    {
        let ghost base = kw_view(kw@);
        let ghost prev = favs@.take(i as int);
        let ghost next = favs@.take(i + 1);
        assert(next.drop_last() =~= prev);
        assert(next.last() == favs@[i as int]);
        add_title(&mut kw, &favs[i].title, 2, Ghost(base));
        assert forall|k: Seq<char>| #[trigger] recorded(kw_view(kw@), k) == weight_in(hs, k, 1) + weight_in(next, k, 2) by {}
        if favs[i].stype == 1 {
            movies = movies + 1;
        }
        total = total + 1;
        let y = parse_rec_year(favs[i].release_year.as_str());
        let ghost ys_before = years_view(years@);
        if let Some(yv) = y {
            years.push(yv);
            assert(years_view(years@) =~= ys_before.push(yv as int));
            assert(hy + years_in(next) =~= (hy + years_in(prev)).push(yv as int));
        } else {
            assert(hy + years_in(next) =~= hy + years_in(prev));
        }
        i = i + 1;
    }
    let median_year = median_of_years(&years);
    RecAffinity { kw_freq: kw, movies, total, median_year }
}

// ------------------------------------------------------------------ scoring

/// At least half the entries considered are movies (with none, the lean is
/// taken as even, which counts as movies).
pub open spec fn prefers_movies_spec(movies: int, total: int) -> bool {
    total == 0 || 2 * movies >= total
}

impl RecAffinity {
    /// Whether the user leans to movies.
    pub fn prefers_movies(&self) -> (r: bool)
        ensures
            r == prefers_movies_spec(self.movies as int, self.total as int),
    {
        self.total == 0 || self.movies >= self.total || self.movies >= self.total - self.movies
    }
}

/// Points for the media type: two when a candidate is of the kind the user
/// leans to.
pub fn rec_type_points(aff: &RecAffinity, is_movie: bool) -> (r: u8)
    ensures
        r == (if is_movie == prefers_movies_spec(aff.movies as int, aff.total as int) {
            2u8
        } else {
            0u8
        }),
{
    if is_movie == aff.prefers_movies() {
        2
    } else {
        0
    }
}

pub open spec fn abs_int(x: int) -> int {
    if x < 0 {
        -x
    } else {
        x
    }
}

/// The distance in years between a candidate and the user's median year,
/// when both are known.
pub open spec fn year_gap_spec(candidate_year: Option<Seq<char>>, median: Option<i32>) -> Option<int> {
    match (candidate_year, median) {
        (Some(c), Some(m)) => match rec_year_spec(c) {
            Some(y) => Some(abs_int(y - m as int)),
            None => None,
        },
        _ => None,
    }
}

/// The gap between a candidate's year and the median year of the affinity.
pub fn rec_year_gap(candidate_year: Option<&str>, median: Option<i32>) -> (r: Option<u64>)
    ensures
        r matches Some(d) ==> year_gap_spec(opt_str_view(candidate_year), median) == Some(d as int),
        r is None ==> year_gap_spec(opt_str_view(candidate_year), median) is None,
{
    match (candidate_year, median) {
        (Some(c), Some(m)) => match parse_rec_year(c) {
            Some(y) => {
                let d: i64 = y as i64 - m as i64;
                if d < 0 {
                    Some((-d) as u64)
                } else {
                    Some(d as u64)
                }
            },
            None => None,
        },
        _ => None,
    }
}

/// Keyword weights count up to five.
pub open spec fn capped_weight(f: int) -> int {
    if f < 5 {
        f
    } else {
        5
    }
}

/// Five times what one keyword adds to the overlap: `3w + 2` when it is
/// among the genre keywords, else `w + 1` when among the title keywords,
/// with `w` the capped weight over five.
pub open spec fn overlap_points(k: Seq<char>, f: int, genre: Seq<Seq<char>>, title: Seq<Seq<char>>) -> int {
    if genre.contains(k) {
        3 * capped_weight(f) + 10
    } else if title.contains(k) {
        capped_weight(f) + 5
    } else {
        0
    }
}

pub open spec fn overlap_sum(kw: Seq<(Seq<char>, int)>, genre: Seq<Seq<char>>, title: Seq<Seq<char>>) -> int
    decreases kw.len(),
{
    if kw.len() == 0 {
        0
    } else {
        overlap_sum(kw.drop_last(), genre, title) + overlap_points(kw.last().0, kw.last().1, genre, title)
    }
}

/// Each affinity keyword adds to the overlap on its own, with `w` its
/// weight capped at five: `3w + 10` fifths when it is among the genre
/// keywords, whether or not the title has it too; `w + 5` when only the
/// title has it; nothing when neither does.
pub proof fn lemma_overlap_keyword_adds(
    kw: Seq<(Seq<char>, int)>,
    k: Seq<char>,
    f: int,
    genre: Seq<Seq<char>>,
    title: Seq<Seq<char>>,
)
    ensures
        overlap_sum(Seq::empty(), genre, title) == 0,
        genre.contains(k) ==> overlap_sum(kw.push((k, f)), genre, title) == overlap_sum(
            kw,
            genre,
            title,
        ) + 3 * (if f < 5 {
            f
        } else {
            5
        }) + 10,
        !genre.contains(k) && title.contains(k) ==> overlap_sum(kw.push((k, f)), genre, title)
            == overlap_sum(kw, genre, title) + (if f < 5 {
            f
        } else {
            5
        }) + 5,
        !genre.contains(k) && !title.contains(k) ==> overlap_sum(kw.push((k, f)), genre, title)
            == overlap_sum(kw, genre, title),
{
    assert(kw.push((k, f)).drop_last() =~= kw);
    assert(kw.push((k, f)).last() == (k, f));
}

/// The keywords of each part, in order.
pub open spec fn parts_tokens(ps: Seq<Seq<char>>) -> Seq<Seq<char>>
    decreases ps.len(),
{
    if ps.len() == 0 {
        Seq::empty()
    } else {
        parts_tokens(ps.drop_last()) + rec_tokens_spec(ps.last())
    }
}

/// The keywords of a comma-separated genre list.
pub open spec fn genre_tokens(genre: Seq<char>) -> Seq<Seq<char>> {
    parts_tokens(split_char(genre, ','))
}

pub open spec fn chars_or_empty(o: Option<&str>) -> Seq<char> {
    match o {
        Some(s) => s@,
        None => Seq::empty(),
    }
}

fn strings_contain(v: &Vec<String>, k: &[char]) -> (r: bool)
    ensures
        r == strings_view(v@).contains(k@),
{
    let mut i: usize = 0;
    while i < v.len()
        invariant
            i <= v.len(),
            forall|j: int| 0 <= j < i ==> strings_view(v@)[j] != k@,
        decreases v.len() - i,
    {
        if chars_eq(&to_chars(v[i].as_str()), k) {
            assert(strings_view(v@)[i as int] == k@);
            return true;
        }
        i = i + 1;
    }
    false
}

fn genre_tokens_exec(genre: &[char]) -> (r: Vec<String>)
    ensures
        strings_view(r@) == genre_tokens(genre@),
{
    let parts = split_on(genre, ',');
    let ghost ps = split_char(genre@, ',');
    let mut r: Vec<String> = Vec::new();
    let mut i: usize = 0;
    assert(ps.take(0) =~= Seq::<Seq<char>>::empty());
    while i < parts.len()
        invariant
            i <= parts.len(),
            parts@.map_values(|x: Vec<char>| x@) == ps,
            strings_view(r@) == parts_tokens(ps.take(i as int)),
        decreases parts.len() - i,
    {
        assert(parts[i as int]@ == ps[i as int]);
        assert(ps.take(i + 1).drop_last() =~= ps.take(i as int));
        let toks = rec_tokens_of(&parts[i]);
        let ghost before = strings_view(r@);
        let mut j: usize = 0;
        while j < toks.len()
            invariant
                j <= toks.len(),
                strings_view(r@) == before + strings_view(toks@).take(j as int),
            decreases toks.len() - j,
        {
            let ghost b2 = strings_view(r@);
            r.push(toks[j].clone());
            assert(strings_view(r@) =~= b2.push(toks@[j as int]@));
            assert(strings_view(toks@).take(j + 1) =~= strings_view(toks@).take(j as int).push(
                toks@[j as int]@,
            ));
            j = j + 1;
        }
        assert(strings_view(toks@).take(toks.len() as int) =~= strings_view(toks@));
        i = i + 1;
    }
    assert(ps.take(parts.len() as int) =~= ps);
    r
}

/// Five times the keyword overlap between a candidate and the affinity: for
/// each keyword of the affinity, with `w` its weight capped at five, `3w +
/// 10` when it is a keyword of the candidate's genres, else `w + 5` when it
/// is a keyword of its title.
pub fn rec_overlap_fifths(aff: &RecAffinity, genre: Option<&str>, title: &str) -> (r: u128)
    ensures
        r == overlap_sum(kw_view(aff.kw_freq@), genre_tokens(chars_or_empty(genre)), rec_tokens_spec(title@)),
{
    let gchars: Vec<char> = match genre {
        Some(g) => to_chars(g),
        None => Vec::new(),
    };
    let gt = genre_tokens_exec(&gchars);
    let tt = rec_tokens(title);
    let ghost gv = genre_tokens(chars_or_empty(genre));
    let ghost tv = rec_tokens_spec(title@);
    let ghost kv = kw_view(aff.kw_freq@);
    let mut sum: u128 = 0;
    let mut i: usize = 0;
    assert(kv.take(0) =~= Seq::<(Seq<char>, int)>::empty());
    while i < aff.kw_freq.len()
        invariant
            i <= aff.kw_freq.len(),
            kv == kw_view(aff.kw_freq@),
            strings_view(gt@) == gv,
            strings_view(tt@) == tv,
            sum == overlap_sum(kv.take(i as int), gv, tv),
            sum <= 25 * i,
        decreases aff.kw_freq.len() - i,
    {
        assert(kv.take(i + 1).drop_last() =~= kv.take(i as int));
        let k = to_chars(aff.kw_freq[i].0.as_str());
        let f = aff.kw_freq[i].1;
        assert(kv[i as int] == (k@, f as int));
        let w: u128 = if f < 5 {
            f
        } else {
            5
        };
        if strings_contain(&gt, &k) {
            sum = sum + 3 * w + 10;
        } else if strings_contain(&tt, &k) {
            sum = sum + w + 5;
        }
        i = i + 1;
    }
    assert(kv.take(aff.kw_freq.len() as int) =~= kv);
    sum
}

/// The indices of the `n` heaviest keywords, heaviest first; among equal
/// weights the earlier entry comes first.
pub open spec fn top_picks(kw: Seq<(Seq<char>, int)>, n: int, picks: Seq<int>) -> bool {
    &&& picks.len() == if n < kw.len() {
        n
    } else {
        kw.len() as int
    }
    &&& forall|a: int| 0 <= a < picks.len() ==> 0 <= #[trigger] picks[a] < kw.len()
    &&& forall|a: int, b: int| 0 <= a < b < picks.len() ==> picks[a] != picks[b]
    &&& forall|a: int, t: int|
        #![trigger picks[a], kw[t]]
        0 <= a < picks.len() && 0 <= t < kw.len() && !picks.take(a).contains(t) ==> (kw[t].1 < kw[picks[a]].1
            || (kw[t].1 == kw[picks[a]].1 && t >= picks[a]))
}

/// The keywords to search for: the `n` heaviest, heaviest first, earlier
/// entries first among equal weights.
pub fn top_keyword_indices(kw: &Vec<(String, u128)>, n: usize) -> (r: Vec<usize>)
    ensures
        top_picks(kw_view(kw@), n as int, r@.map_values(|i: usize| i as int)),
        forall|a: int, b: int|
            0 <= a < b < r.len() ==> kw@[r@[a] as int].1 >= kw@[r@[b] as int].1,
        forall|a: int, t: int|
            #![trigger r@[a], kw@[t]]
            0 <= a < r.len() && 0 <= t < kw.len() && !r@.contains(t as usize) ==> kw@[t].1 <= kw@[
                r@[a] as int].1,
{
    let ghost kv = kw_view(kw@);
    let m: usize = if n < kw.len() {
        n
    } else {
        kw.len()
    };
    let mut picked: Vec<bool> = Vec::new();
    let mut t: usize = 0;
    while t < kw.len()
        invariant
            t <= kw.len(),
            picked.len() == t,
            forall|x: int| 0 <= x < t ==> !picked@[x],
        decreases kw.len() - t,
    {
        picked.push(false);
        t = t + 1;
    }
    let mut r: Vec<usize> = Vec::new();
    while r.len() < m
        invariant
            m <= kw.len(),
            m == if n < kw.len() {
                n as int
            } else {
                kw.len() as int
            },
            r.len() <= m,
            picked.len() == kw.len(),
            kv == kw_view(kw@),
            forall|x: int| 0 <= x < kw.len() ==> (picked@[x] <==> r@.contains(x as usize)),
            forall|a: int| 0 <= a < r.len() ==> #[trigger] r@[a] < kw.len(),
            forall|a: int, b: int| 0 <= a < b < r.len() ==> r@[a] != r@[b],
            forall|a: int, x: int|
                #![trigger r@[a], kw@[x]]
                0 <= a < r.len() && 0 <= x < kw.len() && !r@.take(a).contains(x as usize) ==> (kw@[x].1
                    < kw@[r@[a] as int].1 || (kw@[x].1 == kw@[r@[a] as int].1 && x >= r@[a])),
        decreases m - r.len(),
    {
        // The count of unpicked entries exceeds zero while fewer than `m` are picked.
        let mut best: usize = kw.len();
        let mut x: usize = 0;
        while x < kw.len()
            invariant
                x <= kw.len(),
                picked.len() == kw.len(),
                best == kw.len() || (best < x && !picked@[best as int]),
                forall|y: int|
                    0 <= y < x && !picked@[y] ==> best < kw.len() && (kw@[y].1 < kw@[best as int].1 || (
                    kw@[y].1 == kw@[best as int].1 && y >= best)),
            decreases kw.len() - x,
        {
            if !picked[x] {
                if best == kw.len() || kw[x].1 > kw[best].1 {
                    best = x;
                }
            }
            x = x + 1;
        }
        if best == kw.len() {
            proof {
                lemma_unpicked_exists(r@, kw.len() as int);
                assert(kw@.len() <= usize::MAX);
                let y = choose|y: usize| (y as int) < kw.len() && !r@.contains(y);
                assert(!picked@[y as int]);
            }
            assert(false);
        }
        let ghost old_r = r@;
        let ghost old_picked = picked@;
        r.push(best);
        picked.set(best, true);
        proof {
            assert(r@.take(old_r.len() as int) =~= old_r);
            assert forall|a: int| 0 <= a < old_r.len() implies r@.take(a) =~= old_r.take(a) by {}
            assert forall|x: int| 0 <= x < kw.len() implies (picked@[x] <==> r@.contains(x as usize)) by {
                if x == best as int {
                    assert(r@[old_r.len() as int] == best);
                } else {
                    if r@.contains(x as usize) {
                        let j = choose|j: int| 0 <= j < r@.len() && r@[j] == x as usize;
                        assert(j < old_r.len());
                        assert(old_r[j] == x as usize);
                    }
                    if old_r.contains(x as usize) {
                        let j = choose|j: int| 0 <= j < old_r.len() && old_r[j] == x as usize;
                        assert(r@[j] == x as usize);
                    }
                }
            }
            assert forall|a: int, b: int| 0 <= a < b < r.len() implies r@[a] != r@[b] by {
                if b == old_r.len() {
                    if r@[a] == best {
                        assert(old_r[a] == best);
                        assert(old_r.contains(best));
                    }
                }
            }
            assert forall|a: int, x: int|
                #![trigger r@[a], kw@[x]]
                0 <= a < r.len() && 0 <= x < kw.len() && !r@.take(a).contains(x as usize) implies (kw@[x].1
                    < kw@[r@[a] as int].1 || (kw@[x].1 == kw@[r@[a] as int].1 && x >= r@[a])) by {
                if a < old_r.len() {
                    assert(r@.take(a) =~= old_r.take(a));
                    assert(r@[a] == old_r[a]);
                } else {
                    assert(r@.take(a) =~= old_r);
                    assert(!old_r.contains(x as usize));
                    assert(!old_picked[x]);
                    assert(r@[a] == best);
                }
            }
        }
    }
    proof {
        let pv = r@.map_values(|i: usize| i as int);
        assert forall|a: int| 0 <= a < r.len() implies pv.take(a) =~= r@.take(a).map_values(|i: usize| i as int) by {}
        assert forall|a: int, t: int|
            #![trigger pv[a], kv[t]]
            0 <= a < pv.len() && 0 <= t < kv.len() && !pv.take(a).contains(t) implies (kv[t].1 < kv[pv[a]].1
                || (kv[t].1 == kv[pv[a]].1 && t >= pv[a])) by {
            assert(pv[a] == r@[a] as int);
            if r@.take(a).contains(t as usize) {
                let j = choose|j: int| 0 <= j < r@.take(a).len() && r@.take(a)[j] == t as usize;
                assert(pv.take(a)[j] == t);
            }
            assert(kv[t].1 == kw@[t].1 as int);
            assert(kv[pv[a]].1 == kw@[r@[a] as int].1 as int);
        }
        assert forall|a: int, b: int| 0 <= a < b < r.len() implies kw@[r@[a] as int].1 >= kw@[r@[b] as int].1 by {
            assert(!r@.take(a).contains(r@[b])) by {
                if r@.take(a).contains(r@[b]) {
                    let j = choose|j: int| 0 <= j < r@.take(a).len() && r@.take(a)[j] == r@[b];
                    assert(r@[j] == r@[b]);
                }
            }
        }
        assert forall|a: int, t: int|
            #![trigger r@[a], kw@[t]]
            0 <= a < r.len() && 0 <= t < kw.len() && !r@.contains(t as usize) implies kw@[t].1 <= kw@[
                r@[a] as int].1 by {
            assert(!r@.take(a).contains(t as usize)) by {
                if r@.take(a).contains(t as usize) {
                    let j = choose|j: int| 0 <= j < r@.take(a).len() && r@.take(a)[j] == t as usize;
                    assert(r@[j] == t as usize);
                }
            }
        }
    }
    r
}

/// Fewer than `len` distinct indices below `len` leave one out.
proof fn lemma_unpicked_exists(r: Seq<usize>, len: int)
    requires
        r.len() < len <= usize::MAX,
        forall|a: int, b: int| 0 <= a < b < r.len() ==> r[a] != r[b],
        forall|a: int| 0 <= a < r.len() ==> #[trigger] r[a] < len,
    ensures
        exists|y: usize| (y as int) < len && !r.contains(y),
{
    let rm = r.map_values(|u: usize| u as int);
    assert(rm.no_duplicates()) by {
        assert forall|a: int, b: int| 0 <= a < rm.len() && 0 <= b < rm.len() && a != b implies rm[a] != rm[b] by {
            if a < b {
                assert(r[a] != r[b]);
            } else {
                assert(r[b] != r[a]);
            }
        }
    }
    rm.unique_seq_to_set();
    vstd::set_lib::lemma_int_range(0, len);
    if forall|y: usize| (y as int) < len ==> r.contains(y) {
        let ints = vstd::set_lib::set_int_range(0, len);
        assert(ints.subset_of(rm.to_set())) by {
            assert forall|y: int| ints.contains(y) implies rm.to_set().contains(y) by {
                let u = y as usize;
                assert(u as int == y);
                assert(r.contains(u));
                let j = choose|j: int| 0 <= j < r.len() && r[j] == u;
                assert(rm[j] == y);
            }
        }
        vstd::set_lib::lemma_len_subset(ints, rm.to_set());
        assert(false);
    }
}

/// The number of recommendations asked for: 24 by default, kept within 1
/// to 60.
pub fn rec_limit(limit: Option<usize>) -> (r: usize)
    ensures
        r == (match limit {
            Some(l) => if l < 1 {
                1
            } else if l > 60 {
                60
            } else {
                l as int
            },
            None => 24,
        }),
{
    let l = match limit {
        Some(l) => l,
        None => 24,
    };
    if l < 1 {
        1
    } else if l > 60 {
        60
    } else {
        l
    }
}

// ------------------------------------------------------------------ candidates

/// An integer in decimal, with a leading `-` when negative.
pub open spec fn int_dec(n: int) -> Seq<char> {
    if n < 0 {
        seq!['-'] + dec((-n) as nat)
    } else {
        dec(n as nat)
    }
}

fn int_dec_chars(n: i64) -> (r: Vec<char>)
    ensures
        r@ == int_dec(n as int),
{
    if n < 0 {
        let m: u128 = (-(n as i128)) as u128;
        let mut r: Vec<char> = Vec::new();
        r.push('-');
        let d = dec_chars(m);
        push_all(&mut r, &d);
        assert(r@ =~= seq!['-'] + dec((-n) as nat));
        r
    } else {
        dec_chars(n as u128)
    }
}

/// The key of a title by where it comes from: `<provider>::<id>`, the
/// provider in lower case.
pub open spec fn rec_id_key_spec(provider: Seq<char>, id: Seq<char>) -> Seq<char> {
    lower(provider) + "::"@ + id
}

pub fn rec_id_key(provider: &str, id: &str) -> (r: String)
    ensures
        r@ == rec_id_key_spec(provider@, id@),
{
    let mut k = to_lower(&to_chars(provider));
    push_all(&mut k, &to_chars("::"));
    push_all(&mut k, &to_chars(id));
    string_from_chars(&k)
}

/// The key of a catalog item by where it comes from: the provider's own
/// cache key, `::`, and the id (the provider key is used as it is).
pub open spec fn rec_pool_key_spec(provider_key: Seq<char>, id: Seq<char>) -> Seq<char> {
    provider_key + "::"@ + id
}

pub fn rec_pool_key(provider_key: &str, id: &str) -> (r: String)
    ensures
        r@ == rec_pool_key_spec(provider_key@, id@),
{
    let mut k = to_chars(provider_key);
    push_all(&mut k, &to_chars("::"));
    push_all(&mut k, &to_chars(id));
    string_from_chars(&k)
}

/// The key of a title by what it is: `<title>|<type>|<year>`, the title
/// trimmed and in lower case, the year trimmed.
pub open spec fn rec_title_key_spec(title: Seq<char>, stype: i64, year: Seq<char>) -> Seq<char> {
    lower(trim(title)) + "|"@ + int_dec(stype as int) + "|"@ + trim(year)
}

pub fn rec_title_key(title: &str, stype: i64, year: &str) -> (r: String)
    ensures
        r@ == rec_title_key_spec(title@, stype, year@),
{
    let mut k = to_lower(&trim_ws(&to_chars(title)));
    push_all(&mut k, &to_chars("|"));
    push_all(&mut k, &int_dec_chars(stype));
    push_all(&mut k, &to_chars("|"));
    push_all(&mut k, &trim_ws(&to_chars(year)));
    string_from_chars(&k)
}

/// The candidates kept among the first `n`: in order, those with neither
/// key already seen and whose first key no earlier kept candidate had.
pub open spec fn select_upto(seen: Seq<Seq<char>>, cands: Seq<(Seq<char>, Seq<char>)>, n: int) -> Seq<int>
    decreases n,
{
    if n <= 0 {
        Seq::empty()
    } else {
        let p = select_upto(seen, cands, n - 1);
        let c = cands[n - 1];
        if !seen.contains(c.0) && !seen.contains(c.1) && !kept_keys(cands, p).contains(c.0) {
            p.push(n - 1)
        } else {
            p
        }
    }
}

/// The first keys of the kept candidates.
pub open spec fn kept_keys(cands: Seq<(Seq<char>, Seq<char>)>, p: Seq<int>) -> Seq<Seq<char>> {
    p.map_values(|j: int| cands[j].0)
}

/// The indices of the candidates to score, in pool order: those not already
/// in the user's history or favorites (by either key), each title once by
/// its first key.
pub fn select_rec_candidates(seen: &Vec<String>, cands: &Vec<(String, String)>) -> (r: Vec<usize>)
    ensures
        r@.map_values(|i: usize| i as int) == select_upto(strings_view(seen@), headers_view(cands@), cands@.len() as int),
{
    let ghost sv = strings_view(seen@);
    let ghost cv = headers_view(cands@);
    let mut r: Vec<usize> = Vec::new();
    let mut emitted: Vec<String> = Vec::new();
    let mut i: usize = 0;
    while i < cands.len()
        invariant
            i <= cands.len(),
            sv == strings_view(seen@),
            cv == headers_view(cands@),
            r@.map_values(|x: usize| x as int) == select_upto(sv, cv, i as int),
            strings_view(emitted@) == kept_keys(cv, select_upto(sv, cv, i as int)),
        decreases cands.len() - i,
    {
        let ghost p = select_upto(sv, cv, i as int);
        let k1 = to_chars(cands[i].0.as_str());
        let k2 = to_chars(cands[i].1.as_str());
        assert(cv[i as int] == (k1@, k2@));
        if !strings_contain(seen, &k1) && !strings_contain(seen, &k2) && !strings_contain(&emitted, &k1) {
            let ghost rv = r@.map_values(|x: usize| x as int);
            let ghost ev = strings_view(emitted@);
            r.push(i);
            emitted.push(cands[i].0.clone());
            assert(r@.map_values(|x: usize| x as int) =~= rv.push(i as int));
            assert(strings_view(emitted@) =~= ev.push(k1@));
            assert(kept_keys(cv, p.push(i as int)) =~= kept_keys(cv, p).push(cv[i as int].0));
        }
        i = i + 1;
    }
    r
}

/// Every candidate kept is new to the user by both keys, comes once by its
/// first key, and the kept ones stay in pool order.
pub proof fn lemma_selected_new_and_distinct(seen: Seq<Seq<char>>, cands: Seq<(Seq<char>, Seq<char>)>, n: int)
    requires
        0 <= n <= cands.len(),
    ensures
        ({
            let p = select_upto(seen, cands, n);
            &&& forall|a: int| 0 <= a < p.len() ==> 0 <= #[trigger] p[a] < n
            &&& forall|a: int| 0 <= a < p.len() ==> !seen.contains(cands[#[trigger] p[a]].0) && !seen.contains(
                cands[p[a]].1)
            &&& forall|a: int, b: int| 0 <= a < b < p.len() ==> p[a] < p[b] && cands[p[a]].0 != cands[p[b]].0
        }),
    decreases n,
{
    if n > 0 {
        lemma_selected_new_and_distinct(seen, cands, n - 1);
        let q = select_upto(seen, cands, n - 1);
        let p = select_upto(seen, cands, n);
        if p.len() > q.len() {
            assert forall|a: int, b: int| 0 <= a < b < p.len() implies p[a] < p[b] && cands[p[a]].0 != cands[
                p[b]].0 by {
                if b == q.len() {
                    assert(p[a] == q[a]);
                    assert(kept_keys(cands, q)[a] == cands[q[a]].0);
                } else {
                    assert(p[a] == q[a] && p[b] == q[b]);
                }
            }
            assert forall|a: int| 0 <= a < p.len() implies !seen.contains(cands[#[trigger] p[a]].0)
                && !seen.contains(cands[p[a]].1) by {
                if a < q.len() {
                    assert(p[a] == q[a]);
                }
            }
            assert forall|a: int| 0 <= a < p.len() implies 0 <= #[trigger] p[a] < n by {
                if a < q.len() {
                    assert(p[a] == q[a]);
                }
            }
        }
    }
}

/// A year none of `ys` equals does not change how many lie at or below it.
proof fn lemma_count_le_absent(ys: Seq<int>, m: int)
    requires
        !ys.contains(m),
    ensures
        count_le(ys, m) == count_le(ys, m - 1),
    decreases ys.len(),
{
    if ys.len() > 0 {
        assert(!ys.drop_last().contains(m)) by {
            if ys.drop_last().contains(m) {
                let j = choose|j: int| 0 <= j < ys.drop_last().len() && ys.drop_last()[j] == m;
                assert(ys[j] == m);
            }
        }
        lemma_count_le_absent(ys.drop_last(), m);
        assert(ys.last() != m) by {
            assert(ys[ys.len() - 1] == ys.last());
        }
    }
}

/// The median is one of the years.
pub proof fn lemma_median_is_a_year(ys: Seq<int>, m: int)
    requires
        is_median(ys, m),
    ensures
        ys.contains(m),
{
    if !ys.contains(m) {
        lemma_count_le_absent(ys, m);
    }
}
} // verus!
