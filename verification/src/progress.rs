//! Download progress: the sliding-window speedometer of the workers, and the
//! reading of yt-dlp's `--newline` progress lines.
//!
//! Times are nanoseconds on the caller's monotonic clock. The floating-point
//! steps (bytes per second, percentages) are the caller's; this module hands
//! over the integers and texts they start from.

use vstd::prelude::*;
use std::collections::VecDeque;
use crate::text::{
    trim, trim_set, lemma_trim_noop, lower, is_ws, is_ws_exec, split_char, split_on, to_chars, to_lower, trim_ws,
    trim_chars, chars_eq, eq_str, string_from_chars, parse_unsigned, parse_unsigned_exec,
    has_suffix, ends_with_str, contains_seq, contains_str, find, find_seq, slice_chars,
    occurs_at,
};
use crate::urls::opt_view;

verus! {

// ------------------------------------------------------------------ ETA tokens

/// `(`, `)` and `,`, which yt-dlp may put around an ETA.
pub open spec fn eta_marks() -> Seq<char> {
    seq!['(', ')', ',']
}

/// The ETA text without surrounding whitespace and marks.
pub open spec fn eta_clean(token: Seq<char>) -> Seq<char> {
    trim_set(trim(token), eta_marks())
}

/// `str::eq_ignore_ascii_case`.
pub open spec fn eq_ignore_ascii_case(a: Seq<char>, b: Seq<char>) -> bool {
    lower(a) == lower(b)
}

/// `h:m:s`-style fields read left to right as base-60 digits: `None` as soon
/// as a field is not a `u64`.
pub open spec fn eta_fold(parts: Seq<Seq<char>>) -> Option<int>
    decreases parts.len(),
{
    if parts.len() == 0 {
        Some(0)
    } else {
        match eta_fold(parts.drop_last()) {
            None => None,
            Some(t) => match parse_unsigned(parts.last(), u64::MAX as int) {
                None => None,
                Some(p) => Some(t * 60 + p),
            },
        }
    }
}

/// The `u64` arithmetic of the fold overflows: the running total times 60
/// does, or adding the next field does.
pub open spec fn eta_overflows(parts: Seq<Seq<char>>) -> bool
    decreases parts.len(),
{
    if parts.len() == 0 {
        false
    } else {
        eta_overflows(parts.drop_last()) || match eta_fold(parts.drop_last()) {
            None => false,
            Some(t) => t * 60 > u64::MAX || match parse_unsigned(parts.last(), u64::MAX as int) {
                None => false,
                Some(p) => t * 60 + p > u64::MAX,
            },
        }
    }
}

/// The ETA is `unknown` (in any case) or empty.
pub open spec fn eta_absent(token: Seq<char>) -> bool {
    let c = eta_clean(token);
    eq_ignore_ascii_case(c, "unknown"@) || c.len() == 0
}

/// Seconds from an ETA like `04:12` or `01:02:03`.
pub open spec fn eta_secs_spec(token: Seq<char>) -> Option<int> {
    if eta_absent(token) {
        None
    } else {
        eta_fold(split_char(eta_clean(token), ':'))
    }
}

/// The ETA reads without overflowing `u64`.
pub open spec fn eta_fits(token: Seq<char>) -> bool {
    !eta_absent(token) ==> !eta_overflows(split_char(eta_clean(token), ':'))
}

fn eta_clean_exec(token: &str) -> (r: Vec<char>)
    ensures
        r@ == eta_clean(token@),
{
    let marks: Vec<char> = vec!['(', ')', ','];
    assert(marks@ =~= eta_marks());
    trim_chars(&trim_ws(&to_chars(token)), &marks)
}

fn eta_absent_exec(c: &[char]) -> (r: bool)
    ensures
        r == (eq_ignore_ascii_case(c@, "unknown"@) || c@.len() == 0),
{
    let l = to_lower(c);
    let u = to_lower(&to_chars("unknown"));
    chars_eq(&l, &u) || c.len() == 0
}

/// Whether `parse_eta_secs` reads `token` without overflowing.
pub fn eta_total_fits(token: &str) -> (r: bool)
    ensures
        r == eta_fits(token@),
{
    let c = eta_clean_exec(token);
    if eta_absent_exec(&c) {
        return true;
    }
    let parts = split_on(&c, ':');
    let ghost ps = split_char(c@, ':');
    let mut total: u64 = 0;
    let mut i: usize = 0;
    assert(ps.take(0) =~= Seq::<Seq<char>>::empty());
    while i < parts.len()
        invariant
            i <= parts.len(),
            parts@.map_values(|x: Vec<char>| x@) == ps,
            ps == split_char(c@, ':'),
            c@ == eta_clean(token@),
            !eta_absent(token@),
            !eta_overflows(ps.take(i as int)),
            eta_fold(ps.take(i as int)) == Some(total as int),
        decreases parts.len() - i,
    {
        assert(parts[i as int]@ == ps[i as int]);
        assert(ps.take(i + 1).drop_last() =~= ps.take(i as int));
        assert(ps.take(i + 1).last() == ps[i as int]);
        if total > u64::MAX / 60 {
            proof {
                assert(total * 60 > u64::MAX) by (nonlinear_arith)
                    requires
                        total > u64::MAX / 60,
                ;
                lemma_eta_overflow_stays(ps, i as int + 1);
            }
            return false;
        }
        assert(total * 60 <= u64::MAX) by (nonlinear_arith)
            requires
                total <= u64::MAX / 60,
        ;
        match parse_unsigned_exec(&parts[i], u64::MAX) {
            None => {
                proof {
                    lemma_eta_invalid_no_overflow(ps, i as int + 1);
                }
                return true;
            },
            Some(p) => {
                if p > u64::MAX - total * 60 {
                    proof {
                        lemma_eta_overflow_stays(ps, i as int + 1);
                    }
                    return false;
                }
                total = total * 60 + p;
            },
        }
        i = i + 1;
    }
    assert(ps.take(parts.len() as int) =~= ps);
    true
}

/// Once the fold has overflowed, it has overflowed for every longer input.
pub proof fn lemma_eta_overflow_stays(ps: Seq<Seq<char>>, k: int)
    requires
        0 <= k <= ps.len(),
        eta_overflows(ps.take(k)),
    ensures
        eta_overflows(ps),
    decreases ps.len() - k,
{
    if k < ps.len() {
        assert(ps.take(k + 1).drop_last() =~= ps.take(k));
        lemma_eta_overflow_stays(ps, k + 1);
    } else {
        assert(ps.take(k) =~= ps);
    }
}

/// Once a field fails to read (before any overflow), the fold neither
/// overflows nor gives a value.
pub proof fn lemma_eta_invalid_no_overflow(ps: Seq<Seq<char>>, k: int)
    requires
        0 <= k <= ps.len(),
        !eta_overflows(ps.take(k)),
        eta_fold(ps.take(k)) is None,
    ensures
        !eta_overflows(ps),
        eta_fold(ps) is None,
    decreases ps.len() - k,
{
    if k < ps.len() {
        assert(ps.take(k + 1).drop_last() =~= ps.take(k));
        lemma_eta_invalid_no_overflow(ps, k + 1);
    } else {
        assert(ps.take(k) =~= ps);
    }
}

/// Reads a yt-dlp ETA such as `04:12` or `01:02:03` as seconds; `None` for
/// `Unknown`, an empty token or a field that is not a number.
pub fn parse_eta_secs(token: &str) -> (r: Option<u64>)
    requires
        eta_fits(token@),
    ensures
        r matches Some(v) ==> eta_secs_spec(token@) == Some(v as int),
        r is None ==> eta_secs_spec(token@) is None,
{
    let c = eta_clean_exec(token);
    if eta_absent_exec(&c) {
        return None;
    }
    let parts = split_on(&c, ':');
    let ghost ps = split_char(c@, ':');
    let mut total: u64 = 0;
    let mut i: usize = 0;
    assert(ps.take(0) =~= Seq::<Seq<char>>::empty());
    while i < parts.len()
        invariant
            i <= parts.len(),
            parts@.map_values(|x: Vec<char>| x@) == ps,
            ps == split_char(c@, ':'),
            c@ == eta_clean(token@),
            !eta_absent(token@),
            !eta_overflows(ps),
            eta_fold(ps.take(i as int)) == Some(total as int),
        decreases parts.len() - i,
    {
        assert(parts[i as int]@ == ps[i as int]);
        assert(ps.take(i + 1).drop_last() =~= ps.take(i as int));
        assert(ps.take(i + 1).last() == ps[i as int]);
        proof {
            if eta_overflows(ps.take(i + 1)) {
                lemma_eta_overflow_stays(ps, i as int + 1);
            }
        }
        match parse_unsigned_exec(&parts[i], u64::MAX) {
            None => {
                proof {
                    lemma_eta_invalid_no_overflow(ps, i as int + 1);
                }
                return None;
            },
            Some(p) => {
                total = total * 60 + p;
            },
        }
        i = i + 1;
    }
    assert(ps.take(parts.len() as int) =~= ps);
    Some(total)
}

// ------------------------------------------------------------------ speed tokens

/// `str::trim_end_matches` with a text pattern.
pub open spec fn strip_suffix_all(s: Seq<char>, p: Seq<char>) -> Seq<char>
    decreases s.len(),
{
    if p.len() > 0 && has_suffix(s, p) {
        strip_suffix_all(s.take(s.len() - p.len()), p)
    } else {
        s
    }
}

/// The units yt-dlp prints after a rate, with their byte multipliers.
pub open spec fn speed_split(token: Seq<char>) -> (Seq<char>, int) {
    let t = strip_suffix_all(trim(token), "/s"@);
    if has_suffix(t, "GiB"@) {
        (trim(t.take(t.len() - 3)), 1073741824)
    } else if has_suffix(t, "MiB"@) {
        (trim(t.take(t.len() - 3)), 1048576)
    } else if has_suffix(t, "KiB"@) {
        (trim(t.take(t.len() - 3)), 1024)
    } else if has_suffix(t, "G"@) {
        (trim(t.take(t.len() - 1)), 1000000000)
    } else if has_suffix(t, "M"@) {
        (trim(t.take(t.len() - 1)), 1000000)
    } else if has_suffix(t, "K"@) {
        (trim(t.take(t.len() - 1)), 1000)
    } else if has_suffix(t, "B"@) {
        (trim(t.take(t.len() - 1)), 1)
    } else {
        (trim(t), 1)
    }
}

/// The binary units read as powers of 1024: a number followed by `KiB`,
/// `MiB` or `GiB`, with or without `/s`, gives that number and 1024,
/// 1024 * 1024 or 1024 * 1024 * 1024.
pub proof fn lemma_binary_units(n: Seq<char>, per_second: bool)
    requires
        n.len() == 0 || (!is_ws(n[0]) && !is_ws(n.last())),
    ensures
        speed_split(n + "KiB"@ + (if per_second {
            "/s"@
        } else {
            Seq::empty()
        })) == (n, 1024int),
        speed_split(n + "MiB"@ + (if per_second {
            "/s"@
        } else {
            Seq::empty()
        })) == (n, 1024 * 1024int),
        speed_split(n + "GiB"@ + (if per_second {
            "/s"@
        } else {
            Seq::empty()
        })) == (n, 1024 * 1024 * 1024int),
{
    lemma_unit_reads(n, "KiB"@, per_second);
    lemma_unit_reads(n, "MiB"@, per_second);
    lemma_unit_reads(n, "GiB"@, per_second);
}

proof fn lemma_unit_reads(n: Seq<char>, unit: Seq<char>, per_second: bool)
    requires
        n.len() == 0 || (!is_ws(n[0]) && !is_ws(n.last())),
        unit == "KiB"@ || unit == "MiB"@ || unit == "GiB"@,
    ensures
        speed_split(n + unit + (if per_second {
            "/s"@
        } else {
            Seq::empty()
        })) == (n, if unit == "KiB"@ {
            1024int
        } else if unit == "MiB"@ {
            1024 * 1024int
        } else {
            1024 * 1024 * 1024int
        }),
{
    reveal_strlit("KiB");
    reveal_strlit("MiB");
    reveal_strlit("GiB");
    reveal_strlit("/s");
    let sfx: Seq<char> = if per_second {
        "/s"@
    } else {
        Seq::empty()
    };
    let body = n + unit;
    let tok = body + sfx;
    assert(body.len() == n.len() + 3);
    assert(body[body.len() - 1] == 'B');
    assert(!is_ws(tok[0])) by {
        if n.len() == 0 {
            assert(tok[0] == unit[0]);
        } else {
            assert(tok[0] == n[0]);
        }
    }
    assert(!is_ws(tok.last())) by {
        if per_second {
            assert(tok.last() == 's');
        } else {
            assert(tok =~= body);
        }
    }
    lemma_trim_noop(tok);
    reveal_strlit("/s");
    assert(!has_suffix(body, "/s"@)) by {
        if has_suffix(body, "/s"@) {
            assert(body.skip(body.len() - 2)[1] == body[body.len() - 1]);
        }
    }
    assert(strip_suffix_all(body, "/s"@) == body);
    if per_second {
        assert(has_suffix(tok, "/s"@)) by {
            assert(tok.skip(tok.len() - 2) =~= "/s"@);
        }
        assert(tok.take(tok.len() - 2) =~= body);
        assert(strip_suffix_all(tok, "/s"@) == strip_suffix_all(tok.take(tok.len() - 2), "/s"@));
    } else {
        assert(tok =~= body);
    }
    assert(strip_suffix_all(tok, "/s"@) == body);
    assert(body.skip(body.len() - 3) =~= unit);
    assert(body.take(body.len() - 3) =~= n);
    lemma_trim_noop(n);
    if unit != "GiB"@ {
        assert(!has_suffix(body, "GiB"@)) by {
            if has_suffix(body, "GiB"@) {
                assert(unit =~= "GiB"@);
            }
        }
    }
    if unit == "KiB"@ {
        assert(!has_suffix(body, "MiB"@)) by {
            if has_suffix(body, "MiB"@) {
                assert(unit =~= "MiB"@);
            }
        }
    }
}

proof fn lemma_one_char_suffix(s: Seq<char>, c: char)
    requires
        s.len() > 0,
    ensures
        has_suffix(s, seq![c]) == (s.last() == c),
{
    assert(s.skip(s.len() - 1) =~= seq![s.last()]);
    if has_suffix(s, seq![c]) {
        assert(s.skip(s.len() - 1)[0] == c);
    }
}

/// The decimal units read as powers of 1000, and bytes as one: a number
/// ending in a digit, followed by `K`, `M`, `G` or `B`, with or without
/// `/s`, gives that number and 1000, 1000000, 1000000000 or 1; with no unit
/// the multiplier is 1.
pub proof fn lemma_decimal_units(n: Seq<char>, unit: Seq<char>, per_second: bool)
    requires
        n.len() > 0,
        !is_ws(n[0]),
        '0' <= n.last() <= '9',
        unit == "K"@ || unit == "M"@ || unit == "G"@ || unit == "B"@ || unit.len() == 0,
    ensures
        speed_split(n + unit + (if per_second {
            "/s"@
        } else {
            Seq::empty()
        })) == (n, if unit == "K"@ {
            1000int
        } else if unit == "M"@ {
            1000000int
        } else if unit == "G"@ {
            1000000000int
        } else {
            1int
        }),
{
    reveal_strlit("K");
    reveal_strlit("M");
    reveal_strlit("G");
    reveal_strlit("B");
    reveal_strlit("KiB");
    reveal_strlit("MiB");
    reveal_strlit("GiB");
    reveal_strlit("/s");
    let sfx: Seq<char> = if per_second {
        "/s"@
    } else {
        Seq::empty()
    };
    let body = n + unit;
    let tok = body + sfx;
    assert(tok[0] == n[0]);
    assert(!is_ws(body.last())) by {
        if unit.len() == 0 {
            assert(body.last() == n.last());
        } else {
            assert(body.last() == unit[0]);
        }
    }
    assert(!is_ws(tok.last())) by {
        if per_second {
            assert(tok.last() == 's');
        } else {
            assert(tok =~= body);
        }
    }
    lemma_trim_noop(tok);
    assert(!has_suffix(body, "/s"@)) by {
        if has_suffix(body, "/s"@) {
            assert(body.skip(body.len() - 2)[1] == body[body.len() - 1]);
        }
    }
    assert(strip_suffix_all(body, "/s"@) == body);
    if per_second {
        assert(has_suffix(tok, "/s"@)) by {
            assert(tok.skip(tok.len() - 2) =~= "/s"@);
        }
        assert(tok.take(tok.len() - 2) =~= body);
        assert(strip_suffix_all(tok, "/s"@) == strip_suffix_all(tok.take(tok.len() - 2), "/s"@));
    } else {
        assert(tok =~= body);
    }
    assert(strip_suffix_all(tok, "/s"@) == body);
    assert(!has_suffix(body, "GiB"@) && !has_suffix(body, "MiB"@) && !has_suffix(body, "KiB"@)) by {
        if body.len() >= 3 {
            assert(body.skip(body.len() - 3)[1] == body[body.len() - 2]);
            if unit.len() == 0 {
                assert(body.skip(body.len() - 3)[2] == n.last());
            } else {
                assert(body[body.len() - 2] == n.last());
            }
        }
    }
    let last = body.last();
    assert(body.skip(body.len() - 1) =~= seq![last]);
    assert("G"@ =~= seq!['G']);
    assert("M"@ =~= seq!['M']);
    assert("K"@ =~= seq!['K']);
    assert("B"@ =~= seq!['B']);
    lemma_one_char_suffix(body, 'G');
    lemma_one_char_suffix(body, 'M');
    lemma_one_char_suffix(body, 'K');
    lemma_one_char_suffix(body, 'B');
    lemma_trim_noop(n);
    if unit.len() == 0 {
        assert(body =~= n);
        assert('0' <= last <= '9');
    } else {
        assert(last == unit[0]);
        assert(body.take(body.len() - 1) =~= n);
    }
}

/// A rate such as `3.50MiB/s`: the number text and the multiplier of its
/// unit (the caller reads the number as a float and multiplies).
pub struct SpeedToken {
    pub number: String,
    pub multiplier: u64,
}

fn strip_suffix_all_exec(s: &[char], p: &str) -> (r: Vec<char>)
    ensures
        r@ == strip_suffix_all(s@, p@),
{
    let pc = to_chars(p);
    let mut cur: Vec<char> = crate::text::copy_chars(s);
    if pc.len() == 0 {
        return cur;
    }
    while crate::text::ends_with(&cur, &pc)
        invariant
            pc@ == p@,
            pc.len() > 0,
            strip_suffix_all(cur@, p@) == strip_suffix_all(s@, p@),
        decreases cur.len(),
    {
        let n = cur.len() - pc.len();
        cur = slice_chars(&cur, 0, n);
        assert(cur@ =~= cur@.take(n as int));
    }
    cur
}

/// Splits a yt-dlp rate into its number text and unit multiplier.
pub fn split_speed_token(token: &str) -> (r: SpeedToken)
    ensures
        (r.number@, r.multiplier as int) == speed_split(token@),
{
    proof {
        reveal_strlit("GiB");
        reveal_strlit("MiB");
        reveal_strlit("KiB");
        reveal_strlit("G");
        reveal_strlit("M");
        reveal_strlit("K");
        reveal_strlit("B");
    }
    let t = strip_suffix_all_exec(&trim_ws(&to_chars(token)), "/s");
    let (cut, mult): (usize, u64) = if ends_with_str(&t, "GiB") {
        (3, 1073741824)
    } else if ends_with_str(&t, "MiB") {
        (3, 1048576)
    } else if ends_with_str(&t, "KiB") {
        (3, 1024)
    } else if ends_with_str(&t, "G") {
        (1, 1000000000)
    } else if ends_with_str(&t, "M") {
        (1, 1000000)
    } else if ends_with_str(&t, "K") {
        (1, 1000)
    } else if ends_with_str(&t, "B") {
        (1, 1)
    } else {
        (0, 1)
    };
    assert(t@ == strip_suffix_all(trim(token@), "/s"@));
    assert(cut <= t.len());
    assert(t@.take(t@.len() as int) =~= t@);
    assert(speed_split(token@) == (trim(t@.take(t@.len() - cut as int)), mult as int));
    let num = slice_chars(&t, 0, t.len() - cut);
    let number = string_from_chars(&trim_ws(&num));
    SpeedToken { number, multiplier: mult }
}

// ------------------------------------------------------------------ yt-dlp lines

/// Words of a text, as `str::split_whitespace` gives them: the maximal runs
/// of non-whitespace characters.
pub open spec fn word_scan(s: Seq<char>) -> (Seq<Seq<char>>, Seq<char>)
    decreases s.len(),
{
    if s.len() == 0 {
        (Seq::empty(), Seq::empty())
    } else {
        let (done, cur) = word_scan(s.drop_last());
        if is_ws(s.last()) {
            if cur.len() > 0 {
                (done.push(cur), Seq::empty())
            } else {
                (done, Seq::empty())
            }
        } else {
            (done, cur.push(s.last()))
        }
    }
}

pub open spec fn words(s: Seq<char>) -> Seq<Seq<char>> {
    let (done, cur) = word_scan(s);
    if cur.len() > 0 {
        done.push(cur)
    } else {
        done
    }
}

pub fn words_of(s: &[char]) -> (r: Vec<Vec<char>>)
    ensures
        r@.map_values(|x: Vec<char>| x@) == words(s@),
{
    let mut done: Vec<Vec<char>> = Vec::new();
    let mut cur: Vec<char> = Vec::new();
    let mut i: usize = 0;
    assert(s@.take(0) =~= Seq::<char>::empty());
    assert(done@.map_values(|x: Vec<char>| x@) =~= Seq::<Seq<char>>::empty());
    while i < s.len()
        invariant
            i <= s.len(),
            word_scan(s@.take(i as int)) == (done@.map_values(|x: Vec<char>| x@), cur@),
        decreases s.len() - i,
    {
        assert(s@.take(i + 1).drop_last() =~= s@.take(i as int));
        assert(s@.take(i + 1).last() == s@[i as int]);
        let c = s[i];
        if is_ws_exec(c) {
            if cur.len() > 0 {
                let ghost before = done@.map_values(|x: Vec<char>| x@);
                let ghost cv = cur@;
                done.push(cur);
                cur = Vec::new();
                assert(done@.map_values(|x: Vec<char>| x@) =~= before.push(cv));
            } else {
                cur = Vec::new();
            }
            assert(cur@ =~= Seq::<char>::empty());
        } else {
            cur.push(c);
        }
        i = i + 1;
    }
    assert(s@.take(s.len() as int) =~= s@);
    if cur.len() > 0 {
        let ghost before = done@.map_values(|x: Vec<char>| x@);
        let ghost cv = cur@;
        done.push(cur);
        assert(done@.map_values(|x: Vec<char>| x@) =~= before.push(cv));
    }
    done
}

/// The text between the first `[download]` marker and the next one.
pub open spec fn after_download_marker(line: Seq<char>) -> Seq<char> {
    let i = find_seq(line, "[download]"@)->0;
    let rest = line.skip(i + "[download]"@.len());
    match find_seq(rest, "[download]"@) {
        Some(j) => rest.take(j),
        None => rest,
    }
}

/// The first index at which `p(ws[i])`, if any.
pub open spec fn first_index(ws: Seq<Seq<char>>, p: spec_fn(Seq<char>) -> bool) -> Option<int> {
    if exists|i: int| 0 <= i < ws.len() && p(ws[i]) {
        Some(choose|i: int| 0 <= i < ws.len() && p(ws[i]) && forall|j: int| 0 <= j < i ==> !p(ws[j]))
    } else {
        None
    }
}

/// The word after the first word equal to `w`, if both exist.
pub open spec fn word_after(ws: Seq<Seq<char>>, w: Seq<char>) -> Option<Seq<char>> {
    match first_index(ws, |x: Seq<char>| x == w) {
        Some(i) => if i + 1 < ws.len() {
            Some(ws[i + 1])
        } else {
            None
        },
        None => None,
    }
}

/// What a yt-dlp progress line carries: the percentage text (the first word
/// ending in `%`, without its trailing `%` signs), the rate after `at`, the
/// ETA after `ETA`, and the ETA as displayed (empty when unknown).
pub struct YtdlpFields {
    pub percent: String,
    pub speed: Option<String>,
    pub eta: Option<String>,
    pub eta_text: String,
}

pub open spec fn ytdlp_fields_spec(line: Seq<char>) -> Option<
    (Seq<char>, Option<Seq<char>>, Option<Seq<char>>, Seq<char>),
> {
    if !contains_seq(line, "[download]"@) || contains_seq(line, "Destination:"@) {
        None
    } else {
        let ws = words(trim(after_download_marker(line)));
        match first_index(ws, |x: Seq<char>| has_suffix(x, "%"@)) {
            None => None,
            Some(i) => {
                let eta = word_after(ws, "ETA"@);
                let eta_text = match eta {
                    Some(e) => {
                        let c = trim_set(e, eta_marks());
                        if eq_ignore_ascii_case(c, "unknown"@) {
                            Seq::empty()
                        } else {
                            c
                        }
                    },
                    None => Seq::empty(),
                };
                Some((strip_suffix_all(ws[i], "%"@), word_after(ws, "at"@), eta, eta_text))
            },
        }
    }
}

fn first_word_eq(ws: &Vec<Vec<char>>, w: &str) -> (r: Option<usize>)
    ensures
        r matches Some(i) ==> i < ws.len() && first_index(ws@.map_values(|x: Vec<char>| x@), |x: Seq<char>| x == w@)
            == Some(i as int),
        r is None ==> first_index(ws@.map_values(|x: Vec<char>| x@), |x: Seq<char>| x == w@) is None,
{
    let ghost wv = ws@.map_values(|x: Vec<char>| x@);
    let ghost p = |x: Seq<char>| x == w@;
    let mut i: usize = 0;
    while i < ws.len()
        invariant
            i <= ws.len(),
            wv == ws@.map_values(|x: Vec<char>| x@),
            p == (|x: Seq<char>| x == w@),
            forall|j: int| 0 <= j < i ==> !p(wv[j]),
        decreases ws.len() - i,
    {
        assert(ws[i as int]@ == wv[i as int]);
        if eq_str(&ws[i], w) {
            proof {
                assert(p(wv[i as int]));
                assert(exists|k: int| 0 <= k < wv.len() && p(wv[k]));
                let k = choose|k: int|
                    0 <= k < wv.len() && p(wv[k]) && forall|j: int| 0 <= j < k ==> !p(wv[j]);
                assert(k == i) by {
                    if k < i {
                    } else if k > i {
                        assert(!p(wv[i as int]));
                    }
                }
            }
            return Some(i);
        }
        i = i + 1;
    }
    None
}

fn word_after_exec(ws: &Vec<Vec<char>>, w: &str) -> (r: Option<Vec<char>>)
    ensures
        r matches Some(v) ==> word_after(ws@.map_values(|x: Vec<char>| x@), w@) == Some(v@),
        r is None ==> word_after(ws@.map_values(|x: Vec<char>| x@), w@) is None,
{
    match first_word_eq(ws, w) {
        Some(i) => {
            if i + 1 < ws.len() {
                assert(ws[i + 1]@ == ws@.map_values(|x: Vec<char>| x@)[i + 1]);
                Some(crate::text::copy_chars(&ws[i + 1]))
            } else {
                None
            }
        },
        None => None,
    }
}

/// Reads the fields of a yt-dlp `--newline` progress line; `None` for lines
/// that are not progress lines or show no percentage.
#[verifier::rlimit(40)]
pub fn ytdlp_line_fields(line: &str) -> (r: Option<YtdlpFields>)
    ensures
        r matches Some(f) ==> ytdlp_fields_spec(line@) == Some(
            (f.percent@, opt_view(f.speed), opt_view(f.eta), f.eta_text@),
        ),
        r is None ==> ytdlp_fields_spec(line@) is None,
{
    let l = to_chars(line);
    let marker = to_chars("[download]");
    if !crate::text::contains(&l, &marker) || contains_str(&l, "Destination:") {
        return None;
    }
    let i = match find(&l, &marker) {
        Some(i) => i,
        None => {
            return None;
        },
    };
    assert(occurs_at(l@, marker@, i as int));
    let ml = marker.len();
    let ll = l.len();
    assert(i + ml <= ll);
    let rest = slice_chars(&l, i + ml, ll);
    assert(rest@ =~= l@.skip(i + "[download]"@.len()));
    let piece = match find(&rest, &marker) {
        Some(j) => {
            let p = slice_chars(&rest, 0, j);
            assert(p@ =~= rest@.take(j as int));
            p
        },
        None => rest,
    };
    assert(piece@ == after_download_marker(line@));
    let ws = words_of(&trim_ws(&piece));
    let ghost wv = ws@.map_values(|x: Vec<char>| x@);
    let ghost pp = |x: Seq<char>| has_suffix(x, "%"@);
    let mut k: usize = 0;
    while k < ws.len() && !ends_with_str(&ws[k], "%")
        invariant
            k <= ws.len(),
            wv == ws@.map_values(|x: Vec<char>| x@),
            pp == (|x: Seq<char>| has_suffix(x, "%"@)),
            forall|j: int| 0 <= j < k ==> !pp(wv[j]),
        decreases ws.len() - k,
    {
        assert(ws[k as int]@ == wv[k as int]);
        k = k + 1;
    }
    if k == ws.len() {
        assert(!(exists|j: int| 0 <= j < wv.len() && pp(wv[j])));
        return None;
    }
    assert(ws[k as int]@ == wv[k as int]);
    proof {
        assert(exists|j: int| 0 <= j < wv.len() && pp(wv[j]));
        let c = choose|j: int| 0 <= j < wv.len() && pp(wv[j]) && forall|m: int| 0 <= m < j ==> !pp(wv[m]);
        assert(c == k) by {
            if c > k {
                assert(!pp(wv[k as int]));
            }
        }
    }
    let percent = string_from_chars(&strip_suffix_all_exec(&ws[k], "%"));
    let speed = match word_after_exec(&ws, "at") {
        Some(v) => Some(string_from_chars(&v)),
        None => None,
    };
    let marks: Vec<char> = vec!['(', ')', ','];
    assert(marks@ =~= eta_marks());
    let (eta, eta_text) = match word_after_exec(&ws, "ETA") {
        Some(e) => {
            let c = trim_chars(&e, &marks);
            let text = if eta_absent_exec(&c) {
                String::new()
            } else {
                string_from_chars(&c)
            };
            (Some(string_from_chars(&e)), text)
        },
        None => (None, String::new()),
    };
    Some(YtdlpFields { percent, speed, eta, eta_text })
}

/// A line announcing a new output stream.
pub fn is_ytdlp_destination(line: &str) -> (r: bool)
    ensures
        r == contains_seq(line@, "[download] Destination:"@),
{
    contains_str(&to_chars(line), "[download] Destination:")
}

/// A line announcing the merge of the downloaded streams.
pub fn is_ytdlp_merger(line: &str) -> (r: bool)
    ensures
        r == (contains_seq(line@, "[Merger]"@) || contains_seq(line@, "[ffmpeg]"@)),
{
    let l = to_chars(line);
    contains_str(&l, "[Merger]") || contains_str(&l, "[ffmpeg]")
}

// ------------------------------------------------------------------ the speedometer

/// Samples older than this (in nanoseconds) leave the window.
pub const SPEED_WINDOW_NANOS: u64 = 3_000_000_000;

/// Minimum spacing (in nanoseconds) between two speed reports.
pub const SPEED_EMIT_NANOS: u64 = 300_000_000;

pub open spec fn sat_sub(a: u64, b: u64) -> int {
    if a >= b {
        a - b
    } else {
        0
    }
}

/// The window after a new sample: the oldest samples leave while more than
/// two remain and the oldest is more than the window old.
pub open spec fn prune(s: Seq<(u64, u64)>, now: u64) -> Seq<(u64, u64)>
    decreases s.len(),
{
    if s.len() > 2 && sat_sub(now, s[0].0) > SPEED_WINDOW_NANOS {
        prune(s.drop_first(), now)
    } else {
        s
    }
}

/// A speed report: bytes gained over the window and the window's length.
pub struct SpeedSample {
    pub bytes: u64,
    pub nanos: u64,
}

/// Sliding-window speedometer shared by the file and HLS workers.
pub struct Speedo {
    samples: VecDeque<(u64, u64)>,
    last_emit: u64,
}

impl Speedo {
    /// The samples in the window, oldest first: (time, total bytes).
    pub closed spec fn samples(&self) -> Seq<(u64, u64)> {
        self.samples@
    }

    /// When the last report was made.
    pub closed spec fn last_emit(&self) -> u64 {
        self.last_emit
    }

    /// An empty speedometer started at `now`.
    pub fn new(now: u64) -> (s: Speedo)
        ensures
            s.samples() == Seq::<(u64, u64)>::empty(),
            s.last_emit() == now,
    {
        Speedo { samples: VecDeque::new(), last_emit: now }
    }

    /// Adds the running byte total at `now`; reports the bytes and time over
    /// the window when at least the emit interval passed since the last
    /// report.
    pub fn push(&mut self, now: u64, total_bytes: u64) -> (r: Option<SpeedSample>)
        ensures
            final(self).samples() == prune(old(self).samples().push((now, total_bytes)), now),
            sat_sub(now, old(self).last_emit()) >= SPEED_EMIT_NANOS ==> ({
                let w = final(self).samples();
                &&& final(self).last_emit() == now
                &&& r matches Some(smp) && smp.bytes == sat_sub(total_bytes, w[0].1)
                    && smp.nanos == sat_sub(now, w[0].0)
            }),
            sat_sub(now, old(self).last_emit()) < SPEED_EMIT_NANOS ==> r is None
                && final(self).last_emit() == old(self).last_emit(),
    {
        let ghost old_last = self.last_emit;
        self.samples.push_back((now, total_bytes));
        let ghost target = prune(self.samples@, now);
        while self.samples.len() > 2 && now.saturating_sub(self.samples[0].0) > SPEED_WINDOW_NANOS
            invariant
                prune(self.samples@, now) == target,
                self.samples@.len() > 0,
                self.last_emit == old_last,
            decreases self.samples@.len(),
        {
            self.samples.pop_front();
        }
        assert(self.samples@ == target);
        if now.saturating_sub(self.last_emit) >= SPEED_EMIT_NANOS {
            self.last_emit = now;
            let (t0, b0) = self.samples[0];
            Some(SpeedSample { bytes: total_bytes.saturating_sub(b0), nanos: now.saturating_sub(t0) })
        } else {
            None
        }
    }
}

pub proof fn lemma_prune_keeps_last(s: Seq<(u64, u64)>, now: u64)
    requires
        s.len() > 0,
    ensures
        prune(s, now).len() > 0,
        prune(s, now).last() == s.last(),
    decreases s.len(),
{
    if s.len() > 2 && sat_sub(now, s[0].0) > SPEED_WINDOW_NANOS {
        lemma_prune_keeps_last(s.drop_first(), now);
    }
}

/// The window never loses the newest sample, and keeps samples more than
/// the window old only while two or fewer remain.
pub proof fn lemma_window_bounds(s: Seq<(u64, u64)>, now: u64)
    requires
        s.len() > 0,
    ensures
        prune(s, now).len() > 0,
        prune(s, now).last() == s.last(),
        prune(s, now).len() <= 2 || sat_sub(now, prune(s, now)[0].0) <= SPEED_WINDOW_NANOS,
    decreases s.len(),
{
    lemma_prune_keeps_last(s, now);
    if s.len() > 2 && sat_sub(now, s[0].0) > SPEED_WINDOW_NANOS {
        lemma_window_bounds(s.drop_first(), now);
    }
}

} // verus!
