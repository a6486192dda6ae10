//! HLS playlists: choosing a variant from a master playlist.

use vstd::prelude::*;
use crate::text::{
    trim, trim_ws, has_prefix, starts_with_str, split_char, split_on, parse_unsigned,
    parse_unsigned_exec, slice_chars, to_chars, lines, lines_of, copy_chars,
};

verus! {

/// A variant declared in a master playlist: its bandwidth, the height of its
/// resolution when given, and its URI line.
pub type Variant = (int, Option<int>, Seq<char>);

/// The tag that introduces a variant stream.
pub open spec fn stream_inf_tag() -> Seq<char> {
    "#EXT-X-STREAM-INF:"@
}

/// `BANDWIDTH=<u64>` in one attribute of the tag.
pub open spec fn kv_bandwidth(kv: Seq<char>) -> Option<int> {
    let t = trim(kv);
    if has_prefix(t, "BANDWIDTH="@) {
        parse_unsigned(t.skip("BANDWIDTH="@.len() as int), u64::MAX as int)
    } else {
        None
    }
}

/// `RESOLUTION=<w>x<h>` in one attribute of the tag: the height as a `u16`.
pub open spec fn kv_height(kv: Seq<char>) -> Option<int> {
    let t = trim(kv);
    if has_prefix(t, "RESOLUTION="@) {
        let parts = split_char(t.skip("RESOLUTION="@.len() as int), 'x');
        if parts.len() >= 2 {
            parse_unsigned(parts[1], u16::MAX as int)
        } else {
            None
        }
    } else {
        None
    }
}

/// `find_map` of `kv_bandwidth` over the attributes.
pub open spec fn first_bandwidth_in(s: Seq<Seq<char>>) -> Option<int>
    decreases s.len(),
{
    if s.len() == 0 {
        None
    } else {
        match kv_bandwidth(s[0]) {
            Some(v) => Some(v),
            None => first_bandwidth_in(s.drop_first()),
        }
    }
}

/// `find_map` of `kv_height` over the attributes.
pub open spec fn first_height_in(s: Seq<Seq<char>>) -> Option<int>
    decreases s.len(),
{
    if s.len() == 0 {
        None
    } else {
        match kv_height(s[0]) {
            Some(v) => Some(v),
            None => first_height_in(s.drop_first()),
        }
    }
}

/// The bandwidth declared after the tag: the first comma-separated attribute
/// that reads as one.
pub open spec fn tag_bandwidth(rest: Seq<char>) -> Option<int> {
    first_bandwidth_in(split_char(rest, ','))
}

/// The resolution height declared after the tag.
pub open spec fn tag_height(rest: Seq<char>) -> Option<int> {
    first_height_in(split_char(rest, ','))
}

/// What a scan of the playlist has collected: the variants so far, and the
/// bandwidth and height of a tag still waiting for its URI line.
pub type Scan = (Seq<Variant>, Option<int>, Option<int>);

/// One line of the scan. A tag line sets the pending attributes; a URI line
/// (not empty, not a comment) completes a variant when a bandwidth is
/// pending; other lines change nothing.
pub open spec fn scan_step(st: Scan, line: Seq<char>) -> Scan {
    let t = trim(line);
    if has_prefix(t, stream_inf_tag()) {
        let rest = t.skip(stream_inf_tag().len() as int);
        (st.0, tag_bandwidth(rest), tag_height(rest))
    } else if t.len() > 0 && t[0] != '#' {
        match st.1 {
            Some(bw) => (st.0.push((bw, st.2, t)), None, None),
            None => st,
        }
    } else {
        st
    }
}

pub open spec fn scan(ls: Seq<Seq<char>>) -> Scan
    decreases ls.len(),
{
    if ls.len() == 0 {
        (Seq::empty(), None, None)
    } else {
        scan_step(scan(ls.drop_last()), ls.last())
    }
}

/// The variants a master playlist declares, in order.
pub open spec fn master_variants(master: Seq<char>) -> Seq<Variant> {
    scan(lines(master)).0
}

pub open spec fn abs_diff(a: int, b: int) -> int {
    if a >= b {
        a - b
    } else {
        b - a
    }
}

/// The choice so far: its bandwidth, its height distance to the wanted
/// quality (when both are known), and its URI.
pub type Choice = (int, Option<int>, Option<Seq<char>>);

/// Whether variant `v` replaces the current choice. With a wanted height, a
/// variant with a height wins when it is closer, or as close with a strictly
/// higher bandwidth; a variant without a height only fills an empty choice.
/// Without a wanted height, a bandwidth at least as high wins.
pub open spec fn replaces(c: Choice, v: Variant, quality: Option<int>) -> bool {
    match quality {
        Some(q) => match v.1 {
            Some(h) => match c.1 {
                Some(bd) => abs_diff(h, q) < bd || (abs_diff(h, q) == bd && v.0 > c.0),
                None => true,
            },
            None => c.2 is None,
        },
        None => c.2 is None || v.0 >= c.0,
    }
}

pub open spec fn choose_step(c: Choice, v: Variant, quality: Option<int>) -> Choice {
    if replaces(c, v, quality) {
        (
            v.0,
            match (quality, v.1) {
                (Some(q), Some(h)) => Some(abs_diff(h, q)),
                _ => c.1,
            },
            Some(v.2),
        )
    } else {
        c
    }
}

pub open spec fn choose_variant(vs: Seq<Variant>, quality: Option<int>) -> Choice
    decreases vs.len(),
{
    if vs.len() == 0 {
        (0, None, None)
    } else {
        choose_step(choose_variant(vs.drop_last(), quality), vs.last(), quality)
    }
}

/// The URI of the variant picked from `master` for the wanted height.
pub open spec fn picked_variant(master: Seq<char>, quality: Option<int>) -> Option<Seq<char>> {
    choose_variant(master_variants(master), quality).2
}

pub open spec fn opt_u16_view(q: Option<u16>) -> Option<int> {
    match q {
        Some(v) => Some(v as int),
        None => None,
    }
}

fn first_bandwidth(rest: &[char]) -> (r: Option<u64>)
    ensures
        r matches Some(v) ==> tag_bandwidth(rest@) == Some(v as int),
        r is None ==> tag_bandwidth(rest@) is None,
{
    let pieces = split_on(rest, ',');
    let ghost ps = split_char(rest@, ',');
    let mut i: usize = 0;
    assert(ps.skip(0) =~= ps);
    while i < pieces.len()
        invariant
            i <= pieces.len(),
            pieces@.map_values(|x: Vec<char>| x@) == ps,
            ps == split_char(rest@, ','),
            first_bandwidth_in(ps) == first_bandwidth_in(ps.skip(i as int)),
        decreases pieces.len() - i,
    {
        assert(pieces[i as int]@ == ps[i as int]);
        let t = trim_ws(&pieces[i]);
        let ghost rest_ps = ps.skip(i as int);
        assert(rest_ps[0] == ps[i as int]);
        assert(rest_ps.drop_first() =~= ps.skip(i + 1));
        if starts_with_str(&t, "BANDWIDTH=") {
            let p = to_chars("BANDWIDTH=");
            let v = slice_chars(&t, p.len(), t.len());
            assert(v@ =~= t@.skip("BANDWIDTH="@.len() as int));
            match parse_unsigned_exec(&v, u64::MAX) {
                Some(x) => {
                    assert(kv_bandwidth(ps[i as int]) == Some(x as int));
                    assert(first_bandwidth_in(rest_ps) == Some(x as int));
                    return Some(x);
                },
                None => {},
            }
        }
        i = i + 1;
    }
    assert(ps.skip(i as int).len() == 0);
    None
}

fn first_height(rest: &[char]) -> (r: Option<u16>)
    ensures
        r matches Some(v) ==> tag_height(rest@) == Some(v as int),
        r is None ==> tag_height(rest@) is None,
{
    let pieces = split_on(rest, ',');
    let ghost ps = split_char(rest@, ',');
    let mut i: usize = 0;
    assert(ps.skip(0) =~= ps);
    while i < pieces.len()
        invariant
            i <= pieces.len(),
            pieces@.map_values(|x: Vec<char>| x@) == ps,
            ps == split_char(rest@, ','),
            first_height_in(ps) == first_height_in(ps.skip(i as int)),
        decreases pieces.len() - i,
    {
        assert(pieces[i as int]@ == ps[i as int]);
        let t = trim_ws(&pieces[i]);
        let ghost rest_ps = ps.skip(i as int);
        assert(rest_ps[0] == ps[i as int]);
        assert(rest_ps.drop_first() =~= ps.skip(i + 1));
        if starts_with_str(&t, "RESOLUTION=") {
            let p = to_chars("RESOLUTION=");
            let v = slice_chars(&t, p.len(), t.len());
            assert(v@ =~= t@.skip("RESOLUTION="@.len() as int));
            let parts = split_on(&v, 'x');
            if parts.len() >= 2 {
                assert(parts[1]@ == split_char(v@, 'x')[1]);
                match parse_unsigned_exec(&parts[1], 65535) {
                    Some(x) => {
                        assert(kv_height(ps[i as int]) == Some(x as int));
                        assert(first_height_in(rest_ps) == Some(x as int));
                        return Some(x as u16);
                    },
                    None => {},
                }
            }
        }
        i = i + 1;
    }
    assert(ps.skip(i as int).len() == 0);
    None
}

fn abs_diff_u16(a: u16, b: u16) -> (r: u16)
    ensures
        r as int == abs_diff(a as int, b as int),
{
    if a >= b {
        a - b
    } else {
        b - a
    }
}

/// Picks the variant playlist from an HLS master playlist: with a wanted
/// `quality` (a height), the variant whose resolution height is closest to
/// it; otherwise the one with the highest bandwidth. `None` when the text
/// declares no variant.
pub fn pick_hls_variant(master: &str, quality: Option<u16>) -> (r: Option<String>)
    ensures
        r matches Some(u) ==> picked_variant(master@, opt_u16_view(quality)) == Some(u@),
        r is None ==> picked_variant(master@, opt_u16_view(quality)) is None,
{
    let ls = lines_of(&to_chars(master));
    let ghost lsv = lines(master@);
    let ghost q = opt_u16_view(quality);
    let tag = to_chars("#EXT-X-STREAM-INF:");
    let mut best_bw: u64 = 0;
    let mut best_height_diff: Option<u16> = None;
    let mut best_uri: Option<Vec<char>> = None;
    let mut pending_bw: Option<u64> = None;
    let mut pending_height: Option<u16> = None;
    let ghost mut vs: Seq<Variant> = Seq::empty();
    let mut i: usize = 0;
    while i < ls.len()
        invariant
            i <= ls.len(),
            ls@.map_values(|x: Vec<char>| x@) == lsv,
            tag@ == stream_inf_tag(),
            q == opt_u16_view(quality),
            scan(lsv.take(i as int)) == (vs, opt_u64_view(pending_bw), opt_u16_view(pending_height)),
            choose_variant(vs, q) == (best_bw as int, opt_u16_view(best_height_diff), opt_chars_view(best_uri)),
        decreases ls.len() - i,
    {
        assert(ls[i as int]@ == lsv[i as int]);
        assert(lsv.take(i + 1).drop_last() =~= lsv.take(i as int));
        let t = trim_ws(&ls[i]);
        if crate::text::starts_with(&t, &tag) {
            let rest = slice_chars(&t, tag.len(), t.len());
            assert(rest@ =~= t@.skip(stream_inf_tag().len() as int));
            pending_bw = first_bandwidth(&rest);
            pending_height = first_height(&rest);
        } else if t.len() > 0 && t[0] != '#' {
            match pending_bw {
                Some(bw) => {
                    pending_bw = None;
                    let height = pending_height;
                    pending_height = None;
                    let ghost v: Variant = (bw as int, opt_u16_view(height), t@);
                    let ghost c: Choice = (best_bw as int, opt_u16_view(best_height_diff), opt_chars_view(best_uri));
                    let is_better = match quality {
                        Some(qq) => match height {
                            Some(h) => {
                                let diff = abs_diff_u16(h, qq);
                                match best_height_diff {
                                    Some(best_diff) => {
                                        if diff < best_diff {
                                            true
                                        } else {
                                            diff == best_diff && bw > best_bw
                                        }
                                    },
                                    None => true,
                                }
                            },
                            None => best_uri.is_none(),
                        },
                        None => best_uri.is_none() || bw >= best_bw,
                    };
                    assert(is_better == replaces(c, v, q));
                    if is_better {
                        best_bw = bw;
                        match (quality, height) {
                            (Some(qq), Some(h)) => {
                                best_height_diff = Some(abs_diff_u16(h, qq));
                            },
                            _ => {},
                        }
                        best_uri = Some(copy_chars(&t));
                    }
                    proof {
                        assert(vs.push(v).drop_last() =~= vs);
                        vs = vs.push(v);
                    }
                },
                None => {},
            }
        }
        i = i + 1;
    }
    assert(lsv.take(ls.len() as int) =~= lsv);
    match best_uri {
        Some(u) => Some(crate::text::string_from_chars(&u)),
        None => None,
    }
}

pub open spec fn opt_u64_view(o: Option<u64>) -> Option<int> {
    match o {
        Some(v) => Some(v as int),
        None => None,
    }
}

pub open spec fn opt_chars_view(o: Option<Vec<char>>) -> Option<Seq<char>> {
    match o {
        Some(v) => Some(v@),
        None => None,
    }
}


// ------------------------------------------------------------------ laws of the choice

proof fn lemma_choice_some(vs: Seq<Variant>, q: Option<int>)
    ensures
        (choose_variant(vs, q).2 is Some) == (vs.len() > 0),
        vs.len() == 0 ==> choose_variant(vs, q).1 is None,
    decreases vs.len(),
{
    if vs.len() > 0 {
        lemma_choice_some(vs.drop_last(), q);
    }
}

proof fn lemma_choice_declared(vs: Seq<Variant>, q: Option<int>)
    ensures
        choose_variant(vs, q).2 matches Some(u) ==> exists|i: int|
            0 <= i < vs.len() && (#[trigger] vs[i]).2 == u,
    decreases vs.len(),
{
    if vs.len() > 0 {
        let pre = vs.drop_last();
        lemma_choice_declared(pre, q);
        let c = choose_variant(vs, q);
        if c.2 is Some {
            if replaces(choose_variant(pre, q), vs.last(), q) {
                assert(vs[vs.len() - 1].2 == c.2->0);
            } else {
                let i = choose|i: int| 0 <= i < pre.len() && (#[trigger] pre[i]).2 == c.2->0;
                assert(vs[i] == pre[i]);
            }
        }
    }
}

proof fn lemma_choice_max_bandwidth(vs: Seq<Variant>)
    requires
        vs.len() > 0,
    ensures
        forall|i: int| 0 <= i < vs.len() ==> (#[trigger] vs[i]).0 <= choose_variant(vs, None).0,
        exists|i: int|
            0 <= i < vs.len() && Some((#[trigger] vs[i]).2) == choose_variant(vs, None).2 && vs[i].0
                == choose_variant(vs, None).0 && forall|j: int|
                i < j < vs.len() ==> (#[trigger] vs[j]).0 < choose_variant(vs, None).0,
    decreases vs.len(),
{
    let pre = vs.drop_last();
    let v = vs.last();
    let c = choose_variant(vs, None);
    if pre.len() == 0 {
        lemma_choice_some(pre, None);
        assert(c == (v.0, choose_variant(pre, None).1, Some(v.2)));
        assert(vs[0] == v);
    } else {
        lemma_choice_max_bandwidth(pre);
        lemma_choice_some(pre, None);
        let cp = choose_variant(pre, None);
        if v.0 >= cp.0 {
            assert(c.0 == v.0 && c.2 == Some(v.2));
            assert forall|i: int| 0 <= i < vs.len() implies (#[trigger] vs[i]).0 <= c.0 by {
                if i < pre.len() {
                    assert(vs[i] == pre[i]);
                }
            }
            assert(vs[vs.len() - 1] == v);
        } else {
            assert(c == cp);
            let i = choose|i: int|
                0 <= i < pre.len() && Some((#[trigger] pre[i]).2) == cp.2 && pre[i].0 == cp.0
                    && forall|j: int| i < j < pre.len() ==> (#[trigger] pre[j]).0 < cp.0;
            assert(vs[i] == pre[i]);
            assert forall|j: int| i < j < vs.len() implies (#[trigger] vs[j]).0 < c.0 by {
                if j < pre.len() {
                    assert(vs[j] == pre[j]);
                }
            }
            assert forall|k: int| 0 <= k < vs.len() implies (#[trigger] vs[k]).0 <= c.0 by {
                if k < pre.len() {
                    assert(vs[k] == pre[k]);
                }
            }
        }
    }
}

proof fn lemma_choice_closest(vs: Seq<Variant>, q: int)
    ensures
        forall|i: int|
            0 <= i < vs.len() && (#[trigger] vs[i]).1 is Some ==> choose_variant(vs, Some(q)).1
                is Some && choose_variant(vs, Some(q)).1->0 <= abs_diff(vs[i].1->0, q),
        choose_variant(vs, Some(q)).1 matches Some(d) ==> exists|i: int|
            0 <= i < vs.len() && (#[trigger] vs[i]).1 is Some && abs_diff(vs[i].1->0, q) == d
                && choose_variant(vs, Some(q)).2 == Some(vs[i].2),
    decreases vs.len(),
{
    if vs.len() > 0 {
        let pre = vs.drop_last();
        let v = vs.last();
        lemma_choice_closest(pre, q);
        lemma_choice_some(pre, Some(q));
        let cp = choose_variant(pre, Some(q));
        let c = choose_variant(vs, Some(q));
        assert(vs[vs.len() - 1] == v);
        assert forall|i: int|
            0 <= i < vs.len() && (#[trigger] vs[i]).1 is Some implies c.1 is Some && c.1->0
                <= abs_diff(vs[i].1->0, q) by {
            if i < pre.len() {
                assert(vs[i] == pre[i]);
            }
        }
        if c.1 is Some {
            if replaces(cp, v, Some(q)) && v.1 is Some {
                assert(c.2 == Some(v.2));
            } else {
                assert(c.1 == cp.1);
                assert(c.2 == cp.2) by {
                    if replaces(cp, v, Some(q)) {
                        assert(v.1 is None && cp.2 is None);
                        assert(pre.len() == 0);
                    }
                };
                let i = choose|i: int|
                    0 <= i < pre.len() && (#[trigger] pre[i]).1 is Some && abs_diff(pre[i].1->0, q)
                        == cp.1->0 && cp.2 == Some(pre[i].2);
                assert(vs[i] == pre[i]);
            }
        }
    }
}

/// A variant is picked exactly when the master playlist declares one.
pub proof fn lemma_pick_some_iff_declared(master: Seq<char>, quality: Option<int>)
    ensures
        (picked_variant(master, quality) is Some) == (master_variants(master).len() > 0),
{
    lemma_choice_some(master_variants(master), quality);
}

/// The picked URI is the URI line of a declared variant.
pub proof fn lemma_pick_is_declared(master: Seq<char>, quality: Option<int>)
    ensures
        picked_variant(master, quality) matches Some(u) ==> exists|i: int|
            0 <= i < master_variants(master).len() && (#[trigger] master_variants(master)[i]).2 == u,
{
    lemma_choice_declared(master_variants(master), quality);
}

/// Without a wanted height, the picked variant has the highest bandwidth of
/// all declared variants, and no later variant has as high a bandwidth.
pub proof fn lemma_pick_highest_bandwidth(master: Seq<char>)
    requires
        master_variants(master).len() > 0,
    ensures
        exists|i: int|
            #![trigger master_variants(master)[i]]
            0 <= i < master_variants(master).len()
                && picked_variant(master, None) == Some(master_variants(master)[i].2)
                && (forall|j: int|
                0 <= j < master_variants(master).len() ==> (#[trigger] master_variants(master)[j]).0
                    <= master_variants(master)[i].0) && (forall|j: int|
                i < j < master_variants(master).len() ==> (#[trigger] master_variants(master)[j]).0
                    < master_variants(master)[i].0),
{
    let vs = master_variants(master);
    lemma_choice_max_bandwidth(vs);
    let c = choose_variant(vs, None);
    let i = choose|i: int|
        0 <= i < vs.len() && Some((#[trigger] vs[i]).2) == c.2 && vs[i].0 == c.0 && forall|j: int|
            i < j < vs.len() ==> (#[trigger] vs[j]).0 < c.0;
    assert(vs[i].0 == c.0);
}

/// With a wanted height, when some variant declares a resolution, the
/// picked variant declares one too, and none is closer to the wanted height.
pub proof fn lemma_pick_closest_height(master: Seq<char>, quality: int)
    requires
        exists|i: int|
            0 <= i < master_variants(master).len() && (#[trigger] master_variants(master)[i]).1
                is Some,
    ensures
        exists|i: int|
            #![trigger master_variants(master)[i]]
            0 <= i < master_variants(master).len() && master_variants(master)[i].1 is Some
                && picked_variant(master, Some(quality)) == Some(master_variants(master)[i].2)
                && forall|j: int|
                0 <= j < master_variants(master).len() && (#[trigger] master_variants(
                    master,
                )[j]).1 is Some ==> abs_diff(master_variants(master)[i].1->0, quality) <= abs_diff(
                    master_variants(master)[j].1->0,
                    quality,
                ),
{
    let vs = master_variants(master);
    lemma_choice_closest(vs, quality);
    let c = choose_variant(vs, Some(quality));
    let k = choose|k: int| 0 <= k < vs.len() && (#[trigger] vs[k]).1 is Some;
    assert(c.1 is Some);
    let i = choose|i: int|
        0 <= i < vs.len() && (#[trigger] vs[i]).1 is Some && abs_diff(vs[i].1->0, quality) == c.1->0
            && c.2 == Some(vs[i].2);
    assert(vs[i].1 is Some);
}

/// Variant `i` declares a height, and among the variants at its distance
/// from `q` it has the highest bandwidth, strictly above every earlier one.
spec fn tie_best(vs: Seq<Variant>, q: int, i: int) -> bool {
    &&& 0 <= i < vs.len()
    &&& vs[i].1 is Some
    &&& forall|j: int|
        0 <= j < vs.len() && (#[trigger] vs[j]).1 is Some && abs_diff(vs[j].1->0, q) == abs_diff(
            vs[i].1->0,
            q,
        ) ==> vs[j].0 <= vs[i].0
    &&& forall|j: int|
        0 <= j < i && (#[trigger] vs[j]).1 is Some && abs_diff(vs[j].1->0, q) == abs_diff(
            vs[i].1->0,
            q,
        ) ==> vs[j].0 < vs[i].0
}

proof fn lemma_choice_tie(vs: Seq<Variant>, q: int)
    ensures
        choose_variant(vs, Some(q)).1 matches Some(d) ==> exists|i: int|
            #[trigger] tie_best(vs, q, i) && abs_diff(vs[i].1->0, q) == d && choose_variant(
                vs,
                Some(q),
            ).2 == Some(vs[i].2) && vs[i].0 == choose_variant(vs, Some(q)).0,
    decreases vs.len(),
{
    if vs.len() > 0 {
        let pre = vs.drop_last();
        let v = vs.last();
        let n = vs.len() - 1;
        lemma_choice_tie(pre, q);
        lemma_choice_closest(pre, q);
        lemma_choice_some(pre, Some(q));
        let cp = choose_variant(pre, Some(q));
        let c = choose_variant(vs, Some(q));
        assert(vs[n] == v);
        if replaces(cp, v, Some(q)) && v.1 is Some {
            let dv = abs_diff(v.1->0, q);
            assert(c == (v.0, Some(dv), Some(v.2)));
            assert forall|j: int|
                0 <= j < vs.len() && (#[trigger] vs[j]).1 is Some && abs_diff(vs[j].1->0, q) == dv
                    implies vs[j].0 <= v.0 && (j < n ==> vs[j].0 < v.0) by {
                if j < n {
                    assert(vs[j] == pre[j]);
                    assert(cp.1 is Some && cp.1->0 <= abs_diff(pre[j].1->0, q));
                    let bd = cp.1->0;
                    assert(dv == bd && v.0 > cp.0);
                    let i0 = choose|i: int|
                        #[trigger] tie_best(pre, q, i) && abs_diff(pre[i].1->0, q) == bd && cp.2
                            == Some(pre[i].2) && pre[i].0 == cp.0;
                    assert(tie_best(pre, q, i0));
                    assert(pre[j].0 <= pre[i0].0);
                }
            }
            assert(tie_best(vs, q, n));
        } else {
            assert(c.1 == cp.1);
            if c.1 is Some {
                assert(c == cp) by {
                    if replaces(cp, v, Some(q)) {
                        assert(v.1 is None && cp.2 is None);
                        assert(pre.len() == 0);
                    }
                };
                let d = cp.1->0;
                let i0 = choose|i: int|
                    #[trigger] tie_best(pre, q, i) && abs_diff(pre[i].1->0, q) == d && cp.2 == Some(
                        pre[i].2,
                    ) && pre[i].0 == cp.0;
                assert(tie_best(pre, q, i0));
                assert(vs[i0] == pre[i0]);
                assert forall|j: int|
                    0 <= j < vs.len() && (#[trigger] vs[j]).1 is Some && abs_diff(vs[j].1->0, q)
                        == abs_diff(vs[i0].1->0, q) implies vs[j].0 <= vs[i0].0 by {
                    if j < n {
                        assert(vs[j] == pre[j]);
                    }
                }
                assert forall|j: int|
                    0 <= j < i0 && (#[trigger] vs[j]).1 is Some && abs_diff(vs[j].1->0, q)
                        == abs_diff(vs[i0].1->0, q) implies vs[j].0 < vs[i0].0 by {
                    assert(vs[j] == pre[j]);
                }
                assert(tie_best(vs, q, i0));
            }
        }
    }
}

/// With a wanted height, when some variant declares a resolution, the
/// picked variant is one at the least height distance, and among the
/// variants at that distance it has the highest bandwidth: none at the same
/// distance has a higher one, and every earlier one has a lower one.
pub proof fn lemma_pick_closest_then_highest_bandwidth(master: Seq<char>, quality: int)
    requires
        exists|i: int|
            0 <= i < master_variants(master).len() && (#[trigger] master_variants(master)[i]).1
                is Some,
    ensures
        exists|i: int|
            #![trigger master_variants(master)[i]]
            0 <= i < master_variants(master).len() && master_variants(master)[i].1 is Some
                && picked_variant(master, Some(quality)) == Some(master_variants(master)[i].2)
                && (forall|j: int|
                0 <= j < master_variants(master).len() && (#[trigger] master_variants(
                    master,
                )[j]).1 is Some ==> abs_diff(master_variants(master)[i].1->0, quality) <= abs_diff(
                    master_variants(master)[j].1->0,
                    quality,
                )) && (forall|j: int|
                0 <= j < master_variants(master).len() && (#[trigger] master_variants(
                    master,
                )[j]).1 is Some && abs_diff(master_variants(master)[j].1->0, quality) == abs_diff(
                    master_variants(master)[i].1->0,
                    quality,
                ) ==> master_variants(master)[j].0 <= master_variants(master)[i].0) && (forall|j: int|
                0 <= j < i && (#[trigger] master_variants(master)[j]).1 is Some && abs_diff(
                    master_variants(master)[j].1->0,
                    quality,
                ) == abs_diff(master_variants(master)[i].1->0, quality) ==> master_variants(
                    master,
                )[j].0 < master_variants(master)[i].0),
{
    let vs = master_variants(master);
    lemma_choice_closest(vs, quality);
    lemma_choice_tie(vs, quality);
    let c = choose_variant(vs, Some(quality));
    let k = choose|k: int| 0 <= k < vs.len() && (#[trigger] vs[k]).1 is Some;
    assert(c.1 is Some);
    let i = choose|i: int|
        #[trigger] tie_best(vs, quality, i) && abs_diff(vs[i].1->0, quality) == c.1->0 && c.2 == Some(
            vs[i].2,
        ) && vs[i].0 == c.0;
    assert(tie_best(vs, quality, i));
    assert forall|j: int|
        0 <= j < vs.len() && (#[trigger] vs[j]).1 is Some implies abs_diff(vs[i].1->0, quality)
            <= abs_diff(vs[j].1->0, quality) by {}
}

proof fn lemma_choice_no_heights(vs: Seq<Variant>, q: int)
    requires
        vs.len() > 0,
        forall|i: int| 0 <= i < vs.len() ==> (#[trigger] vs[i]).1 is None,
    ensures
        choose_variant(vs, Some(q)).2 == Some(vs[0].2),
        choose_variant(vs, Some(q)).1 is None,
    decreases vs.len(),
{
    let pre = vs.drop_last();
    assert(vs[vs.len() - 1] == vs.last());
    if pre.len() == 0 {
        lemma_choice_some(pre, Some(q));
        assert(vs[0] == vs.last());
    } else {
        assert forall|i: int| 0 <= i < pre.len() implies (#[trigger] pre[i]).1 is None by {
            assert(pre[i] == vs[i]);
        }
        lemma_choice_no_heights(pre, q);
        assert(pre[0] == vs[0]);
    }
}

/// With a wanted height but no variant declaring a resolution, the first
/// declared variant is picked.
pub proof fn lemma_pick_first_without_heights(master: Seq<char>, quality: int)
    requires
        master_variants(master).len() > 0,
        forall|i: int|
            0 <= i < master_variants(master).len() ==> (#[trigger] master_variants(master)[i]).1
                is None,
    ensures
        picked_variant(master, Some(quality)) == Some(master_variants(master)[0].2),
{
    lemma_choice_no_heights(master_variants(master), quality);
}

} // verus!
