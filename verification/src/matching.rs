//! Pattern matching of compiled rules against URLs.
//!
//! A pattern is a sequence of literal segments separated by `*`
//! wildcards, optionally anchored to the start of the URL, to the end
//! of the URL, or to a hostname boundary (`||`). A `^` token matches
//! any separator byte, or the end of the URL when it is the last token
//! of the pattern.

use vstd::prelude::*;
use crate::bytes::is_separator;
use crate::rules::{PatTok, Pattern, PatternG, seg_views};

verus! {

/// Whether one pattern token matches one URL byte.
pub open spec fn tok_fits(t: PatTok, c: u8) -> bool {
    match t {
        PatTok::Byte(b) => c == b,
        PatTok::Sep => is_separator(c),
    }
}

/// The tokens of one segment match the URL at exactly position `p`.
/// A final `Sep` token may also match the end of the URL.
pub open spec fn toks_match_at(toks: Seq<PatTok>, url: Seq<u8>, p: int) -> bool
    decreases toks.len(),
{
    if toks.len() == 0 {
        true
    } else if 0 <= p < url.len() && tok_fits(toks[0], url[p]) {
        toks_match_at(toks.skip(1), url, p + 1)
    } else {
        toks.len() == 1 && toks[0] is Sep && p == url.len()
    }
}

/// A segment match never extends more than one position past the end
/// of the URL (one past only for a final `Sep` matching the end).
pub proof fn lemma_toks_match_bound(toks: Seq<PatTok>, url: Seq<u8>, p: int)
    requires
        toks_match_at(toks, url, p),
        p >= 0,
    ensures
        toks.len() > 0 ==> p + toks.len() <= url.len() + 1,
    decreases toks.len(),
{
    if toks.len() == 0 {
    } else if 0 <= p < url.len() && tok_fits(toks[0], url[p]) {
        assert(toks_match_at(toks.skip(1), url, p + 1));
        lemma_toks_match_bound(toks.skip(1), url, p + 1);
        assert(toks.skip(1).len() == toks.len() - 1);
    } else {
        assert(toks.len() == 1 && p == url.len());
    }
}

/// The segments from `segs` match the URL in order, starting no
/// earlier than position `i`. With `fixed`, the first segment must
/// start exactly at `i`; with `anchor_end`, the last segment must
/// reach the end of the URL.
pub open spec fn segs_match_from(
    segs: Seq<Seq<PatTok>>,
    url: Seq<u8>,
    i: int,
    fixed: bool,
    anchor_end: bool,
) -> bool
    decreases segs.len(),
{
    if segs.len() == 0 {
        !anchor_end || i >= url.len()
    } else {
        exists|p: int|
            #![trigger toks_match_at(segs[0], url, p)]
            i <= p <= url.len() && (!fixed || p == i) && toks_match_at(segs[0], url, p)
                && segs_match_from(segs.skip(1), url, p + segs[0].len(), false, anchor_end)
    }
}

/// An unanchored segment match that holds from position `j` also
/// holds from any earlier position.
pub proof fn lemma_segs_match_monotone(
    segs: Seq<Seq<PatTok>>,
    url: Seq<u8>,
    i: int,
    j: int,
    anchor_end: bool,
)
    requires
        i <= j,
        segs.len() > 0 || !anchor_end,
        segs_match_from(segs, url, j, false, anchor_end),
    ensures
        segs_match_from(segs, url, i, false, anchor_end),
{
    if segs.len() == 0 {
    } else {
        let p = choose|p: int|
            #![trigger toks_match_at(segs[0], url, p)]
            j <= p <= url.len() && toks_match_at(segs[0], url, p) && segs_match_from(
                segs.skip(1),
                url,
                p + segs[0].len(),
                false,
                anchor_end,
            );
        assert(i <= p <= url.len() && toks_match_at(segs[0], url, p) && segs_match_from(
            segs.skip(1),
            url,
            p + segs[0].len(),
            false,
            anchor_end,
        ));
    }
}

/// Executable token matcher for the tokens `toks[from..]` at URL
/// position `p`.
pub fn toks_match_at_x(toks: &Vec<PatTok>, from: usize, url: &Vec<u8>, p: usize) -> (r: bool)
    requires
        from <= toks@.len(),
        p <= url@.len(),
    ensures
        r == toks_match_at(toks@.skip(from as int), url@, p as int),
{
    let mut j: usize = from;
    let mut pos: usize = p;
    while j < toks.len()
        invariant
            from <= j <= toks@.len(),
            p <= pos <= url@.len(),
            toks_match_at(toks@.skip(from as int), url@, p as int) == toks_match_at(
                toks@.skip(j as int),
                url@,
                pos as int,
            ),
        decreases toks@.len() - j,
    {
        let t = toks[j];
        proof {
            assert(toks@.skip(j as int)[0] == toks@[j as int]);
            assert(toks@.skip(j as int).skip(1) =~= toks@.skip(j + 1 as int));
        }
        let fits = if pos < url.len() {
            match t {
                PatTok::Byte(b) => url[pos] == b,
                PatTok::Sep => is_separator(url[pos]),
            }
        } else {
            false
        };
        if fits {
            j = j + 1;
            pos = pos + 1;
        } else {
            let r = j + 1 == toks.len() && matches!(t, PatTok::Sep) && pos == url.len();
            proof {
                assert(toks@.skip(j as int).len() == toks@.len() - j);
            }
            return r;
        }
    }
    proof {
        assert(toks@.skip(toks@.len() as int).len() == 0);
    }
    true
}

/// Earliest position in `[from, url.len()]` where the segment matches.
pub fn find_seg_match(seg: &Vec<PatTok>, url: &Vec<u8>, from: usize) -> (r: Option<usize>)
    requires
        from <= url@.len(),
    ensures
        match r {
            Option::Some(p) => from <= p <= url@.len() && toks_match_at(seg@, url@, p as int)
                && forall|q: int|
                from <= q < p ==> !toks_match_at(seg@, url@, q),
            Option::None => forall|q: int|
                from <= q <= url@.len() ==> !toks_match_at(seg@, url@, q),
        },
{
    let mut p: usize = from;
    while p < url.len()
        invariant
            from <= p <= url@.len(),
            forall|q: int| from <= q < p ==> !toks_match_at(seg@, url@, q),
        decreases url@.len() - p,
    {
        if toks_match_at_x(seg, 0, url, p) {
            proof {
                assert(seg@.skip(0) =~= seg@);
            }
            return Option::Some(p);
        }
        proof {
            assert(seg@.skip(0) =~= seg@);
        }
        p = p + 1;
    }
    if toks_match_at_x(seg, 0, url, p) {
        proof {
            assert(seg@.skip(0) =~= seg@);
        }
        Option::Some(p)
    } else {
        proof {
            assert(seg@.skip(0) =~= seg@);
        }
        Option::None
    }
}

/// Executable matcher for the segments `segs[si..]` of a pattern.
pub fn match_segs_from(
    segs: &Vec<Vec<PatTok>>,
    si: usize,
    url: &Vec<u8>,
    i: usize,
    fixed: bool,
    anchor_end: bool,
) -> (r: bool)
    requires
        si <= segs@.len(),
        i <= url@.len(),
    ensures
        r == segs_match_from(seg_views(segs@).skip(si as int), url@, i as int, fixed, anchor_end),
    decreases segs@.len() - si,
{
    let ghost gsegs = seg_views(segs@).skip(si as int);
    proof {
        assert(gsegs.len() == segs@.len() - si);
    }
    if si == segs.len() {
        if anchor_end {
            return i >= url.len();
        } else {
            return true;
        }
    }
    let seg = &segs[si];
    let seglen = seg.len();
    proof {
        assert(gsegs[0] == segs@[si as int]@);
        assert(gsegs.skip(1) =~= seg_views(segs@).skip(si + 1 as int));
    }
    if anchor_end && si + 1 == segs.len() {
        // The last segment must reach the end of the URL: either it
        // fits exactly against the end, or its final `Sep` matches the
        // end of the URL.
        proof {
            assert(gsegs.skip(1).len() == 0);
        }
        if fixed {
            // The only admissible position is i.
            let m = toks_match_at_x(seg, 0, url, i);
            let reaches = seglen >= url.len() - i;
            proof {
                assert(seg@.skip(0) =~= seg@);
                if m && reaches {
                    assert(segs_match_from(gsegs.skip(1), url@, i + seglen, false, anchor_end));
                    assert(toks_match_at(gsegs[0], url@, i as int));
                } else {
                    if segs_match_from(gsegs, url@, i as int, fixed, anchor_end) {
                        let p = choose|p: int|
                            #![trigger toks_match_at(gsegs[0], url@, p)]
                            i as int <= p <= url@.len() && (!fixed || p == i as int)
                                && toks_match_at(gsegs[0], url@, p) && segs_match_from(
                                gsegs.skip(1),
                                url@,
                                p + gsegs[0].len(),
                                false,
                                anchor_end,
                            );
                        assert(p == i as int);
                        assert(false);
                    }
                }
            }
            return m && reaches;
        }
        let mut ok = false;
        let ghost mut wit: int = 0;
        if seglen <= url.len() {
            let p1 = url.len() - seglen;
            if p1 >= i && toks_match_at_x(seg, 0, url, p1) {
                ok = true;
                proof {
                    wit = p1 as int;
                }
            }
        }
        if !ok && seglen >= 1 && seglen - 1 <= url.len() && url.len() - (seglen - 1) >= i {
            let p2 = url.len() - (seglen - 1);
            if toks_match_at_x(seg, 0, url, p2) {
                ok = true;
                proof {
                    wit = p2 as int;
                }
            }
        }
        proof {
            assert(seg@.skip(0) =~= seg@);
            if ok {
                assert(i as int <= wit <= url@.len());
                assert(toks_match_at(gsegs[0], url@, wit));
                assert(wit + seglen >= url@.len());
                assert(segs_match_from(gsegs.skip(1), url@, wit + gsegs[0].len(), false,
                    anchor_end));
            } else {
                if segs_match_from(gsegs, url@, i as int, fixed, anchor_end) {
                    let p = choose|p: int|
                        #![trigger toks_match_at(gsegs[0], url@, p)]
                        i as int <= p <= url@.len() && (!fixed || p == i as int) && toks_match_at(
                            gsegs[0],
                            url@,
                            p,
                        ) && segs_match_from(
                            gsegs.skip(1),
                            url@,
                            p + gsegs[0].len(),
                            false,
                            anchor_end,
                        );
                    lemma_toks_match_bound(gsegs[0], url@, p);
                    // anchor_end forces the segment to reach the end.
                    assert(p + seglen >= url@.len());
                    assert(p + seglen <= url@.len() + 1);
                    assert(false);
                }
            }
        }
        return ok;
    }
    // General case: find the earliest match of this segment and
    // recurse; monotonicity makes the greedy choice complete.
    let found: Option<usize> = if fixed {
        if toks_match_at_x(seg, 0, url, i) {
            proof {
                assert(seg@.skip(0) =~= seg@);
            }
            Option::Some(i)
        } else {
            proof {
                assert(seg@.skip(0) =~= seg@);
            }
            Option::None
        }
    } else {
        find_seg_match(seg, url, i)
    };
    match found {
        Option::None => {
            proof {
                if segs_match_from(gsegs, url@, i as int, fixed, anchor_end) {
                    let p = choose|p: int|
                        #![trigger toks_match_at(gsegs[0], url@, p)]
                        i as int <= p <= url@.len() && (!fixed || p == i as int) && toks_match_at(
                            gsegs[0],
                            url@,
                            p,
                        ) && segs_match_from(
                            gsegs.skip(1),
                            url@,
                            p + gsegs[0].len(),
                            false,
                            anchor_end,
                        );
                    assert(false);
                }
            }
            false
        },
        Option::Some(p0) => {
            proof {
                lemma_toks_match_bound(seg@, url@, p0 as int);
            }
            if seglen > url.len() - p0 {
                // The segment consumed the end of the URL; nothing can
                // follow it.
                let r = si + 1 == segs.len();
                proof {
                    if r {
                        assert(gsegs.skip(1).len() == 0);
                        assert(!anchor_end);
                        assert(segs_match_from(gsegs.skip(1), url@, p0 + seglen, false,
                            anchor_end));
                        assert(toks_match_at(gsegs[0], url@, p0 as int));
                    } else {
                        if segs_match_from(gsegs, url@, i as int, fixed, anchor_end) {
                            let p = choose|p: int|
                                #![trigger toks_match_at(gsegs[0], url@, p)]
                                i as int <= p <= url@.len() && (!fixed || p == i as int)
                                    && toks_match_at(gsegs[0], url@, p) && segs_match_from(
                                    gsegs.skip(1),
                                    url@,
                                    p + gsegs[0].len(),
                                    false,
                                    anchor_end,
                                );
                            lemma_toks_match_bound(gsegs[0], url@, p);
                            if !fixed {
                                assert(p >= p0);
                            }
                            assert(p + seglen == url@.len() + 1);
                            assert(gsegs.skip(1).len() > 0);
                            assert(!segs_match_from(gsegs.skip(1), url@, p + seglen, false,
                                anchor_end));
                            assert(false);
                        }
                    }
                }
                r
            } else {
                let np = p0 + seglen;
                let r = match_segs_from(segs, si + 1, url, np, false, anchor_end);
                proof {
                    if r {
                        assert(toks_match_at(gsegs[0], url@, p0 as int));
                        assert(segs_match_from(gsegs.skip(1), url@, p0 + seglen, false,
                            anchor_end));
                    } else {
                        if segs_match_from(gsegs, url@, i as int, fixed, anchor_end) {
                            let p = choose|p: int|
                                #![trigger toks_match_at(gsegs[0], url@, p)]
                                i as int <= p <= url@.len() && (!fixed || p == i as int)
                                    && toks_match_at(gsegs[0], url@, p) && segs_match_from(
                                    gsegs.skip(1),
                                    url@,
                                    p + gsegs[0].len(),
                                    false,
                                    anchor_end,
                                );
                            lemma_toks_match_bound(gsegs[0], url@, p);
                            if !fixed {
                                assert(p >= p0);
                            } else {
                                assert(p == p0);
                            }
                            if gsegs.skip(1).len() == 0 {
                                assert(!anchor_end);
                                assert(segs_match_from(gsegs.skip(1), url@, p0 + seglen, false,
                                    anchor_end));
                                assert(false);
                            } else {
                                if p + seglen <= url@.len() {
                                    lemma_segs_match_monotone(gsegs.skip(1), url@, p0 + seglen,
                                        p + seglen, anchor_end);
                                    assert(false);
                                } else {
                                    assert(p + seglen == url@.len() + 1);
                                    assert(!segs_match_from(gsegs.skip(1), url@, p + seglen,
                                        false, anchor_end));
                                    assert(false);
                                }
                            }
                        }
                    }
                }
                r
            }
        },
    }
}

/// Position just past the first `://` in the URL, if any.
pub open spec fn find_scheme_end(url: Seq<u8>, i: int) -> Option<int>
    decreases url.len() - i,
    when 0 <= i <= url.len()
{
    if i + 3 > url.len() {
        Option::None
    } else if url[i] == 58 && url[i + 1] == 47 && url[i + 2] == 47 {
        Option::Some(i + 3)
    } else {
        find_scheme_end(url, i + 1)
    }
}

pub proof fn lemma_scheme_end_bounds(url: Seq<u8>, i: int, se: int)
    requires
        0 <= i <= url.len(),
        find_scheme_end(url, i) == Option::Some(se),
    ensures
        i + 3 <= se <= url.len(),
    decreases url.len() - i,
{
    if i + 3 > url.len() {
    } else if url[i] == 58 && url[i + 1] == 47 && url[i + 2] == 47 {
    } else {
        lemma_scheme_end_bounds(url, i + 1, se);
    }
}

/// First position at or after `i` that ends the host part of the URL:
/// a `/`, `:`, `?` or `#`, or the end of the URL.
pub open spec fn host_end_from(url: Seq<u8>, i: int) -> int
    decreases url.len() - i,
    when 0 <= i <= url.len()
{
    if i >= url.len() {
        i
    } else if url[i] == 47 || url[i] == 58 || url[i] == 63 || url[i] == 35 {
        i
    } else {
        host_end_from(url, i + 1)
    }
}

pub proof fn lemma_host_end_bounds(url: Seq<u8>, i: int)
    requires
        0 <= i <= url.len(),
    ensures
        i <= host_end_from(url, i) <= url.len(),
    decreases url.len() - i,
{
    if i >= url.len() {
    } else if url[i] == 47 || url[i] == 58 || url[i] == 63 || url[i] == 35 {
    } else {
        lemma_host_end_bounds(url, i + 1);
    }
}

/// A hostname-anchor position: right after the scheme, or right after
/// a dot inside the host part.
pub open spec fn is_host_boundary(url: Seq<u8>, p: int) -> bool {
    match find_scheme_end(url, 0) {
        Option::None => false,
        Option::Some(se) => p == se || (se < p <= host_end_from(url, se) && url[p - 1] == 46),
    }
}

/// The pattern matches the URL.
pub open spec fn pattern_matches_g(pat: PatternG, url: Seq<u8>) -> bool {
    if pat.host_anchor {
        exists|p: int|
            #![trigger is_host_boundary(url, p)]
            is_host_boundary(url, p) && segs_match_from(pat.segments, url, p, true, pat.anchor_end)
    } else {
        segs_match_from(pat.segments, url, 0, pat.anchor_start, pat.anchor_end)
    }
}

/// Executable scan for the end of the URL scheme.
pub fn scheme_end_x(url: &Vec<u8>) -> (r: Option<usize>)
    ensures
        match r {
            Option::Some(se) => find_scheme_end(url@, 0) == Option::Some(se as int),
            Option::None => find_scheme_end(url@, 0) is None,
        },
{
    let mut i: usize = 0;
    while i < url.len() && url.len() - i >= 3
        invariant
            0 <= i <= url@.len(),
            find_scheme_end(url@, 0) == find_scheme_end(url@, i as int),
        decreases url@.len() - i,
    {
        if url[i] == 58 && url[i + 1] == 47 && url[i + 2] == 47 {
            return Option::Some(i + 3);
        }
        i = i + 1;
    }
    Option::None
}

/// Executable scan for the end of the host part.
pub fn host_end_x(url: &Vec<u8>, from: usize) -> (r: usize)
    requires
        from <= url@.len(),
    ensures
        r as int == host_end_from(url@, from as int),
        from <= r <= url@.len(),
{
    let mut i: usize = from;
    while i < url.len()
        invariant
            from <= i <= url@.len(),
            host_end_from(url@, from as int) == host_end_from(url@, i as int),
        decreases url@.len() - i,
    {
        let c = url[i];
        if c == 47 || c == 58 || c == 63 || c == 35 {
            return i;
        }
        i = i + 1;
    }
    i
}

/// Executable pattern matcher.
#[verifier::loop_isolation(false)]
pub fn pattern_matches(pat: &Pattern, url: &Vec<u8>) -> (r: bool)
    ensures
        r == pattern_matches_g(pat@, url@),
{
    proof {
        assert(seg_views(pat.segments@).skip(0) =~= seg_views(pat.segments@));
    }
    if !pat.host_anchor {
        return match_segs_from(&pat.segments, 0, url, 0, pat.anchor_start, pat.anchor_end);
    }
    let se_opt = scheme_end_x(url);
    match se_opt {
        Option::None => {
            proof {
                if pattern_matches_g(pat@, url@) {
                    let p = choose|p: int|
                        #![trigger is_host_boundary(url@, p)]
                        is_host_boundary(url@, p) && segs_match_from(pat@.segments, url@, p, true,
                            pat@.anchor_end);
                    assert(false);
                }
            }
            false
        },
        Option::Some(se) => {
            proof {
                lemma_scheme_end_bounds(url@, 0, se as int);
            }
            let he = host_end_x(url, se);
            let mut off: usize = 0;
            while off <= he - se
                invariant
                    3 <= se <= he <= url@.len(),
                    off <= he - se + 1,
                    he as int == host_end_from(url@, se as int),
                    find_scheme_end(url@, 0) == Option::Some(se as int),
                    forall|q: int|
                        se <= q < se + off && is_host_boundary(url@, q) ==> !segs_match_from(
                            pat@.segments, url@, q, true, pat@.anchor_end),
                decreases he - se + 1 - off,
            {
                let p = se + off;
                let boundary = p == se || url[p - 1] == 46;
                if boundary {
                    if match_segs_from(&pat.segments, 0, url, p, true, pat.anchor_end) {
                        proof {
                            assert(is_host_boundary(url@, p as int));
                            assert(segs_match_from(pat@.segments, url@, p as int, true,
                                pat@.anchor_end));
                        }
                        return true;
                    }
                }
                proof {
                    if !boundary {
                        assert(!is_host_boundary(url@, p as int));
                    }
                }
                off = off + 1;
            }
            proof {
                if pattern_matches_g(pat@, url@) {
                    let q = choose|q: int|
                        #![trigger is_host_boundary(url@, q)]
                        is_host_boundary(url@, q) && segs_match_from(pat@.segments, url@, q, true,
                            pat@.anchor_end);
                    assert(se <= q <= he);
                    assert(q < se + off);
                    assert(false);
                }
            }
            false
        },
    }
}

/// The bucket key of four consecutive URL bytes.
#[verifier::allow_in_spec]
pub fn pack4(a: u8, b: u8, c: u8, d: u8) -> u64
    returns (((a as u64) * 0x1000000 + (b as u64) * 0x10000 + (c as u64) * 0x100 + (d as u64)) as u64),
{
    (a as u64) * 0x1000000 + (b as u64) * 0x10000 + (c as u64) * 0x100 + (d as u64)
}

/// The four-byte window of the URL at position `q`, as a bucket key.
pub open spec fn url_window(url: Seq<u8>, q: int) -> u64
    recommends
        0 <= q,
        q + 4 <= url.len(),
{
    pack4(url[q], url[q + 1], url[q + 2], url[q + 3])
}

/// The literal byte of a token (0 for the separator placeholder).
pub open spec fn tok_byte(t: PatTok) -> u8 {
    match t {
        PatTok::Byte(b) => b,
        PatTok::Sep => 0,
    }
}

/// First run of four literal bytes in one segment, from position `j`.
pub open spec fn find_seg_key(seg: Seq<PatTok>, j: int) -> Option<u64>
    decreases seg.len() - j,
    when 0 <= j <= seg.len()
{
    if j + 4 > seg.len() {
        Option::None
    } else if seg[j] is Byte && seg[j + 1] is Byte && seg[j + 2] is Byte && seg[j + 3] is Byte {
        Option::Some(
            pack4(tok_byte(seg[j]), tok_byte(seg[j + 1]), tok_byte(seg[j + 2]), tok_byte(seg[j + 3])),
        )
    } else {
        find_seg_key(seg, j + 1)
    }
}

/// The bucket key of a pattern: the first run of four literal bytes in
/// any segment. Patterns without such a run go to the fallback bucket.
pub open spec fn find_segs_key(segs: Seq<Seq<PatTok>>) -> Option<u64>
    decreases segs.len(),
{
    if segs.len() == 0 {
        Option::None
    } else {
        match find_seg_key(segs[0], 0) {
            Option::Some(k) => Option::Some(k),
            Option::None => find_segs_key(segs.skip(1)),
        }
    }
}

/// A literal token of a matched segment pins the URL byte under it.
pub proof fn lemma_toks_match_byte(toks: Seq<PatTok>, url: Seq<u8>, p: int, j: int)
    requires
        toks_match_at(toks, url, p),
        p >= 0,
        0 <= j,
        j + 1 <= toks.len(),
        toks[j] is Byte,
    ensures
        0 <= p + j < url.len(),
        url[p + j] == tok_byte(toks[j]),
    decreases j,
{
    if j == 0 {
        if 0 <= p < url.len() && tok_fits(toks[0], url[p]) {
        } else {
            assert(toks[0] is Sep);
            assert(false);
        }
    } else {
        if 0 <= p < url.len() && tok_fits(toks[0], url[p]) {
            assert(toks_match_at(toks.skip(1), url, p + 1));
            lemma_toks_match_byte(toks.skip(1), url, p + 1, j - 1);
            assert(toks.skip(1)[j - 1] == toks[j]);
        } else {
            assert(false);
        }
    }
}

/// If a matched segment carries a four-byte literal run, that run
/// occurs as a window of the URL.
pub proof fn lemma_seg_key_occurs(seg: Seq<PatTok>, url: Seq<u8>, p: int, j: int, k: u64)
    requires
        toks_match_at(seg, url, p),
        p >= 0,
        0 <= j <= seg.len(),
        find_seg_key(seg, j) == Option::Some(k),
    ensures
        exists|q: int| #![trigger url_window(url, q)] 0 <= q && q + 4 <= url.len() && url_window(url, q) == k,
    decreases seg.len() - j,
{
    if j + 4 > seg.len() {
        assert(false);
    } else if seg[j] is Byte && seg[j + 1] is Byte && seg[j + 2] is Byte && seg[j + 3] is Byte {
        lemma_toks_match_byte(seg, url, p, j);
        lemma_toks_match_byte(seg, url, p, j + 1);
        lemma_toks_match_byte(seg, url, p, j + 2);
        lemma_toks_match_byte(seg, url, p, j + 3);
        assert(url_window(url, p + j) == k);
    } else {
        lemma_seg_key_occurs(seg, url, p, j + 1, k);
    }
}

/// If a matching pattern carries a four-byte literal run, that run
/// occurs as a window of the URL.
pub proof fn lemma_segs_key_occurs(
    segs: Seq<Seq<PatTok>>,
    url: Seq<u8>,
    i: int,
    fixed: bool,
    anchor_end: bool,
    k: u64,
)
    requires
        segs_match_from(segs, url, i, fixed, anchor_end),
        i >= 0,
        find_segs_key(segs) == Option::Some(k),
    ensures
        exists|q: int| #![trigger url_window(url, q)] 0 <= q && q + 4 <= url.len() && url_window(url, q) == k,
    decreases segs.len(),
{
    assert(segs.len() > 0);
    let p = choose|p: int|
        #![trigger toks_match_at(segs[0], url, p)]
        i <= p <= url.len() && (!fixed || p == i) && toks_match_at(segs[0], url, p)
            && segs_match_from(segs.skip(1), url, p + segs[0].len(), false, anchor_end);
    if find_seg_key(segs[0], 0) is Some {
        lemma_seg_key_occurs(segs[0], url, p, 0, k);
    } else {
        lemma_segs_key_occurs(segs.skip(1), url, p + segs[0].len(), false, anchor_end, k);
    }
}

/// Bucket-key completeness: a matching pattern with a bucket key has
/// that key among the URL's four-byte windows.
pub proof fn lemma_pattern_key_occurs(pat: PatternG, url: Seq<u8>, k: u64)
    requires
        pattern_matches_g(pat, url),
        find_segs_key(pat.segments) == Option::Some(k),
    ensures
        exists|q: int| #![trigger url_window(url, q)] 0 <= q && q + 4 <= url.len() && url_window(url, q) == k,
{
    if pat.host_anchor {
        let p = choose|p: int|
            #![trigger is_host_boundary(url, p)]
            is_host_boundary(url, p) && segs_match_from(pat.segments, url, p, true, pat.anchor_end);
        let se = find_scheme_end(url, 0)->Some_0;
        lemma_scheme_end_bounds(url, 0, se);
        lemma_segs_key_occurs(pat.segments, url, p, true, pat.anchor_end, k);
    } else {
        lemma_segs_key_occurs(pat.segments, url, 0, pat.anchor_start, pat.anchor_end, k);
    }
}

/// Executable bucket-key computation for a compiled pattern.
#[verifier::loop_isolation(false)]
pub fn find_segs_key_x(segs: &Vec<Vec<PatTok>>) -> (r: Option<u64>)
    ensures
        r == find_segs_key(seg_views(segs@)),
{
    proof {
        assert(seg_views(segs@).skip(0) =~= seg_views(segs@));
    }
    let mut si: usize = 0;
    while si < segs.len()
        invariant
            si <= segs@.len(),
            find_segs_key(seg_views(segs@)) == find_segs_key(seg_views(segs@).skip(si as int)),
        decreases segs@.len() - si,
    {
        let seg = &segs[si];
        proof {
            assert(seg_views(segs@).skip(si as int)[0] == segs@[si as int]@);
            assert(seg_views(segs@).skip(si as int).skip(1) =~= seg_views(segs@).skip(
                si + 1 as int));
        }
        let mut j: usize = 0;
        while j < seg.len() && seg.len() - j >= 4
            invariant
                j <= seg@.len(),
                find_seg_key(seg@, 0) == find_seg_key(seg@, j as int),
            decreases seg@.len() - j,
        {
            let all_bytes = matches!(seg[j], PatTok::Byte(_)) && matches!(
                seg[j + 1],
                PatTok::Byte(_),
            ) && matches!(seg[j + 2], PatTok::Byte(_)) && matches!(seg[j + 3], PatTok::Byte(_));
            if all_bytes {
                let a = match seg[j] {
                    PatTok::Byte(b) => b,
                    PatTok::Sep => 0,
                };
                let b = match seg[j + 1] {
                    PatTok::Byte(b) => b,
                    PatTok::Sep => 0,
                };
                let c = match seg[j + 2] {
                    PatTok::Byte(b) => b,
                    PatTok::Sep => 0,
                };
                let d = match seg[j + 3] {
                    PatTok::Byte(b) => b,
                    PatTok::Sep => 0,
                };
                proof {
                    assert(find_seg_key(seg@, j as int) == Option::Some(pack4(a, b, c, d)));
                    assert(find_segs_key(seg_views(segs@).skip(si as int)) == Option::Some(
                        pack4(a, b, c, d)));
                }
                return Option::Some(pack4(a, b, c, d));
            }
            j = j + 1;
        }
        proof {
            assert(find_seg_key(seg@, j as int) is None);
            assert(find_segs_key(seg_views(segs@).skip(si as int)) == find_segs_key(
                seg_views(segs@).skip(si + 1 as int)));
        }
        si = si + 1;
    }
    proof {
        assert(seg_views(segs@).skip(segs@.len() as int).len() == 0);
    }
    Option::None
}

} // verus!
