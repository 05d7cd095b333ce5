//! Sentence segmentation: splits text into an ordered sequence of
//! sentences, preserving each sentence's terminal punctuation.
//!
//! A sentence boundary is a run of one or more ending marks (`.`, `!`,
//! `?`) immediately followed by whitespace. Each sentence is the trimmed
//! span from the end of the previous boundary up to and including the
//! ending marks; the trimmed remainder after the last boundary is a final
//! sentence even without terminal punctuation. Whitespace-only spans are
//! discarded.

use vstd::prelude::*;
use crate::text::{is_space_char, is_space, chars_of, strings_of, views, str_views};

verus! {

pub open spec fn is_punct_char(c: char) -> bool {
    c == '.' || c == '!' || c == '?'
}

pub fn is_punct(c: char) -> (r: bool)
    ensures
        r == is_punct_char(c),
{
    c == '.' || c == '!' || c == '?'
}

/// End of the maximal run of sentence-ending marks starting at `i`.
pub open spec fn punct_run_end(s: Seq<char>, i: int) -> int
    decreases s.len() - i,
{
    if 0 <= i < s.len() && is_punct_char(s[i]) {
        punct_run_end(s, i + 1)
    } else {
        i
    }
}

/// End of the maximal run of whitespace starting at `i`.
pub open spec fn space_run_end(s: Seq<char>, i: int) -> int
    decreases s.len() - i,
{
    if 0 <= i < s.len() && is_space_char(s[i]) {
        space_run_end(s, i + 1)
    } else {
        i
    }
}

pub proof fn lemma_punct_run_end_bounds(s: Seq<char>, i: int)
    requires
        0 <= i <= s.len(),
    ensures
        i <= punct_run_end(s, i) <= s.len(),
    decreases s.len() - i,
{
    if i < s.len() && is_punct_char(s[i]) {
        lemma_punct_run_end_bounds(s, i + 1);
    }
}

pub proof fn lemma_space_run_end_bounds(s: Seq<char>, i: int)
    requires
        0 <= i <= s.len(),
    ensures
        i <= space_run_end(s, i) <= s.len(),
    decreases s.len() - i,
{
    if i < s.len() && is_space_char(s[i]) {
        lemma_space_run_end_bounds(s, i + 1);
    }
}

/// A sentence boundary starts at `i`: an ending mark whose maximal run is
/// followed by at least one whitespace character.
pub open spec fn boundary_at(s: Seq<char>, i: int) -> bool {
    &&& 0 <= i < s.len()
    &&& is_punct_char(s[i])
    &&& punct_run_end(s, i) < s.len()
    &&& is_space_char(s[punct_run_end(s, i)])
}

pub open spec fn trim_front(s: Seq<char>) -> Seq<char>
    decreases s.len(),
{
    if s.len() > 0 && is_space_char(s[0]) {
        trim_front(s.drop_first())
    } else {
        s
    }
}

pub open spec fn trim_back(s: Seq<char>) -> Seq<char>
    decreases s.len(),
{
    if s.len() > 0 && is_space_char(s.last()) {
        trim_back(s.drop_last())
    } else {
        s
    }
}

/// `s` without leading and trailing whitespace, as `str::trim` gives it.
pub open spec fn trim_spec(s: Seq<char>) -> Seq<char> {
    trim_back(trim_front(s))
}

/// The sentences of `s` from scan position `i` on, where `last` is the end
/// of the previous boundary (the start of the span still to be emitted).
pub open spec fn seg_rec(s: Seq<char>, last: int, i: int) -> Seq<Seq<char>>
    decreases s.len() - i,
        when 0 <= last <= i <= s.len()
        via seg_rec_decreases
{
    if i >= s.len() {
        let tail = trim_spec(s.subrange(last, s.len() as int));
        if tail.len() > 0 {
            seq![tail]
        } else {
            Seq::empty()
        }
    } else if boundary_at(s, i) {
        let pe = punct_run_end(s, i);
        let we = space_run_end(s, pe);
        let sent = trim_spec(s.subrange(last, pe));
        let rest = seg_rec(s, we, we);
        if sent.len() > 0 {
            seq![sent] + rest
        } else {
            rest
        }
    } else {
        seg_rec(s, last, i + 1)
    }
}

#[via_fn]
proof fn seg_rec_decreases(s: Seq<char>, last: int, i: int) {
    if 0 <= i < s.len() && boundary_at(s, i) {
        lemma_punct_run_end_bounds(s, i);
        let pe = punct_run_end(s, i);
        assert(punct_run_end(s, i) == punct_run_end(s, i + 1));
        lemma_punct_run_end_bounds(s, i + 1);
        lemma_space_run_end_bounds(s, pe);
        assert(space_run_end(s, pe) == space_run_end(s, pe + 1));
        lemma_space_run_end_bounds(s, pe + 1);
    }
}

/// The ordered sentence sequence of `s`.
pub open spec fn segment_spec(s: Seq<char>) -> Seq<Seq<char>> {
    seg_rec(s, 0, 0)
}

proof fn lemma_seg_rec_wf(s: Seq<char>, last: int, i: int)
    requires
        0 <= last <= i <= s.len(),
    ensures
        forall|k: int|
            0 <= k < seg_rec(s, last, i).len() ==> (#[trigger] seg_rec(s, last, i)[k]).len() > 0,
    decreases s.len() - i,
{
    if i >= s.len() {
        let tail = trim_spec(s.subrange(last, s.len() as int));
        if tail.len() > 0 {
            assert(seg_rec(s, last, i) == seq![tail]);
            assert(seg_rec(s, last, i)[0] == tail);
        } else {
            assert(seg_rec(s, last, i).len() == 0);
        }
    } else if boundary_at(s, i) {
        lemma_punct_run_end_bounds(s, i);
        let pe = punct_run_end(s, i);
        lemma_space_run_end_bounds(s, pe);
        let we = space_run_end(s, pe);
        assert(space_run_end(s, pe) == space_run_end(s, pe + 1));
        lemma_space_run_end_bounds(s, pe + 1);
        lemma_seg_rec_wf(s, we, we);
        let sent = trim_spec(s.subrange(last, pe));
        let rest = seg_rec(s, we, we);
        if sent.len() > 0 {
            assert forall|k: int| 0 <= k < seg_rec(s, last, i).len() implies (#[trigger] seg_rec(
                s,
                last,
                i,
            )[k]).len() > 0 by {
                if k > 0 {
                    assert(seg_rec(s, last, i)[k] == rest[k - 1]);
                } else {
                    assert(seg_rec(s, last, i)[0] == sent);
                }
            }
        } else {
            assert(seg_rec(s, last, i) == rest);
        }
    } else {
        lemma_seg_rec_wf(s, last, i + 1);
        assert(seg_rec(s, last, i) == seg_rec(s, last, i + 1));
    }
}

/// No sentence the segmenter produces is empty.
pub proof fn lemma_segment_wf(s: Seq<char>)
    ensures
        forall|k: int|
            0 <= k < segment_spec(s).len() ==> (#[trigger] segment_spec(s)[k]).len() > 0,
{
    lemma_seg_rec_wf(s, 0, 0);
}

/// End of the maximal run of sentence-ending marks starting at `i`,
/// computed on a character vector.
fn punct_end_exec(v: &Vec<char>, i: usize) -> (r: usize)
    requires
        i <= v@.len(),
    ensures
        r == punct_run_end(v@, i as int),
        i <= r <= v@.len(),
{
    let mut j: usize = i;
    while j < v.len() && is_punct(v[j])
        invariant
            i <= j <= v@.len(),
            punct_run_end(v@, i as int) == punct_run_end(v@, j as int),
        decreases v@.len() - j,
    {
        j = j + 1;
    }
    proof {
        assert(punct_run_end(v@, j as int) == j);
    }
    j
}

/// End of the maximal whitespace run starting at `i`, computed on a
/// character vector.
pub fn space_end_exec(v: &Vec<char>, i: usize) -> (r: usize)
    requires
        i <= v@.len(),
    ensures
        r == space_run_end(v@, i as int),
        i <= r <= v@.len(),
{
    let mut j: usize = i;
    while j < v.len() && is_space(v[j])
        invariant
            i <= j <= v@.len(),
            space_run_end(v@, i as int) == space_run_end(v@, j as int),
        decreases v@.len() - j,
    {
        j = j + 1;
    }
    proof {
        assert(space_run_end(v@, j as int) == j);
    }
    j
}

/// The characters `v[from..to]` trimmed of surrounding whitespace.
pub fn trim_sub(v: &Vec<char>, from: usize, to: usize) -> (r: Vec<char>)
    requires
        from <= to <= v@.len(),
    ensures
        r@ == trim_spec(v@.subrange(from as int, to as int)),
{
    let ghost tf = trim_front(v@.subrange(from as int, to as int));
    let mut a: usize = from;
    let mut b: usize = to;
    while a < b && is_space(v[a])
        invariant
            from <= a <= b <= v@.len(),
            tf == trim_front(v@.subrange(a as int, b as int)),
            b == to,
        decreases b - a,
    {
        proof {
            assert(v@.subrange(a as int, b as int).drop_first() =~= v@.subrange(
                a + 1,
                b as int,
            ));
        }
        a = a + 1;
    }
    proof {
        assert(tf == v@.subrange(a as int, b as int));
    }
    let ghost a0 = a;
    while a < b && is_space(v[b - 1])
        invariant
            from <= a <= b <= v@.len(),
            a == a0,
            trim_back(tf) == trim_back(v@.subrange(a as int, b as int)),
        decreases b - a,
    {
        proof {
            assert(v@.subrange(a as int, b as int).drop_last() =~= v@.subrange(
                a as int,
                b - 1,
            ));
        }
        b = b - 1;
    }
    proof {
        assert(trim_back(tf) == v@.subrange(a as int, b as int));
    }
    crate::text::sub_chars(v, a, b)
}

/// The sentences of a character vector, per `segment_spec`.
pub fn segment_chars(v: &Vec<char>) -> (out: Vec<Vec<char>>)
    ensures
        views(out@) == segment_spec(v@),
{
    let ghost s = v@;
    let mut out: Vec<Vec<char>> = Vec::new();
    let mut last: usize = 0;
    let mut i: usize = 0;
    while i < v.len()
        invariant
            v@ == s,
            0 <= last <= i <= s.len(),
            segment_spec(s) == views(out@) + seg_rec(s, last as int, i as int),
        decreases s.len() - i,
    {
        let mut advanced = false;
        if is_punct(v[i]) {
            let pe = punct_end_exec(v, i);
            if pe < v.len() && is_space(v[pe]) {
                assert(boundary_at(s, i as int));
                let we = space_end_exec(v, pe);
                let sent = trim_sub(v, last, pe);
                let ghost old_out = out@;
                if sent.len() > 0 {
                    out.push(sent);
                    proof {
                        assert(views(out@) =~= views(old_out).push(sent@));
                        assert(views(old_out) + seg_rec(s, last as int, i as int) =~= views(
                            out@,
                        ) + seg_rec(s, we as int, we as int));
                    }
                } else {
                    proof {
                        assert(views(old_out) + seg_rec(s, last as int, i as int) =~= views(
                            out@,
                        ) + seg_rec(s, we as int, we as int));
                    }
                }
                last = we;
                i = we;
                advanced = true;
            }
        }
        if !advanced {
            proof {
                assert(!boundary_at(s, i as int));
                assert(seg_rec(s, last as int, i as int) == seg_rec(s, last as int, i + 1));
            }
            i = i + 1;
        }
    }
    let tail = trim_sub(v, last, v.len());
    let ghost old_out = out@;
    if tail.len() > 0 {
        out.push(tail);
        proof {
            assert(views(out@) =~= views(old_out).push(tail@));
            assert(views(out@) =~= views(old_out) + seg_rec(s, last as int, s.len() as int));
        }
    } else {
        proof {
            assert(views(out@) =~= views(old_out) + seg_rec(s, last as int, s.len() as int));
        }
    }
    proof {
        assert(views(out@) =~= segment_spec(s));
    }
    out
}

/// Split text into sentences while preserving original punctuation.
/// Each returned sentence keeps its own terminating marks.
pub fn split_sentences_preserve_punct(text: &str) -> (r: Vec<String>)
    ensures
        str_views(r@) == segment_spec(text@),
{
    let v = chars_of(text);
    let parts = segment_chars(&v);
    strings_of(&parts)
}

} // verus!
