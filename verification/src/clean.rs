//! The normalizer: canonicalizes Unicode text (NFKC), standardizes
//! punctuation, strips control characters, and collapses whitespace while
//! preserving paragraph breaks (blank lines).

use vstd::prelude::*;
use crate::text::{
    canon_char,
    canon,
    is_control_char,
    is_control,
    is_space_char,
    is_space,
    chars_of,
    string_of,
    append_chars,
    sub_chars,
    nfkc_str,
    nfkc_of,
    views,
};
use crate::segment::{trim_spec, trim_front, trim_back, space_run_end, lemma_space_run_end_bounds};

verus! {

/// Characters that survive the control-character pass: everything that is
/// not a control character, plus newline and tab.
pub open spec fn keep_char(c: char) -> bool {
    !is_control_char(c) || c == '\n' || c == '\t'
}

/// Punctuation standardization applied to every character.
pub open spec fn canon_seq(s: Seq<char>) -> Seq<char> {
    s.map_values(|c: char| canon_char(c))
}

/// The characters of `s` that survive the control-character pass.
pub open spec fn filter_keep(s: Seq<char>) -> Seq<char>
    decreases s.len(),
{
    if s.len() == 0 {
        Seq::empty()
    } else {
        let rest = filter_keep(s.drop_last());
        if keep_char(s.last()) {
            rest.push(s.last())
        } else {
            rest
        }
    }
}

/// The position of the first paragraph separator (two consecutive
/// newlines) at or after `i`.
pub open spec fn find_sep(s: Seq<char>, i: int) -> Option<int>
    decreases s.len() - i,
{
    if i < 0 || i + 2 > s.len() {
        None
    } else if s[i] == '\n' && s[i + 1] == '\n' {
        Some(i)
    } else {
        find_sep(s, i + 1)
    }
}

pub proof fn lemma_find_sep_bounds(s: Seq<char>, i: int)
    requires
        0 <= i <= s.len(),
        find_sep(s, i) is Some,
    ensures
        i <= find_sep(s, i).unwrap(),
        find_sep(s, i).unwrap() + 2 <= s.len(),
    decreases s.len() - i,
{
    if i + 2 <= s.len() && !(s[i] == '\n' && s[i + 1] == '\n') {
        lemma_find_sep_bounds(s, i + 1);
    }
}

/// The spans of `s[i..]` between paragraph separators, in order. A
/// separator at the very start or end contributes an empty span.
pub open spec fn split_paras_from(s: Seq<char>, i: int) -> Seq<Seq<char>>
    decreases s.len() - i,
        when 0 <= i <= s.len()
        via split_paras_from_decreases
{
    match find_sep(s, i) {
        Some(p) => seq![s.subrange(i, p)] + split_paras_from(s, p + 2),
        None => seq![s.subrange(i, s.len() as int)],
    }
}

#[via_fn]
proof fn split_paras_from_decreases(s: Seq<char>, i: int) {
    if find_sep(s, i) is Some {
        lemma_find_sep_bounds(s, i);
    }
}

/// Whitespace runs collapsed to a single space, from position `i` on.
pub open spec fn squash_from(s: Seq<char>, i: int) -> Seq<char>
    decreases s.len() - i,
        when 0 <= i <= s.len()
        via squash_from_decreases
{
    if i >= s.len() {
        Seq::empty()
    } else if is_space_char(s[i]) {
        seq![' '] + squash_from(s, space_run_end(s, i))
    } else {
        seq![s[i]] + squash_from(s, i + 1)
    }
}

#[via_fn]
proof fn squash_from_decreases(s: Seq<char>, i: int) {
    if 0 <= i < s.len() && is_space_char(s[i]) {
        assert(space_run_end(s, i) == space_run_end(s, i + 1));
        lemma_space_run_end_bounds(s, i + 1);
    }
}

/// One paragraph cleaned: trimmed, with every whitespace run collapsed to
/// a single space.
pub open spec fn para_clean(p: Seq<char>) -> Seq<char> {
    squash_from(trim_spec(p), 0)
}

/// The cleaned paragraphs that are non-empty, in order.
pub open spec fn clean_paras(parts: Seq<Seq<char>>) -> Seq<Seq<char>>
    decreases parts.len(),
{
    if parts.len() == 0 {
        Seq::empty()
    } else {
        let rest = clean_paras(parts.drop_last());
        let p = para_clean(parts.last());
        if p.len() > 0 {
            rest.push(p)
        } else {
            rest
        }
    }
}

/// Paragraphs joined by a blank line.
pub open spec fn join_paras(parts: Seq<Seq<char>>) -> Seq<char>
    decreases parts.len(),
{
    if parts.len() == 0 {
        Seq::empty()
    } else if parts.len() == 1 {
        parts[0]
    } else {
        join_paras(parts.drop_last()) + seq!['\n', '\n'] + parts.last()
    }
}

/// The whitespace-and-paragraph pass: split on blank lines, clean each
/// paragraph, drop the ones that become empty, rejoin with blank lines.
pub open spec fn clean_post(s: Seq<char>) -> Seq<char> {
    join_paras(clean_paras(split_paras_from(s, 0)))
}

/// What `clean_text` returns: NFKC normalization, then punctuation
/// standardization, then the control-character pass, then the
/// whitespace-and-paragraph pass.
pub open spec fn clean_spec(s: Seq<char>) -> Seq<char> {
    clean_post(filter_keep(canon_seq(nfkc_of(s))))
}

/// Every character of `s` satisfies `q`.
pub open spec fn all_chars(s: Seq<char>, q: spec_fn(char) -> bool) -> bool {
    forall|k: int| 0 <= k < s.len() ==> q(#[trigger] s[k])
}

/// A character that the whole cleaning pass leaves alone: already
/// standardized and not removed.
pub open spec fn settled_char(ch: char) -> bool {
    canon_char(ch) == ch && keep_char(ch)
}

/// A cleaned paragraph: its only whitespace is single interior spaces, and
/// it neither starts nor ends with whitespace.
pub open spec fn tidy_para(p: Seq<char>) -> bool {
    &&& forall|k: int| 0 <= k < p.len() ==> (is_space_char(#[trigger] p[k]) ==> p[k] == ' ')
    &&& forall|k: int| 0 <= k < p.len() - 1 ==> !((#[trigger] p[k]) == ' ' && p[k + 1] == ' ')
    &&& p.len() > 0 ==> !is_space_char(p[0]) && !is_space_char(p.last())
}

proof fn lemma_filter_all_chars(s: Seq<char>, q: spec_fn(char) -> bool)
    requires
        all_chars(s, q),
    ensures
        all_chars(filter_keep(s), q),
        all_chars(filter_keep(s), |ch: char| keep_char(ch)),
    decreases s.len(),
{
    if s.len() > 0 {
        assert(all_chars(s.drop_last(), q));
        lemma_filter_all_chars(s.drop_last(), q);
    }
}

proof fn lemma_filter_identity(s: Seq<char>)
    requires
        all_chars(s, |ch: char| keep_char(ch)),
    ensures
        filter_keep(s) == s,
    decreases s.len(),
{
    if s.len() > 0 {
        assert(all_chars(s.drop_last(), |ch: char| keep_char(ch)));
        lemma_filter_identity(s.drop_last());
        assert(keep_char(s.last()));
        assert(s.drop_last().push(s.last()) =~= s);
    }
}

proof fn lemma_trim_front_props(s: Seq<char>, q: spec_fn(char) -> bool)
    requires
        all_chars(s, q),
    ensures
        all_chars(trim_front(s), q),
        trim_front(s).len() > 0 ==> !is_space_char(trim_front(s)[0]),
        trim_front(s).len() > 0 ==> trim_front(s).last() == s.last(),
        trim_front(s).len() <= s.len(),
    decreases s.len(),
{
    if s.len() > 0 && is_space_char(s[0]) {
        assert(all_chars(s.drop_first(), q)) by {
            assert(forall|k: int|
                0 <= k < s.drop_first().len() ==> (#[trigger] s.drop_first()[k]) == s[k + 1]);
        }
        lemma_trim_front_props(s.drop_first(), q);
        if s.drop_first().len() > 0 {
            assert(s.drop_first().last() == s.last());
        }
    }
}

proof fn lemma_trim_back_props(s: Seq<char>, q: spec_fn(char) -> bool)
    requires
        all_chars(s, q),
    ensures
        all_chars(trim_back(s), q),
        trim_back(s).len() > 0 ==> !is_space_char(trim_back(s).last()),
        trim_back(s).len() > 0 ==> trim_back(s)[0] == s[0],
        trim_back(s).len() <= s.len(),
    decreases s.len(),
{
    if s.len() > 0 && is_space_char(s.last()) {
        assert(all_chars(s.drop_last(), q));
        lemma_trim_back_props(s.drop_last(), q);
    }
}

proof fn lemma_trim_identity(s: Seq<char>)
    requires
        s.len() > 0 ==> !is_space_char(s[0]) && !is_space_char(s.last()),
    ensures
        trim_spec(s) == s,
{
    assert(trim_front(s) == s);
    assert(trim_back(s) == s);
}

/// All characters in a maximal whitespace run are whitespace, and the run
/// stops at the first character that is not.
proof fn lemma_space_run_chars(s: Seq<char>, i: int)
    requires
        0 <= i <= s.len(),
    ensures
        forall|j: int| i <= j < space_run_end(s, i) ==> is_space_char(#[trigger] s[j]),
        space_run_end(s, i) < s.len() ==> !is_space_char(s[space_run_end(s, i)]),
    decreases s.len() - i,
{
    if i < s.len() && is_space_char(s[i]) {
        lemma_space_run_chars(s, i + 1);
    }
}

/// Structure of collapsed text: only single interior spaces remain, the
/// first character mirrors the input, and the last character is not
/// whitespace.
proof fn lemma_squash_structure(s: Seq<char>, i: int, q: spec_fn(char) -> bool)
    requires
        0 <= i <= s.len(),
        all_chars(s, q),
        q(' '),
        s.len() > 0 ==> !is_space_char(s.last()),
    ensures
        all_chars(squash_from(s, i), q),
        squash_from(s, i).len() > 0 <==> i < s.len(),
        i < s.len() ==> squash_from(s, i)[0] == (if is_space_char(s[i]) {
            ' '
        } else {
            s[i]
        }),
        squash_from(s, i).len() > 0 ==> !is_space_char(squash_from(s, i).last()),
        forall|k: int|
            0 <= k < squash_from(s, i).len() ==> (is_space_char(
                #[trigger] squash_from(s, i)[k],
            ) ==> squash_from(s, i)[k] == ' '),
        forall|k: int|
            0 <= k < squash_from(s, i).len() - 1 ==> !((#[trigger] squash_from(s, i)[k]) == ' '
                && squash_from(s, i)[k + 1] == ' '),
    decreases s.len() - i,
{
    let r = squash_from(s, i);
    if i >= s.len() {
    } else if is_space_char(s[i]) {
        lemma_space_run_chars(s, i);
        let e = space_run_end(s, i);
        lemma_space_run_end_bounds(s, i);
        assert(e < s.len()) by {
            if e == s.len() {
                assert(is_space_char(s[s.len() - 1]));
            }
        }
        assert(!is_space_char(s[e]));
        lemma_squash_structure(s, e, q);
        let rest = squash_from(s, e);
        assert(r == seq![' '] + rest);
        assert(rest.len() > 0);
        assert(rest[0] == s[e]);
        assert(r.last() == rest.last());
        assert forall|k: int| 0 <= k < r.len() - 1 implies !((#[trigger] r[k]) == ' ' && r[k + 1]
            == ' ') by {
            if k == 0 {
                assert(r[1] == rest[0]);
                assert(!is_space_char(rest[0]));
            } else {
                assert(r[k] == rest[k - 1]);
                assert(r[k + 1] == rest[k]);
            }
        }
        assert forall|k: int| 0 <= k < r.len() implies (is_space_char(#[trigger] r[k]) ==> r[k]
            == ' ') by {
            if k > 0 {
                assert(r[k] == rest[k - 1]);
            }
        }
        assert forall|k: int| 0 <= k < r.len() implies q(#[trigger] r[k]) by {
            if k > 0 {
                assert(r[k] == rest[k - 1]);
            }
        }
    } else {
        lemma_squash_structure(s, i + 1, q);
        let rest = squash_from(s, i + 1);
        assert(r == seq![s[i]] + rest);
        if rest.len() == 0 {
            assert(r.last() == s[i]);
        } else {
            assert(r.last() == rest.last());
        }
        assert forall|k: int| 0 <= k < r.len() - 1 implies !((#[trigger] r[k]) == ' ' && r[k + 1]
            == ' ') by {
            if k == 0 {
                assert(r[0] == s[i]);
                assert(!is_space_char(s[i]));
            } else {
                assert(r[k] == rest[k - 1]);
                assert(r[k + 1] == rest[k]);
            }
        }
        assert forall|k: int| 0 <= k < r.len() implies (is_space_char(#[trigger] r[k]) ==> r[k]
            == ' ') by {
            if k > 0 {
                assert(r[k] == rest[k - 1]);
            }
        }
        assert forall|k: int| 0 <= k < r.len() implies q(#[trigger] r[k]) by {
            if k > 0 {
                assert(r[k] == rest[k - 1]);
            }
        }
    }
}

/// Collapsing is the identity on a tidy paragraph.
proof fn lemma_squash_identity(s: Seq<char>, i: int)
    requires
        0 <= i <= s.len(),
        tidy_para(s),
    ensures
        squash_from(s, i) == s.subrange(i, s.len() as int),
    decreases s.len() - i,
{
    if i >= s.len() {
        assert(squash_from(s, i) =~= s.subrange(i, s.len() as int));
    } else if is_space_char(s[i]) {
        assert(s[i] == ' ');
        assert(i < s.len() - 1) by {
            assert(!is_space_char(s.last()));
        }
        assert(!(s[i] == ' ' && s[i + 1] == ' '));
        assert(!is_space_char(s[i + 1])) by {
            if is_space_char(s[i + 1]) {
                assert(s[i + 1] == ' ');
            }
        }
        assert(space_run_end(s, i) == space_run_end(s, i + 1));
        assert(space_run_end(s, i + 1) == i + 1);
        lemma_squash_identity(s, i + 1);
        assert(seq![' '] + s.subrange(i + 1, s.len() as int) =~= s.subrange(i, s.len() as int));
    } else {
        lemma_squash_identity(s, i + 1);
        assert(seq![s[i]] + s.subrange(i + 1, s.len() as int) =~= s.subrange(
            i,
            s.len() as int,
        ));
    }
}

/// A cleaned paragraph is tidy, keeps only settled characters, and carries
/// no newline.
proof fn lemma_para_clean_props(p: Seq<char>, q: spec_fn(char) -> bool)
    requires
        all_chars(p, q),
        q(' '),
    ensures
        tidy_para(para_clean(p)),
        all_chars(para_clean(p), q),
        forall|k: int| 0 <= k < para_clean(p).len() ==> (#[trigger] para_clean(p)[k]) != '\n',
{
    lemma_trim_front_props(p, q);
    lemma_trim_back_props(trim_front(p), q);
    let t = trim_spec(p);
    assert(t.len() > 0 ==> !is_space_char(t[0]) && !is_space_char(t.last())) by {
        if t.len() > 0 {
            assert(t[0] == trim_front(p)[0]);
        }
    }
    lemma_squash_structure(t, 0, q);
    let r = para_clean(p);
    assert(tidy_para(r)) by {
        if r.len() > 0 {
            assert(r[0] == (if is_space_char(t[0]) {
                ' '
            } else {
                t[0]
            }));
        }
    }
    assert forall|k: int| 0 <= k < r.len() implies (#[trigger] r[k]) != '\n' by {
        if r[k] == '\n' {
            assert(is_space_char(r[k]));
            assert(r[k] == ' ');
        }
    }
}

proof fn lemma_join_front(ps: Seq<Seq<char>>)
    requires
        ps.len() >= 2,
    ensures
        join_paras(ps) == ps[0] + seq!['\n', '\n'] + join_paras(ps.drop_first()),
    decreases ps.len(),
{
    if ps.len() == 2 {
        assert(ps.drop_last() =~= seq![ps[0]]);
        assert(join_paras(seq![ps[0]]) == ps[0]);
        assert(ps.drop_first() =~= seq![ps[1]]);
        assert(join_paras(seq![ps[1]]) == ps[1]);
    } else {
        lemma_join_front(ps.drop_last());
        assert(ps.drop_last()[0] == ps[0]);
        assert(ps.drop_last().drop_first() =~= ps.drop_first().drop_last());
        assert(ps.drop_first().last() == ps.last());
        assert(join_paras(ps) == (ps[0] + seq!['\n', '\n'] + join_paras(
            ps.drop_first().drop_last(),
        )) + seq!['\n', '\n'] + ps.last());
        assert(join_paras(ps.drop_first()) == join_paras(ps.drop_first().drop_last()) + seq![
            '\n',
            '\n',
        ] + ps.last());
        assert((ps[0] + seq!['\n', '\n'] + join_paras(ps.drop_first().drop_last())) + seq![
            '\n',
            '\n',
        ] + ps.last() =~= ps[0] + seq!['\n', '\n'] + (join_paras(ps.drop_first().drop_last())
            + seq!['\n', '\n'] + ps.last()));
    }
}

proof fn lemma_find_sep_none(s: Seq<char>, i: int)
    requires
        0 <= i <= s.len(),
        forall|j: int| i <= j < s.len() ==> (#[trigger] s[j]) != '\n',
    ensures
        find_sep(s, i) is None,
    decreases s.len() - i,
{
    if i + 2 <= s.len() {
        lemma_find_sep_none(s, i + 1);
    }
}

proof fn lemma_find_sep_exact(s: Seq<char>, i: int, p: int)
    requires
        0 <= i <= p,
        p + 2 <= s.len(),
        forall|j: int| i <= j < p ==> (#[trigger] s[j]) != '\n',
        s[p] == '\n',
        s[p + 1] == '\n',
    ensures
        find_sep(s, i) == Some(p),
    decreases p - i,
{
    if i < p {
        lemma_find_sep_exact(s, i + 1, p);
    }
}

/// Splitting on blank lines inverts joining with blank lines, for non-empty
/// paragraphs that carry no newline.
proof fn lemma_split_join(s: Seq<char>, i: int, ps: Seq<Seq<char>>)
    requires
        0 <= i <= s.len(),
        ps.len() >= 1,
        s.subrange(i, s.len() as int) == join_paras(ps),
        forall|m: int, k: int|
            0 <= m < ps.len() && 0 <= k < ps[m].len() ==> (#[trigger] ps[m][k]) != '\n',
    ensures
        split_paras_from(s, i) == ps,
    decreases ps.len(),
{
    let tail = s.subrange(i, s.len() as int);
    if ps.len() == 1 {
        assert(tail == ps[0]);
        assert(find_sep(s, i) is None) by {
            assert forall|j: int| i <= j < s.len() implies (#[trigger] s[j]) != '\n' by {
                assert(s[j] == tail[j - i]);
                assert(tail[j - i] == ps[0][j - i]);
            }
            lemma_find_sep_none(s, i);
        }
        assert(split_paras_from(s, i) =~= ps);
    } else {
        lemma_join_front(ps);
        let p0 = ps[0];
        let rest = join_paras(ps.drop_first());
        assert(tail == p0 + seq!['\n', '\n'] + rest);
        let p = i + p0.len() as int;
        assert(s[p] == '\n') by {
            assert(s[p] == tail[p0.len() as int]);
        }
        assert(s[p + 1] == '\n') by {
            assert(s[p + 1] == tail[p0.len() as int + 1]);
        }
        assert(find_sep(s, i) == Some(p)) by {
            assert forall|j: int| i <= j < p implies (#[trigger] s[j]) != '\n' by {
                assert(s[j] == tail[j - i]);
                assert(tail[j - i] == p0[j - i]);
            }
            lemma_find_sep_exact(s, i, p);
        }
        assert(s.subrange(i, p) =~= p0);
        assert forall|k: int| 0 <= k < s.len() - (p + 2) implies s.subrange(
            p + 2,
            s.len() as int,
        )[k] == rest[k] by {
            assert(tail[p0.len() as int + 2 + k] == s[p + 2 + k]);
            assert(tail[p0.len() as int + 2 + k] == rest[k]);
        }
        assert(s.subrange(p + 2, s.len() as int) =~= rest);
        assert(forall|m: int, k: int|
            0 <= m < ps.drop_first().len() && 0 <= k < ps.drop_first()[m].len() ==> (
            #[trigger] ps.drop_first()[m][k]) != '\n');
        lemma_split_join(s, p + 2, ps.drop_first());
        assert(split_paras_from(s, i) == seq![p0] + split_paras_from(s, p + 2));
        assert(seq![p0] + ps.drop_first() =~= ps);
    }
}

/// Cleaning paragraphs is the identity on non-empty tidy paragraphs.
proof fn lemma_clean_paras_identity(ps: Seq<Seq<char>>)
    requires
        forall|m: int| 0 <= m < ps.len() ==> tidy_para(#[trigger] ps[m]) && ps[m].len() > 0,
    ensures
        clean_paras(ps) == ps,
    decreases ps.len(),
{
    if ps.len() > 0 {
        assert(forall|m: int|
            0 <= m < ps.drop_last().len() ==> tidy_para(#[trigger] ps.drop_last()[m])
                && ps.drop_last()[m].len() > 0);
        lemma_clean_paras_identity(ps.drop_last());
        let last = ps.last();
        assert(tidy_para(last));
        lemma_trim_identity(last);
        lemma_squash_identity(last, 0);
        assert(last.subrange(0, last.len() as int) =~= last);
        assert(para_clean(last) == last);
        assert(ps.drop_last().push(last) =~= ps);
    }
}

/// Every paragraph that the whitespace-and-paragraph pass keeps is tidy,
/// non-empty, free of newlines, and made of characters satisfying `q`.
proof fn lemma_clean_paras_props(parts: Seq<Seq<char>>, q: spec_fn(char) -> bool)
    requires
        q(' '),
        forall|m: int| 0 <= m < parts.len() ==> all_chars(#[trigger] parts[m], q),
    ensures
        forall|m: int|
            0 <= m < clean_paras(parts).len() ==> {
                let p = #[trigger] clean_paras(parts)[m];
                tidy_para(p) && p.len() > 0 && all_chars(p, q) && (forall|k: int|
                    0 <= k < p.len() ==> (#[trigger] p[k]) != '\n')
            },
    decreases parts.len(),
{
    if parts.len() > 0 {
        assert(forall|m: int|
            0 <= m < parts.drop_last().len() ==> all_chars(#[trigger] parts.drop_last()[m], q));
        lemma_clean_paras_props(parts.drop_last(), q);
        lemma_para_clean_props(parts.last(), q);
        let rest = clean_paras(parts.drop_last());
        let p = para_clean(parts.last());
        if p.len() > 0 {
            assert forall|m: int| 0 <= m < clean_paras(parts).len() implies {
                let c = #[trigger] clean_paras(parts)[m];
                tidy_para(c) && c.len() > 0 && all_chars(c, q) && (forall|k: int|
                    0 <= k < c.len() ==> (#[trigger] c[k]) != '\n')
            } by {
                if m < rest.len() {
                    assert(clean_paras(parts)[m] == rest[m]);
                } else {
                    assert(clean_paras(parts)[m] == p);
                }
            }
        }
    }
}

/// The parts that splitting produces are spans of the input, so they keep
/// any per-character property of it.
proof fn lemma_split_all_chars(s: Seq<char>, i: int, q: spec_fn(char) -> bool)
    requires
        0 <= i <= s.len(),
        all_chars(s, q),
    ensures
        forall|m: int|
            0 <= m < split_paras_from(s, i).len() ==> all_chars(
                #[trigger] split_paras_from(s, i)[m],
                q,
            ),
    decreases s.len() - i,
{
    match find_sep(s, i) {
        Some(p) => {
            lemma_find_sep_bounds(s, i);
            lemma_split_all_chars(s, p + 2, q);
            let head = s.subrange(i, p);
            let rest = split_paras_from(s, p + 2);
            assert(all_chars(head, q));
            assert forall|m: int| 0 <= m < split_paras_from(s, i).len() implies all_chars(
                #[trigger] split_paras_from(s, i)[m],
                q,
            ) by {
                if m == 0 {
                    assert(split_paras_from(s, i)[0] == head);
                } else {
                    assert(split_paras_from(s, i)[m] == rest[m - 1]);
                }
            }
        },
        None => {
            assert(all_chars(s.subrange(i, s.len() as int), q));
            assert(split_paras_from(s, i)[0] == s.subrange(i, s.len() as int));
        },
    }
}

/// Joined tidy paragraphs keep any per-character property that holds of
/// the newline as well.
proof fn lemma_join_all_chars(ps: Seq<Seq<char>>, q: spec_fn(char) -> bool)
    requires
        q('\n'),
        forall|m: int| 0 <= m < ps.len() ==> all_chars(#[trigger] ps[m], q),
    ensures
        all_chars(join_paras(ps), q),
    decreases ps.len(),
{
    if ps.len() == 0 {
    } else if ps.len() == 1 {
        assert(join_paras(ps) == ps[0]);
    } else {
        assert(forall|m: int|
            0 <= m < ps.drop_last().len() ==> all_chars(#[trigger] ps.drop_last()[m], q));
        lemma_join_all_chars(ps.drop_last(), q);
        let front = join_paras(ps.drop_last());
        let whole = join_paras(ps);
        assert(whole == front + seq!['\n', '\n'] + ps.last());
        assert forall|k: int| 0 <= k < whole.len() implies q(#[trigger] whole[k]) by {
            if k < front.len() {
                assert(whole[k] == front[k]);
            } else if k < front.len() + 2 {
                assert(whole[k] == '\n');
            } else {
                assert(whole[k] == ps.last()[k - front.len() - 2]);
            }
        }
    }
}

/// The whitespace-and-paragraph pass, applied after standardization and
/// control removal, is the identity on its own output: everything of
/// cleaning other than Unicode normalization is idempotent outright.
pub proof fn lemma_clean_pass_idempotent(s: Seq<char>)
    ensures
        clean_post(filter_keep(canon_seq(clean_post(filter_keep(canon_seq(s)))))) == clean_post(
            filter_keep(canon_seq(s)),
        ),
{
    let q = |ch: char| settled_char(ch);
    let q1 = |ch: char| canon_char(ch) == ch;
    let t = filter_keep(canon_seq(s));
    assert(all_chars(canon_seq(s), q1)) by {
        assert forall|k: int| 0 <= k < canon_seq(s).len() implies q1(
            #[trigger] canon_seq(s)[k],
        ) by {
            assert(canon_seq(s)[k] == canon_char(s[k]));
            assert(canon_char(canon_char(s[k])) == canon_char(s[k]));
        }
    }
    lemma_filter_all_chars(canon_seq(s), q1);
    assert(all_chars(t, q)) by {
        assert forall|k: int| 0 <= k < t.len() implies q(#[trigger] t[k]) by {
            assert(q1(t[k]));
            assert(keep_char(t[k]));
        }
    }
    let parts = split_paras_from(t, 0);
    lemma_split_all_chars(t, 0, q);
    assert(q(' '));
    lemma_clean_paras_props(parts, q);
    let kept = clean_paras(parts);
    let c = clean_post(t);
    assert(c == join_paras(kept));
    if kept.len() == 0 {
        assert(c =~= Seq::<char>::empty());
        assert(canon_seq(c) =~= Seq::<char>::empty());
        assert(filter_keep(canon_seq(c)) =~= Seq::<char>::empty());
        let e = Seq::<char>::empty();
        assert(find_sep(e, 0) is None);
        assert(split_paras_from(e, 0) == seq![e.subrange(0, 0)]);
        assert(e.subrange(0, 0) =~= e);
        assert(trim_spec(e) == e);
        assert(para_clean(e) == squash_from(e, 0));
        assert(squash_from(e, 0).len() == 0);
        assert(clean_paras(Seq::<Seq<char>>::empty()) =~= Seq::<Seq<char>>::empty());
        assert(clean_paras(seq![e]) =~= Seq::<Seq<char>>::empty()) by {
            assert(seq![e].drop_last() =~= Seq::<Seq<char>>::empty());
            assert(seq![e].last() == e);
        }
        assert(clean_post(filter_keep(canon_seq(c))) == c);
    } else {
        assert(q('\n'));
        lemma_join_all_chars(kept, q);
        assert(all_chars(c, q));
        assert(canon_seq(c) =~= c) by {
            assert(forall|k: int| 0 <= k < c.len() ==> canon_seq(c)[k] == canon_char(c[k]));
        }
        lemma_filter_identity(c);
        assert(filter_keep(canon_seq(c)) == c);
        assert(c.subrange(0, c.len() as int) =~= c);
        lemma_split_join(c, 0, kept);
        assert(split_paras_from(c, 0) == kept);
        lemma_clean_paras_identity(kept);
        assert(clean_post(filter_keep(canon_seq(c))) == c);
    }
}

/// Idempotence law: cleaning twice is the same as cleaning once, on every
/// input whose cleaned form is NFKC-stable. Unicode normalization is itself
/// idempotent; stability of the cleaned text can only be lost when dropping
/// a control character makes a base character and a combining mark
/// adjacent, so that a second normalization composes them.
pub proof fn lemma_clean_idempotent(x: Seq<char>)
    requires
        nfkc_of(clean_spec(x)) == clean_spec(x),
    ensures
        clean_spec(clean_spec(x)) == clean_spec(x),
{
    lemma_clean_pass_idempotent(nfkc_of(x));
}

fn canon_all(v: &Vec<char>) -> (r: Vec<char>)
    ensures
        r@ == canon_seq(v@),
{
    let mut r: Vec<char> = Vec::new();
    let mut i: usize = 0;
    while i < v.len()
        invariant
            i <= v@.len(),
            r@.len() == i,
            forall|k: int| 0 <= k < i ==> r@[k] == canon_char(v@[k]),
        decreases v@.len() - i,
    {
        r.push(canon(v[i]));
        i = i + 1;
    }
    proof {
        assert(r@ =~= canon_seq(v@));
    }
    r
}

fn filter_all(v: &Vec<char>) -> (r: Vec<char>)
    ensures
        r@ == filter_keep(v@),
{
    let mut r: Vec<char> = Vec::new();
    let mut i: usize = 0;
    proof {
        assert(v@.take(0) =~= Seq::<char>::empty());
    }
    while i < v.len()
        invariant
            i <= v@.len(),
            r@ == filter_keep(v@.take(i as int)),
        decreases v@.len() - i,
    {
        let c = v[i];
        proof {
            assert(v@.take(i + 1).drop_last() =~= v@.take(i as int));
            assert(v@.take(i + 1).last() == v@[i as int]);
        }
        if !is_control(c) || c == '\n' || c == '\t' {
            r.push(c);
        }
        i = i + 1;
    }
    proof {
        assert(v@.take(v@.len() as int) =~= v@);
    }
    r
}

fn find_sep_exec(v: &Vec<char>, i: usize) -> (r: Option<usize>)
    requires
        i <= v@.len(),
    ensures
        r is Some <==> find_sep(v@, i as int) is Some,
        r is Some ==> r.unwrap() as int == find_sep(v@, i as int).unwrap(),
{
    let n = v.len();
    let mut j: usize = i;
    while n - j >= 2 && !(v[j] == '\n' && v[j + 1] == '\n')
        invariant
            i <= j,
            j <= v@.len(),
            n == v@.len(),
            find_sep(v@, i as int) == find_sep(v@, j as int),
        decreases v@.len() - j,
    {
        j = j + 1;
    }
    if n - j >= 2 {
        Some(j)
    } else {
        None
    }
}

fn squash_exec(v: &Vec<char>) -> (r: Vec<char>)
    ensures
        r@ == squash_from(v@, 0),
{
    let mut r: Vec<char> = Vec::new();
    let mut i: usize = 0;
    proof {
        assert(r@ + squash_from(v@, 0) =~= squash_from(v@, 0));
    }
    while i < v.len()
        invariant
            i <= v@.len(),
            squash_from(v@, 0) == r@ + squash_from(v@, i as int),
        decreases v@.len() - i,
    {
        let ghost old_r = r@;
        if is_space(v[i]) {
            r.push(' ');
            let next = crate::segment::space_end_exec(v, i);
            proof {
                assert(r@ =~= old_r + seq![' ']);
                assert(old_r + (seq![' '] + squash_from(v@, next as int)) =~= r@ + squash_from(
                    v@,
                    next as int,
                ));
            }
            i = next;
        } else {
            r.push(v[i]);
            proof {
                assert(r@ =~= old_r + seq![v@[i as int]]);
                assert(old_r + (seq![v@[i as int]] + squash_from(v@, i + 1)) =~= r@
                    + squash_from(v@, i + 1));
            }
            i = i + 1;
        }
    }
    proof {
        assert(r@ =~= r@ + squash_from(v@, i as int));
    }
    r
}

fn split_paras_exec(fv: &Vec<char>) -> (paras: Vec<Vec<char>>)
    ensures
        views(paras@) == split_paras_from(fv@, 0),
{
    let ghost s = fv@;
    let n = fv.len();
    let mut paras: Vec<Vec<char>> = Vec::new();
    let mut start: usize = 0;
    let mut done = false;
    proof {
        assert(views(paras@) + split_paras_from(s, 0) =~= split_paras_from(s, 0));
    }
    while !done
        invariant
            start <= s.len(),
            s == fv@,
            n == s.len(),
            !done ==> split_paras_from(s, 0) == views(paras@) + split_paras_from(
                s,
                start as int,
            ),
            done ==> views(paras@) == split_paras_from(s, 0),
        decreases s.len() - start, (if done {
            0int
        } else {
            1int
        }),
    {
        let ghost old_paras = views(paras@);
        match find_sep_exec(fv, start) {
            Some(p) => {
                proof {
                    lemma_find_sep_bounds(s, start as int);
                    assert(p + 2 <= n);
                }
                let piece = sub_chars(fv, start, p);
                paras.push(piece);
                proof {
                    assert(views(paras@) =~~= old_paras.push(s.subrange(start as int, p as int)));
                    assert(old_paras + split_paras_from(s, start as int) =~= views(paras@)
                        + split_paras_from(s, p + 2));
                }
                start = p + 2;
            },
            None => {
                let piece = sub_chars(fv, start, fv.len());
                paras.push(piece);
                proof {
                    assert(views(paras@) =~~= old_paras.push(
                        s.subrange(start as int, s.len() as int),
                    ));
                    assert(views(paras@) =~= old_paras + split_paras_from(s, start as int));
                }
                done = true;
            },
        }
    }
    paras
}

fn clean_paras_exec(paras: &Vec<Vec<char>>) -> (kept: Vec<Vec<char>>)
    ensures
        views(kept@) == clean_paras(views(paras@)),
{
    let ghost parts = views(paras@);
    let mut kept: Vec<Vec<char>> = Vec::new();
    let mut k: usize = 0;
    proof {
        assert(parts.take(0) =~= Seq::<Seq<char>>::empty());
        assert(views(kept@) =~= clean_paras(parts.take(0)));
    }
    while k < paras.len()
        invariant
            k <= paras@.len(),
            views(paras@) == parts,
            views(kept@) == clean_paras(parts.take(k as int)),
        decreases paras@.len() - k,
    {
        proof {
            assert(parts.take(k + 1).drop_last() =~= parts.take(k as int));
            assert(parts.take(k + 1).last() == parts[k as int]);
        }
        let trimmed = crate::segment::trim_sub(&paras[k], 0, paras[k].len());
        proof {
            assert(paras@[k as int]@.subrange(0, paras@[k as int]@.len() as int) =~= paras@[
                k as int
            ]@);
        }
        let cleaned = squash_exec(&trimmed);
        let ghost old_kept = views(kept@);
        if cleaned.len() > 0 {
            kept.push(cleaned);
            proof {
                assert(views(kept@) =~~= old_kept.push(para_clean(parts[k as int])));
            }
        }
        k = k + 1;
    }
    proof {
        assert(parts.take(parts.len() as int) =~= parts);
    }
    kept
}

fn join_paras_exec(kept: &Vec<Vec<char>>) -> (out: Vec<char>)
    ensures
        out@ == join_paras(views(kept@)),
{
    let mut out: Vec<char> = Vec::new();
    let ghost keptv = views(kept@);
    let mut j: usize = 0;
    while j < kept.len()
        invariant
            j <= kept@.len(),
            keptv == views(kept@),
            out@ == join_paras(keptv.take(j as int)),
        decreases kept@.len() - j,
    {
        proof {
            assert(keptv.take(j + 1).drop_last() =~= keptv.take(j as int));
            assert(keptv.take(j + 1).last() == keptv[j as int]);
            assert(keptv[j as int] == kept@[j as int]@);
        }
        if j > 0 {
            out.push('\n');
            out.push('\n');
            append_chars(&mut out, &kept[j]);
            proof {
                assert(out@ =~= join_paras(keptv.take(j as int)) + seq!['\n', '\n'] + keptv[
                    j as int
                ]);
            }
        } else {
            append_chars(&mut out, &kept[j]);
            proof {
                assert(out@ =~= keptv[0]);
                assert(join_paras(keptv.take(1)) == keptv.take(1)[0]);
            }
        }
        j = j + 1;
    }
    proof {
        assert(keptv.take(keptv.len() as int) =~= keptv);
    }
    out
}

/// Clean and normalize text: NFKC normalization, punctuation
/// standardization, control-character removal, and whitespace collapsing
/// with paragraph breaks preserved. Total: never fails.
pub fn clean_text(text: &str) -> (r: String)
    ensures
        r@ == clean_spec(text@),
{
    let norm = nfkc_str(text);
    let nv = chars_of(norm.as_str());
    let cv = canon_all(&nv);
    let fv = filter_all(&cv);
    let paras = split_paras_exec(&fv);
    let kept = clean_paras_exec(&paras);
    let out = join_paras_exec(&kept);
    string_of(&out)
}

} // verus!
