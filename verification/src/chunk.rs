//! The chunk assembler: consumes the sentence sequence in one greedy
//! forward pass and produces overlapping chunks bounded by a target size
//! in code points, carrying trailing context between chunks through an
//! overlap window of recent sentences.

use vstd::prelude::*;
use crate::text::{chars_of, string_of, strings_of, sub_chars, append_chars, views, str_views};
use crate::segment::{segment_spec, segment_chars};

verus! {

/// Sentences joined by a single space.
pub open spec fn sent_join(parts: Seq<Seq<char>>) -> Seq<char>
    decreases parts.len(),
{
    if parts.len() == 0 {
        Seq::empty()
    } else if parts.len() == 1 {
        parts[0]
    } else {
        parts[0] + seq![' '] + sent_join(parts.drop_first())
    }
}

pub proof fn lemma_sent_join_push(parts: Seq<Seq<char>>, p: Seq<char>)
    ensures
        parts.len() == 0 ==> sent_join(parts.push(p)) == p,
        parts.len() > 0 ==> sent_join(parts.push(p)) == sent_join(parts) + seq![' '] + p,
    decreases parts.len(),
{
    if parts.len() == 0 {
        assert(parts.push(p).len() == 1);
        assert(parts.push(p)[0] == p);
    } else if parts.len() == 1 {
        assert(parts.push(p).drop_first() =~= seq![p]);
        assert(sent_join(seq![p]) == p);
        assert(sent_join(parts.push(p)) == parts[0] + seq![' '] + p);
        assert(sent_join(parts) == parts[0]);
    } else {
        lemma_sent_join_push(parts.drop_first(), p);
        assert(parts.push(p).drop_first() =~= parts.drop_first().push(p));
        assert(sent_join(parts.push(p)) == parts[0] + seq![' '] + sent_join(
            parts.drop_first().push(p),
        ));
        assert((parts[0] + seq![' '] + (sent_join(parts.drop_first()) + seq![' '] + p)) =~= (
        parts[0] + seq![' '] + sent_join(parts.drop_first())) + seq![' '] + p);
    }
}

/// Running length of the overlap window: each sentence counts its own
/// length plus one separator.
pub open spec fn run_len(parts: Seq<Seq<char>>) -> nat
    decreases parts.len(),
{
    if parts.len() == 0 {
        0
    } else {
        parts[0].len() + 1 + run_len(parts.drop_first())
    }
}

pub proof fn lemma_run_len_push(parts: Seq<Seq<char>>, p: Seq<char>)
    ensures
        run_len(parts.push(p)) == run_len(parts) + p.len() + 1,
    decreases parts.len(),
{
    if parts.len() == 0 {
        assert(parts.push(p)[0] == p);
        assert(parts.push(p).drop_first() =~= Seq::<Seq<char>>::empty());
        assert(run_len(Seq::<Seq<char>>::empty()) == 0);
    } else {
        lemma_run_len_push(parts.drop_first(), p);
        assert(parts.push(p)[0] == parts[0]);
        assert(parts.push(p).drop_first() =~= parts.drop_first().push(p));
    }
}

pub proof fn lemma_run_len_concat(a: Seq<Seq<char>>, b: Seq<Seq<char>>)
    ensures
        run_len(a + b) == run_len(a) + run_len(b),
    decreases a.len(),
{
    if a.len() == 0 {
        assert(a + b =~= b);
    } else {
        lemma_run_len_concat(a.drop_first(), b);
        assert((a + b).drop_first() =~= a.drop_first() + b);
    }
}

/// Front-eviction of the overlap window: drop the oldest sentence while
/// the running length exceeds the overlap bound and more than one sentence
/// remains, so the window always retains the most recent sentence.
pub open spec fn trim_win(win: Seq<Seq<char>>, ov: nat) -> Seq<Seq<char>>
    decreases win.len(),
{
    if win.len() > 1 && run_len(win) > ov {
        trim_win(win.drop_first(), ov)
    } else {
        win
    }
}

/// State of the greedy assembly pass: the chunks already closed, the chunk
/// being grown, and the overlap window of recent sentences.
pub struct AsmState {
    pub chunks: Seq<Seq<char>>,
    pub cur: Seq<char>,
    pub win: Seq<Seq<char>>,
}

pub open spec fn asm_init() -> AsmState {
    AsmState { chunks: Seq::empty(), cur: Seq::empty(), win: Seq::empty() }
}

/// One sentence is placed: if appending would push the current chunk over
/// the target, the chunk is closed and reseeded as the join of the overlap
/// window (which is not cleared); the sentence is then appended to the
/// chunk and to the window, and the window is trimmed from the front.
pub open spec fn asm_step(st: AsmState, s: Seq<char>, target: nat, ov: nat) -> AsmState {
    let closed = if st.cur.len() > 0 && st.cur.len() + 1 + s.len() > target {
        AsmState { chunks: st.chunks.push(st.cur), cur: sent_join(st.win), win: st.win }
    } else {
        st
    };
    let appended = if closed.cur.len() == 0 {
        s
    } else {
        closed.cur + seq![' '] + s
    };
    AsmState { chunks: closed.chunks, cur: appended, win: trim_win(closed.win.push(s), ov) }
}

/// The assembly state after the first `i` sentences.
pub open spec fn asm_upto(sents: Seq<Seq<char>>, i: int, target: nat, ov: nat) -> AsmState
    decreases i,
{
    if i <= 0 || i > sents.len() {
        asm_init()
    } else {
        asm_step(asm_upto(sents, i - 1, target, ov), sents[i - 1], target, ov)
    }
}

/// The chunks produced from a non-empty sentence sequence: the state after
/// all sentences, with the still-open chunk closed if non-empty.
pub open spec fn assemble_spec(sents: Seq<Seq<char>>, target: nat, ov: nat) -> Seq<Seq<char>> {
    let st = asm_upto(sents, sents.len() as int, target, ov);
    if st.cur.len() > 0 {
        st.chunks.push(st.cur)
    } else {
        st.chunks
    }
}

/// Fixed-size code-point windows of exactly `target` length (the last may
/// be shorter): the fallback when the text has no sentence boundary at all.
pub open spec fn windows_spec(text: Seq<char>, target: nat) -> Seq<Seq<char>>
    decreases text.len(),
{
    if target == 0 || text.len() == 0 {
        Seq::empty()
    } else if text.len() <= target {
        seq![text]
    } else {
        seq![text.take(target as int)] + windows_spec(text.skip(target as int), target)
    }
}

/// The overlap bound actually used: clamped below the target so retained
/// context can never fill a whole chunk by itself.
pub open spec fn clamped_overlap(target: nat, overlap: nat) -> nat
    recommends
        target >= 1,
{
    if overlap + 1 <= target {
        overlap
    } else {
        (target - 1) as nat
    }
}

/// The chunk sequence for a text and a positive target size: empty text
/// gives no chunks; text without any sentence boundary is one chunk, or
/// fixed-size windows when longer than the target; otherwise the sentences
/// are assembled greedily with the clamped overlap.
pub open spec fn chunk_spec(text: Seq<char>, target: nat, overlap: nat) -> Seq<Seq<char>>
    recommends
        target >= 1,
{
    let ov = clamped_overlap(target, overlap);
    let sents = segment_spec(text);
    if text.len() == 0 {
        Seq::empty()
    } else if sents.len() == 0 {
        if text.len() <= target {
            seq![text]
        } else {
            windows_spec(text, target)
        }
    } else {
        assemble_spec(sents, target, ov)
    }
}

/// Whether the running length of `sents[from..to]` exceeds `ov`.
fn run_exceeds(sents: &Vec<Vec<char>>, from: usize, to: usize, ov: usize) -> (r: bool)
    requires
        from <= to <= sents@.len(),
    ensures
        r == (run_len(views(sents@).subrange(from as int, to as int)) > ov),
{
    let ghost s = views(sents@);
    let mut acc: usize = 0;
    let mut j: usize = from;
    while j < to
        invariant
            from <= j <= to <= sents@.len(),
            s == views(sents@),
            acc == run_len(s.subrange(from as int, j as int)),
        decreases to - j,
    {
        let l = sents[j].len();
        proof {
            assert(s[j as int] == sents@[j as int]@);
            assert(s.subrange(from as int, j + 1) =~= s.subrange(from as int, j as int).push(
                s[j as int],
            ));
            lemma_run_len_push(s.subrange(from as int, j as int), s[j as int]);
        }
        let next = match acc.checked_add(l) {
            Some(x) => x.checked_add(1),
            None => None,
        };
        match next {
            Some(n) => {
                acc = n;
            },
            None => {
                proof {
                    assert(s.subrange(from as int, to as int) =~= s.subrange(from as int, j + 1)
                        + s.subrange(j + 1, to as int));
                    lemma_run_len_concat(
                        s.subrange(from as int, j + 1),
                        s.subrange(j + 1, to as int),
                    );
                }
                return true;
            },
        }
        j = j + 1;
    }
    acc > ov
}

/// `sents[from..to]` joined by single spaces.
fn join_range(sents: &Vec<Vec<char>>, from: usize, to: usize) -> (r: Vec<char>)
    requires
        from <= to <= sents@.len(),
    ensures
        r@ == sent_join(views(sents@).subrange(from as int, to as int)),
{
    let ghost s = views(sents@);
    let mut r: Vec<char> = Vec::new();
    let mut j: usize = from;
    while j < to
        invariant
            from <= j <= to <= sents@.len(),
            s == views(sents@),
            r@ == sent_join(s.subrange(from as int, j as int)),
        decreases to - j,
    {
        proof {
            assert(s[j as int] == sents@[j as int]@);
            assert(s.subrange(from as int, j + 1) =~= s.subrange(from as int, j as int).push(
                s[j as int],
            ));
            lemma_sent_join_push(s.subrange(from as int, j as int), s[j as int]);
        }
        if j > from {
            r.push(' ');
            append_chars(&mut r, &sents[j]);
            proof {
                assert(r@ =~= sent_join(s.subrange(from as int, j as int)) + seq![' ']
                    + s[j as int]);
            }
        } else {
            append_chars(&mut r, &sents[j]);
            proof {
                assert(r@ =~= s[j as int]);
            }
        }
        j = j + 1;
    }
    r
}

/// Greedy assembly of sentences into chunks, exactly as `assemble_spec`
/// describes it. The overlap window is kept as the index range `w..i`
/// into the sentence list.
pub fn assemble(sents: &Vec<Vec<char>>, target: usize, ov: usize) -> (chunks: Vec<Vec<char>>)
    ensures
        views(chunks@) == assemble_spec(views(sents@), target as nat, ov as nat),
{
    let ghost s = views(sents@);
    let ghost t = target as nat;
    let ghost o = ov as nat;
    let mut chunks: Vec<Vec<char>> = Vec::new();
    let mut cur: Vec<char> = Vec::new();
    let mut w: usize = 0;
    let mut i: usize = 0;
    while i < sents.len()
        invariant
            w <= i <= sents@.len(),
            s == views(sents@),
            t == target as nat,
            o == ov as nat,
            views(chunks@) == asm_upto(s, i as int, t, o).chunks,
            cur@ == asm_upto(s, i as int, t, o).cur,
            s.subrange(w as int, i as int) == asm_upto(s, i as int, t, o).win,
        decreases s.len() - i,
    {
        let ghost pre = asm_upto(s, i as int, t, o);
        proof {
            assert(asm_upto(s, i + 1, t, o) == asm_step(pre, s[i as int], t, o));
            assert(s[i as int] == sents@[i as int]@);
        }
        let slen = sents[i].len();
        let over = match cur.len().checked_add(1) {
            Some(x) => match x.checked_add(slen) {
                Some(n) => n > target,
                None => true,
            },
            None => true,
        };
        let ghost closed = (if pre.cur.len() > 0 && pre.cur.len() + 1 + s[i as int].len() > t {
            AsmState { chunks: pre.chunks.push(pre.cur), cur: sent_join(pre.win), win: pre.win }
        } else {
            pre
        });
        proof {
            assert(over == (pre.cur.len() + 1 + s[i as int].len() > t));
        }
        if cur.len() > 0 && over {
            chunks.push(cur);
            cur = join_range(sents, w, i);
            proof {
                assert(views(chunks@) =~~= pre.chunks.push(pre.cur));
            }
        }
        proof {
            assert(views(chunks@) == closed.chunks);
            assert(cur@ == closed.cur);
        }
        if cur.len() == 0 {
            cur = sub_chars(&sents[i], 0, sents[i].len());
            proof {
                assert(cur@ =~= s[i as int]);
            }
        } else {
            cur.push(' ');
            append_chars(&mut cur, &sents[i]);
            proof {
                assert(cur@ =~= closed.cur + seq![' '] + s[i as int]);
            }
        }
        proof {
            assert(cur@ == asm_upto(s, i + 1, t, o).cur);
            assert(s.subrange(w as int, i + 1) =~= s.subrange(w as int, i as int).push(
                s[i as int],
            ));
        }
        let ghost pushed = s.subrange(w as int, i + 1);
        let ip = i + 1;
        let mut cont = ip - w > 1 && run_exceeds(sents, w, ip, ov);
        while cont
            invariant
                w < ip <= sents@.len(),
                s == views(sents@),
                cont == (ip - w > 1 && run_len(s.subrange(w as int, ip as int)) > o),
                trim_win(pushed, o) == trim_win(s.subrange(w as int, ip as int), o),
                o == ov as nat,
            decreases ip - w,
        {
            proof {
                assert(s.subrange(w as int, ip as int).drop_first() =~= s.subrange(
                    w + 1,
                    ip as int,
                ));
            }
            w = w + 1;
            cont = ip - w > 1 && run_exceeds(sents, w, ip, ov);
        }
        proof {
            assert(trim_win(s.subrange(w as int, i + 1), o) == s.subrange(w as int, i + 1));
            assert(s.subrange(w as int, i + 1) == asm_upto(s, i + 1, t, o).win);
        }
        i = i + 1;
    }
    if cur.len() > 0 {
        chunks.push(cur);
        proof {
            assert(views(chunks@) =~~= assemble_spec(s, t, o));
        }
    } else {
        proof {
            assert(views(chunks@) =~~= assemble_spec(s, t, o));
        }
    }
    chunks
}

/// `x` is a suffix of `c`.
pub open spec fn ends_with(c: Seq<char>, x: Seq<char>) -> bool {
    x.len() <= c.len() && c.subrange(c.len() - x.len(), c.len() as int) == x
}

/// `x` occurs verbatim somewhere in `c`.
pub open spec fn contains_sub(c: Seq<char>, x: Seq<char>) -> bool {
    exists|p: int| 0 <= p && p + x.len() <= c.len() && #[trigger] c.subrange(p, p + x.len()) == x
}

/// No sentence is empty.
pub open spec fn wf_sentences(s: Seq<Seq<char>>) -> bool {
    forall|j: int| 0 <= j < s.len() ==> (#[trigger] s[j]).len() > 0
}

pub proof fn lemma_trim_win_props(win: Seq<Seq<char>>, o: nat)
    requires
        win.len() >= 1,
    ensures
        trim_win(win, o).len() >= 1,
        trim_win(win, o).last() == win.last(),
        trim_win(win, o).len() > 1 ==> run_len(trim_win(win, o)) <= o,
    decreases win.len(),
{
    if win.len() > 1 && run_len(win) > o {
        lemma_trim_win_props(win.drop_first(), o);
        assert(win.drop_first().last() == win.last());
    }
}

pub proof fn lemma_join_run(parts: Seq<Seq<char>>)
    requires
        parts.len() >= 1,
    ensures
        sent_join(parts).len() + 1 == run_len(parts),
    decreases parts.len(),
{
    if parts.len() == 1 {
        assert(run_len(parts.drop_first()) == 0);
    } else {
        lemma_join_run(parts.drop_first());
    }
}

pub proof fn lemma_join_ends_with_last(parts: Seq<Seq<char>>)
    requires
        parts.len() >= 1,
    ensures
        ends_with(sent_join(parts), parts.last()),
    decreases parts.len(),
{
    let j = sent_join(parts);
    if parts.len() == 1 {
        assert(j == parts[0]);
        assert(j.subrange(0, j.len() as int) =~= j);
    } else {
        lemma_join_ends_with_last(parts.drop_first());
        let rest = sent_join(parts.drop_first());
        let x = parts.last();
        assert(parts.drop_first().last() == x);
        assert(j == parts[0] + seq![' '] + rest);
        assert(j.subrange(j.len() - x.len(), j.len() as int) =~= rest.subrange(
            rest.len() - x.len(),
            rest.len() as int,
        ));
    }
}

/// The core state invariants of the assembly pass: after any sentence, the
/// window is non-empty and ends with the last sentence placed, the current
/// chunk is non-empty and ends with that sentence, and a window holding
/// more than one sentence keeps its running length within the overlap.
pub proof fn lemma_asm_state(s: Seq<Seq<char>>, i: int, t: nat, o: nat)
    requires
        0 <= i <= s.len(),
        wf_sentences(s),
    ensures
        i == 0 ==> asm_upto(s, i, t, o) == asm_init(),
        i >= 1 ==> asm_upto(s, i, t, o).win.len() >= 1,
        i >= 1 ==> asm_upto(s, i, t, o).win.last() == s[i - 1],
        i >= 1 ==> asm_upto(s, i, t, o).cur.len() > 0,
        i >= 1 ==> ends_with(asm_upto(s, i, t, o).cur, s[i - 1]),
        asm_upto(s, i, t, o).win.len() > 1 ==> run_len(asm_upto(s, i, t, o).win) <= o,
    decreases i,
{
    if i >= 1 {
        lemma_asm_state(s, i - 1, t, o);
        let pre = asm_upto(s, i - 1, t, o);
        let st = asm_upto(s, i, t, o);
        let x = s[i - 1];
        assert(st == asm_step(pre, x, t, o));
        lemma_trim_win_props(pre.win.push(x), o);
        assert(pre.win.push(x).last() == x);
        let closed_cur = (if pre.cur.len() > 0 && pre.cur.len() + 1 + x.len() > t {
            sent_join(pre.win)
        } else {
            pre.cur
        });
        if closed_cur.len() == 0 {
            assert(st.cur == x);
            assert(x.subrange(0, x.len() as int) =~= x);
        } else {
            assert(st.cur == closed_cur + seq![' '] + x);
            assert(st.cur.subrange(st.cur.len() - x.len(), st.cur.len() as int) =~= x);
        }
    }
}

/// Sentence lengths under which no chunk can outgrow the target: each
/// sentence fits, a reseeded multi-sentence window plus a sentence fits,
/// and two adjacent sentences with their separator fit.
pub open spec fn sent_fits(s: Seq<Seq<char>>, t: nat, o: nat) -> bool {
    &&& forall|j: int| 0 <= j < s.len() ==> (#[trigger] s[j]).len() <= t
    &&& forall|j: int| 0 <= j < s.len() ==> o + (#[trigger] s[j]).len() <= t
    &&& forall|j: int| 1 <= j < s.len() ==> s[j - 1].len() + 1 + (#[trigger] s[j]).len() <= t
}

proof fn lemma_bounded_upto(s: Seq<Seq<char>>, i: int, t: nat, o: nat)
    requires
        0 <= i <= s.len(),
        t >= 1,
        wf_sentences(s),
        sent_fits(s, t, o),
    ensures
        asm_upto(s, i, t, o).cur.len() <= t,
        forall|k: int|
            0 <= k < asm_upto(s, i, t, o).chunks.len() ==> (#[trigger] asm_upto(
                s,
                i,
                t,
                o,
            ).chunks[k]).len() <= t,
    decreases i,
{
    if i >= 1 {
        lemma_bounded_upto(s, i - 1, t, o);
        lemma_asm_state(s, i - 1, t, o);
        let pre = asm_upto(s, i - 1, t, o);
        let st = asm_upto(s, i, t, o);
        let x = s[i - 1];
        assert(st == asm_step(pre, x, t, o));
        if pre.cur.len() > 0 && pre.cur.len() + 1 + x.len() > t {
            lemma_join_run(pre.win);
            let jn = sent_join(pre.win);
            if pre.win.len() == 1 {
                assert(jn == pre.win[0]);
                assert(pre.win[0] == pre.win.last());
                assert(pre.win.last() == s[i - 2]);
                assert(s[i - 2].len() + 1 + s[i - 1].len() <= t);
            } else {
                assert(run_len(pre.win) <= o);
                assert(jn.len() + 1 + x.len() <= o + x.len());
                assert(o + x.len() <= t);
            }
            assert(st.cur.len() <= t);
            assert forall|k: int| 0 <= k < st.chunks.len() implies (#[trigger] st.chunks[k]).len()
                <= t by {
                if k < pre.chunks.len() {
                    assert(st.chunks[k] == pre.chunks[k]);
                } else {
                    assert(st.chunks[k] == pre.cur);
                }
            }
        } else {
            if pre.cur.len() == 0 {
                assert(st.cur == x);
            } else {
                assert(st.cur == pre.cur + seq![' '] + x);
            }
        }
    }
}

/// Size law: when the sentences satisfy `sent_fits`, every chunk the
/// assembler produces stays within the target size.
pub proof fn lemma_chunks_bounded(s: Seq<Seq<char>>, t: nat, o: nat)
    requires
        t >= 1,
        wf_sentences(s),
        sent_fits(s, t, o),
    ensures
        forall|k: int|
            0 <= k < assemble_spec(s, t, o).len() ==> (#[trigger] assemble_spec(s, t, o)[k]).len()
                <= t,
{
    lemma_bounded_upto(s, s.len() as int, t, o);
    let st = asm_upto(s, s.len() as int, t, o);
    assert forall|k: int| 0 <= k < assemble_spec(s, t, o).len() implies (#[trigger] assemble_spec(
        s,
        t,
        o,
    )[k]).len() <= t by {
        if st.cur.len() > 0 && k == st.chunks.len() {
            assert(assemble_spec(s, t, o)[k] == st.cur);
        } else {
            assert(assemble_spec(s, t, o)[k] == st.chunks[k]);
        }
    }
}

/// The tail of `c1` and the head of `c2` share one identical sentence: some
/// sentence is a suffix of `c1` and occurs in `c2` ending at a position
/// within the overlap bound — or at its own length, when the sentence alone
/// is longer than the overlap.
pub open spec fn shares_sentence(c1: Seq<char>, c2: Seq<char>, s: Seq<Seq<char>>, o: nat) -> bool {
    exists|j: int, e: int|
        {
            &&& 0 <= j < s.len()
            &&& s[j].len() > 0
            &&& ends_with(c1, s[j])
            &&& s[j].len() <= e <= c2.len()
            &&& (e <= o || e == s[j].len())
            &&& #[trigger] c2.subrange(e - s[j].len(), e) == s[j]
        }
}

proof fn lemma_overlap_upto(s: Seq<Seq<char>>, i: int, t: nat, o: nat)
    requires
        0 <= i <= s.len(),
        wf_sentences(s),
    ensures
        forall|k: int|
            0 <= k < asm_upto(s, i, t, o).chunks.len() - 1 ==> shares_sentence(
                #[trigger] asm_upto(s, i, t, o).chunks[k],
                asm_upto(s, i, t, o).chunks[k + 1],
                s,
                o,
            ),
        asm_upto(s, i, t, o).chunks.len() > 0 ==> shares_sentence(
            asm_upto(s, i, t, o).chunks.last(),
            asm_upto(s, i, t, o).cur,
            s,
            o,
        ),
    decreases i,
{
    if i >= 1 {
        lemma_overlap_upto(s, i - 1, t, o);
        lemma_asm_state(s, i - 1, t, o);
        let pre = asm_upto(s, i - 1, t, o);
        let st = asm_upto(s, i, t, o);
        let x = s[i - 1];
        assert(st == asm_step(pre, x, t, o));
        if pre.cur.len() > 0 && pre.cur.len() + 1 + x.len() > t {
            // the chunk closes: the pair (last closed chunk, pushed chunk)
            // is the previous pending pair; the new pending pair shares the
            // sentence the window retained.
            assert(st.chunks == pre.chunks.push(pre.cur));
            assert forall|k: int| 0 <= k < st.chunks.len() - 1 implies shares_sentence(
                #[trigger] st.chunks[k],
                st.chunks[k + 1],
                s,
                o,
            ) by {
                if k < pre.chunks.len() - 1 {
                    assert(st.chunks[k] == pre.chunks[k]);
                    assert(st.chunks[k + 1] == pre.chunks[k + 1]);
                } else {
                    assert(st.chunks[k] == pre.chunks.last());
                    assert(st.chunks[k + 1] == pre.cur);
                }
            }
            lemma_join_run(pre.win);
            lemma_join_ends_with_last(pre.win);
            let jn = sent_join(pre.win);
            assert(jn.len() > 0);
            assert(st.cur == jn + seq![' '] + x);
            let sj = s[i - 2];
            assert(pre.win.last() == sj);
            let e = jn.len() as int;
            assert(jn.subrange(e - sj.len(), e) == sj);
            assert(st.cur.subrange(e - sj.len(), e) =~= jn.subrange(e - sj.len(), e));
            if pre.win.len() == 1 {
                assert(jn == pre.win[0]);
                assert(e == sj.len());
            } else {
                assert(run_len(pre.win) <= o);
                assert(e <= o);
            }
            assert(ends_with(pre.cur, sj));
            assert(shares_sentence(st.chunks.last(), st.cur, s, o));
        } else {
            // no close: the pending pair survives the append, since the
            // chunk only grows at its end.
            assert(st.chunks == pre.chunks);
            if pre.chunks.len() > 0 {
                assert(pre.cur.len() > 0);
                assert(st.cur == pre.cur + seq![' '] + x);
                let (j, e) = choose|j: int, e: int|
                    {
                        &&& 0 <= j < s.len()
                        &&& s[j].len() > 0
                        &&& ends_with(pre.chunks.last(), s[j])
                        &&& s[j].len() <= e <= pre.cur.len()
                        &&& (e <= o || e == s[j].len())
                        &&& #[trigger] pre.cur.subrange(e - s[j].len(), e) == s[j]
                    };
                assert(st.cur.subrange(e - s[j].len(), e) =~= pre.cur.subrange(
                    e - s[j].len(),
                    e,
                ));
                assert(shares_sentence(st.chunks.last(), st.cur, s, o));
            }
        }
    }
}

/// Overlap law: every two consecutive chunks the assembler produces share
/// one identical sentence — the tail sentence of the earlier chunk occurs
/// near the head of the later one, within the overlap bound unless that
/// sentence alone is longer than the overlap.
pub proof fn lemma_chunks_overlap(s: Seq<Seq<char>>, t: nat, o: nat)
    requires
        wf_sentences(s),
    ensures
        forall|k: int|
            0 <= k < assemble_spec(s, t, o).len() - 1 ==> shares_sentence(
                #[trigger] assemble_spec(s, t, o)[k],
                assemble_spec(s, t, o)[k + 1],
                s,
                o,
            ),
{
    lemma_overlap_upto(s, s.len() as int, t, o);
    let st = asm_upto(s, s.len() as int, t, o);
    let out = assemble_spec(s, t, o);
    assert forall|k: int| 0 <= k < out.len() - 1 implies shares_sentence(
        #[trigger] out[k],
        out[k + 1],
        s,
        o,
    ) by {
        if st.cur.len() > 0 {
            assert(out == st.chunks.push(st.cur));
            if k < st.chunks.len() - 1 {
                assert(out[k] == st.chunks[k]);
                assert(out[k + 1] == st.chunks[k + 1]);
            } else {
                assert(out[k] == st.chunks.last());
                assert(out[k + 1] == st.cur);
            }
        } else {
            assert(out == st.chunks);
        }
    }
}

/// A placement of sentences into chunks: `f[j]` is the chunk in which
/// sentence `j` occurs verbatim, and the placement never moves backwards.
pub open spec fn placement_ok(
    f: Seq<int>,
    s: Seq<Seq<char>>,
    n: int,
    chunks: Seq<Seq<char>>,
) -> bool {
    &&& f.len() == n
    &&& forall|j: int| 0 <= j < n ==> 0 <= #[trigger] f[j] < chunks.len()
    &&& forall|j1: int, j2: int| 0 <= j1 <= j2 < n ==> #[trigger] f[j1] <= #[trigger] f[j2]
    &&& forall|j: int| 0 <= j < n ==> contains_sub(chunks[#[trigger] f[j]], s[j])
}

/// As `placement_ok`, but while assembly is still running: a sentence may
/// sit in the still-open chunk, marked by the index one past the closed
/// chunks.
spec fn placement_pending(f: Seq<int>, s: Seq<Seq<char>>, n: int, st: AsmState) -> bool {
    &&& f.len() == n
    &&& forall|j: int| 0 <= j < n ==> 0 <= #[trigger] f[j] <= st.chunks.len()
    &&& forall|j1: int, j2: int| 0 <= j1 <= j2 < n ==> #[trigger] f[j1] <= #[trigger] f[j2]
    &&& forall|j: int|
        0 <= j < n ==> (if #[trigger] f[j] < st.chunks.len() {
            contains_sub(st.chunks[f[j]], s[j])
        } else {
            contains_sub(st.cur, s[j])
        })
}

proof fn lemma_placement_upto(s: Seq<Seq<char>>, i: int, t: nat, o: nat)
    requires
        0 <= i <= s.len(),
        wf_sentences(s),
    ensures
        exists|f: Seq<int>| #[trigger] placement_pending(f, s, i, asm_upto(s, i, t, o)),
    decreases i,
{
    let st = asm_upto(s, i, t, o);
    if i == 0 {
        let f = Seq::<int>::empty();
        assert(placement_pending(f, s, 0, st));
    } else {
        lemma_placement_upto(s, i - 1, t, o);
        lemma_asm_state(s, i - 1, t, o);
        let pre = asm_upto(s, i - 1, t, o);
        let x = s[i - 1];
        assert(st == asm_step(pre, x, t, o));
        let f0 = choose|f0: Seq<int>| #[trigger] placement_pending(f0, s, i - 1, pre);
        let f = f0.push(st.chunks.len() as int);
        // the sentence just placed sits at the end of the open chunk
        assert(ends_with(st.cur, x) && st.cur.len() >= x.len()) by {
            lemma_asm_state(s, i, t, o);
        }
        let pw = st.cur.len() - x.len();
        assert(st.cur.subrange(pw, pw + x.len()) == x);
        assert(contains_sub(st.cur, x));
        if pre.cur.len() > 0 && pre.cur.len() + 1 + x.len() > t {
            assert(st.chunks == pre.chunks.push(pre.cur));
            assert forall|j: int| 0 <= j < i implies (if #[trigger] f[j] < st.chunks.len() {
                contains_sub(st.chunks[f[j]], s[j])
            } else {
                contains_sub(st.cur, s[j])
            }) by {
                if j < i - 1 {
                    if f0[j] < pre.chunks.len() {
                        assert(st.chunks[f0[j]] == pre.chunks[f0[j]]);
                    } else {
                        assert(st.chunks[f0[j]] == pre.cur);
                    }
                }
            }
            assert(placement_pending(f, s, i, st));
        } else {
            assert(st.chunks == pre.chunks);
            assert forall|j: int| 0 <= j < i implies (if #[trigger] f[j] < st.chunks.len() {
                contains_sub(st.chunks[f[j]], s[j])
            } else {
                contains_sub(st.cur, s[j])
            }) by {
                if j < i - 1 && f0[j] == pre.chunks.len() {
                    // the open chunk only grew at its end
                    assert(contains_sub(pre.cur, s[j]));
                    let p = choose|p: int|
                        0 <= p && p + s[j].len() <= pre.cur.len()
                            && #[trigger] pre.cur.subrange(p, p + s[j].len()) == s[j];
                    assert(pre.cur.len() > 0);
                    assert(st.cur == pre.cur + seq![' '] + x);
                    assert(st.cur.subrange(p, p + s[j].len()) =~= pre.cur.subrange(
                        p,
                        p + s[j].len(),
                    ));
                    assert(contains_sub(st.cur, s[j]));
                }
            }
            assert(placement_pending(f, s, i, st));
        }
    }
}

/// Concatenation law: every sentence occurs verbatim in at least one chunk,
/// and the assignment of sentences to chunks follows the original sentence
/// order.
pub proof fn lemma_sentences_in_chunks(s: Seq<Seq<char>>, t: nat, o: nat)
    requires
        wf_sentences(s),
        s.len() > 0,
    ensures
        exists|f: Seq<int>| #[trigger] placement_ok(f, s, s.len() as int, assemble_spec(s, t, o)),
{
    let n = s.len() as int;
    lemma_placement_upto(s, n, t, o);
    lemma_asm_state(s, n, t, o);
    let st = asm_upto(s, n, t, o);
    let out = assemble_spec(s, t, o);
    assert(st.cur.len() > 0);
    assert(out == st.chunks.push(st.cur));
    let f = choose|f: Seq<int>| #[trigger] placement_pending(f, s, n, st);
    assert forall|j: int| 0 <= j < n implies 0 <= #[trigger] f[j] < out.len() && contains_sub(
        out[f[j]],
        s[j],
    ) by {
        if f[j] < st.chunks.len() {
            assert(out[f[j]] == st.chunks[f[j]]);
        } else {
            assert(out[f[j]] == st.cur);
        }
    }
    assert(placement_ok(f, s, n, out));
}

/// The fixed-size window fallback: code-point windows of `target` length.
fn windows_exec(v: &Vec<char>, target: usize) -> (out: Vec<Vec<char>>)
    requires
        target >= 1,
    ensures
        views(out@) == windows_spec(v@, target as nat),
{
    let mut out: Vec<Vec<char>> = Vec::new();
    let mut start: usize = 0;
    proof {
        assert(v@.skip(0) =~= v@);
        assert(views(out@) + windows_spec(v@, target as nat) =~= windows_spec(
            v@,
            target as nat,
        ));
    }
    while start < v.len()
        invariant
            start <= v@.len(),
            windows_spec(v@, target as nat) == views(out@) + windows_spec(
                v@.skip(start as int),
                target as nat,
            ),
            target >= 1,
        decreases v@.len() - start,
    {
        let ghost rest = v@.skip(start as int);
        let room = v.len() - start;
        let ghost old_out = views(out@);
        if room <= target {
            let piece = sub_chars(v, start, v.len());
            out.push(piece);
            proof {
                assert(rest =~= v@.subrange(start as int, v@.len() as int));
                assert(views(out@) =~~= old_out.push(rest));
                assert(windows_spec(rest, target as nat) == seq![rest]);
                assert(old_out + windows_spec(rest, target as nat) =~= views(out@)
                    + windows_spec(v@.skip(v@.len() as int), target as nat));
            }
            start = v.len();
        } else {
            let piece = sub_chars(v, start, start + target);
            out.push(piece);
            proof {
                assert(rest.take(target as int) =~= v@.subrange(
                    start as int,
                    start + target,
                ));
                assert(views(out@) =~~= old_out.push(rest.take(target as int)));
                assert(rest.skip(target as int) =~= v@.skip(start + target));
                assert(old_out + windows_spec(rest, target as nat) =~= views(out@)
                    + windows_spec(v@.skip(start + target), target as nat));
            }
            start = start + target;
        }
    }
    proof {
        assert(v@.skip(start as int).len() == 0);
        assert(views(out@) =~= views(out@) + windows_spec(v@.skip(start as int), target as nat));
    }
    out
}

pub proof fn lemma_windows_bounded(text: Seq<char>, target: nat)
    requires
        target >= 1,
    ensures
        forall|k: int|
            0 <= k < windows_spec(text, target).len() ==> (#[trigger] windows_spec(
                text,
                target,
            )[k]).len() <= target,
    decreases text.len(),
{
    if text.len() > target {
        lemma_windows_bounded(text.skip(target as int), target);
        let rest = windows_spec(text.skip(target as int), target);
        assert forall|k: int| 0 <= k < windows_spec(text, target).len() implies (
        #[trigger] windows_spec(text, target)[k]).len() <= target by {
            if k > 0 {
                assert(windows_spec(text, target)[k] == rest[k - 1]);
            } else {
                assert(windows_spec(text, target)[0] == text.take(target as int));
            }
        }
    }
}

/// Size law at the crate boundary: for a positive target, no chunk of
/// `chunk_spec` exceeds the target when the segmented sentences satisfy
/// `sent_fits` for the clamped overlap. Without that bound a chunk reseeded
/// from the overlap window can exceed the target even though every single
/// sentence fits it.
pub proof fn lemma_chunk_spec_bounded(text: Seq<char>, target: nat, overlap: nat)
    requires
        target >= 1,
        sent_fits(segment_spec(text), target, clamped_overlap(target, overlap)),
    ensures
        forall|k: int|
            0 <= k < chunk_spec(text, target, overlap).len() ==> (#[trigger] chunk_spec(
                text,
                target,
                overlap,
            )[k]).len() <= target,
{
    let sents = segment_spec(text);
    let ov = clamped_overlap(target, overlap);
    if text.len() == 0 {
    } else if sents.len() == 0 {
        if text.len() <= target {
        } else {
            lemma_windows_bounded(text, target);
        }
    } else {
        crate::segment::lemma_segment_wf(text);
        lemma_chunks_bounded(sents, target, ov);
    }
}

/// Overlap law at the crate boundary: whenever the text has sentences,
/// every two consecutive chunks of `chunk_spec` share one identical
/// sentence.
pub proof fn lemma_chunk_spec_overlap(text: Seq<char>, target: nat, overlap: nat)
    requires
        target >= 1,
        segment_spec(text).len() > 0,
    ensures
        forall|k: int|
            0 <= k < chunk_spec(text, target, overlap).len() - 1 ==> shares_sentence(
                #[trigger] chunk_spec(text, target, overlap)[k],
                chunk_spec(text, target, overlap)[k + 1],
                segment_spec(text),
                clamped_overlap(target, overlap),
            ),
{
    let sents = segment_spec(text);
    let ov = clamped_overlap(target, overlap);
    assert(text.len() > 0) by {
        if text.len() == 0 {
            assert(text.subrange(0, 0) =~= Seq::<char>::empty());
            assert(crate::segment::trim_spec(Seq::<char>::empty()) == Seq::<char>::empty());
            assert(segment_spec(text).len() == 0);
        }
    }
    crate::segment::lemma_segment_wf(text);
    lemma_chunks_overlap(sents, target, ov);
    assert(chunk_spec(text, target, overlap) == assemble_spec(sents, target, ov));
}

/// Concatenation law at the crate boundary: whenever the text has
/// sentences, every sentence occurs verbatim in a chunk of `chunk_spec`,
/// in original sentence order.
pub proof fn lemma_chunk_spec_coverage(text: Seq<char>, target: nat, overlap: nat)
    requires
        target >= 1,
        segment_spec(text).len() > 0,
    ensures
        exists|f: Seq<int>|
            #[trigger] placement_ok(
                f,
                segment_spec(text),
                segment_spec(text).len() as int,
                chunk_spec(text, target, overlap),
            ),
{
    let sents = segment_spec(text);
    let ov = clamped_overlap(target, overlap);
    assert(text.len() > 0) by {
        if text.len() == 0 {
            assert(text.subrange(0, 0) =~= Seq::<char>::empty());
            assert(crate::segment::trim_spec(Seq::<char>::empty()) == Seq::<char>::empty());
            assert(segment_spec(text).len() == 0);
        }
    }
    crate::segment::lemma_segment_wf(text);
    lemma_sentences_in_chunks(sents, target, ov);
    assert(chunk_spec(text, target, overlap) == assemble_spec(sents, target, ov));
}

/// The single error of the crate: a requested chunk size of zero.
#[derive(Clone, Copy, Debug, PartialEq, Eq, Structural)]
pub enum ChunkError {
    InvalidConfiguration,
}

/// Split text into chunks, or `None` when `target_size` is zero.
///
/// Sizes are in Unicode code points. The overlap is clamped below the
/// target. Empty text yields no chunks; text without a sentence boundary
/// is one chunk, or fixed-size windows when longer than the target.
pub fn chunk_text_impl(text: &str, target_size: usize, overlap: usize) -> (r: Option<
    Vec<String>,
>)
    ensures
        r is Some <==> target_size > 0,
        target_size > 0 ==> str_views(r.unwrap()@) == chunk_spec(
            text@,
            target_size as nat,
            overlap as nat,
        ),
        target_size > 0 && text@.len() == 0 ==> r.unwrap()@.len() == 0,
{
    if target_size == 0 {
        return None;
    }
    let ov = if overlap <= target_size - 1 {
        overlap
    } else {
        target_size - 1
    };
    let v = chars_of(text);
    if v.len() == 0 {
        let empty: Vec<String> = Vec::new();
        proof {
            assert(str_views(empty@) =~= chunk_spec(text@, target_size as nat, overlap as nat));
        }
        return Some(empty);
    }
    let sents = segment_chars(&v);
    if sents.len() == 0 {
        if v.len() <= target_size {
            let mut one: Vec<String> = Vec::new();
            one.push(string_of(&v));
            proof {
                assert(str_views(one@) =~~= seq![text@]);
            }
            return Some(one);
        }
        let wins = windows_exec(&v, target_size);
        return Some(strings_of(&wins));
    }
    let chunks = assemble(&sents, target_size, ov);
    Some(strings_of(&chunks))
}

/// Split text into chunks suitable for embedding, failing with the
/// invalid-configuration error exactly when `target_size` is zero.
pub fn chunk_text(text: &str, target_size: usize, overlap: usize) -> (r: Result<
    Vec<String>,
    ChunkError,
>)
    ensures
        r is Err <==> target_size == 0,
        r is Err ==> r == Result::<Vec<String>, ChunkError>::Err(ChunkError::InvalidConfiguration),
        r is Ok ==> str_views(r.unwrap()@) == chunk_spec(
            text@,
            target_size as nat,
            overlap as nat,
        ),
        target_size > 0 && text@.len() == 0 ==> r.unwrap()@.len() == 0,
{
    match chunk_text_impl(text, target_size, overlap) {
        Some(v) => Ok(v),
        None => Err(ChunkError::InvalidConfiguration),
    }
}

} // verus!
