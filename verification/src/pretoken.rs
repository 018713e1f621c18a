//! Special-token matching and coarse-word splitting.
//!
//! Added tokens are matched on the raw input first — longest match
//! first, earlier token on a tie — and their spans are protected from
//! normalization and splitting. A `single_word` token only matches
//! against whitespace or the string edge on both sides. The stretches
//! between matches are split, after normalization, into coarse words:
//! maximal runs of word characters and maximal runs of punctuation.

use vstd::prelude::*;
use crate::chars::{spec_is_skip, spec_is_word_char, is_skip, is_word_char};
use crate::normalize::NChar;

verus! {

/// A configured atomic token. `special` tokens may be dropped by the
/// decoder; a `single_word` token only matches at word boundaries.
pub struct AddedToken {
    pub chars: Vec<char>,
    pub special: bool,
    pub single_word: bool,
}

/// Token `j` matches the text at position `i`.
pub open spec fn spec_matches_at(toks: Seq<AddedToken>, text: Seq<char>, i: int, j: int) -> bool {
    let t = toks[j];
    let m = t.chars@.len() as int;
    &&& m > 0
    &&& 0 <= i
    &&& i + m <= text.len()
    &&& text.subrange(i, i + m) == t.chars@
    &&& (t.single_word ==> (i == 0 || spec_is_skip(text[i - 1])))
    &&& (t.single_word ==> (i + m == text.len() || spec_is_skip(text[i + m])))
}

/// Best match at `i` among tokens `0..j`: longest wins, the earlier
/// token on a tie.
pub open spec fn best_match_upto(toks: Seq<AddedToken>, text: Seq<char>, i: int, j: int) -> Option<
    int,
>
    decreases j,
{
    if j <= 0 {
        None
    } else {
        let prev = best_match_upto(toks, text, i, j - 1);
        if spec_matches_at(toks, text, i, j - 1) {
            match prev {
                None => Some(j - 1),
                Some(k) => if toks[j - 1].chars@.len() > toks[k].chars@.len() {
                    Some(j - 1)
                } else {
                    prev
                },
            }
        } else {
            prev
        }
    }
}

/// Best added-token match at position `i`.
pub open spec fn spec_best_match(toks: Seq<AddedToken>, text: Seq<char>, i: int) -> Option<int> {
    best_match_upto(toks, text, i, toks.len() as int)
}

/// The best match, when there is one, really is a match.
pub proof fn lemma_best_match_matches(toks: Seq<AddedToken>, text: Seq<char>, i: int, j: int, k: int)
    requires
        best_match_upto(toks, text, i, j) == Some(k),
        j <= toks.len(),
    ensures
        0 <= k < j,
        spec_matches_at(toks, text, i, k),
    decreases j,
{
    if j > 0 {
        if best_match_upto(toks, text, i, j - 1) == Some(k) {
            lemma_best_match_matches(toks, text, i, j - 1, k);
        }
    }
}

/// No match among `0..j` is longer than the best one.
pub proof fn lemma_best_match_longest(toks: Seq<AddedToken>, text: Seq<char>, i: int, j: int, q: int)
    requires
        0 <= q < j <= toks.len(),
        spec_matches_at(toks, text, i, q),
    ensures
        best_match_upto(toks, text, i, j) is Some,
        match best_match_upto(toks, text, i, j) {
            Some(k) => toks[k].chars@.len() >= toks[q].chars@.len(),
            None => false,
        },
    decreases j,
{
    if q < j - 1 {
        lemma_best_match_longest(toks, text, i, j - 1, q);
    }
}

/// Executable twin of [`spec_matches_at`].
#[verifier::loop_isolation(false)]
pub fn matches_at(toks: &Vec<AddedToken>, j: usize, text: &Vec<char>, i: usize) -> (r: bool)
    requires
        j < toks@.len(),
    ensures
        r == spec_matches_at(toks@, text@, i as int, j as int),
{
    let m = toks[j].chars.len();
    if m == 0 || i > text.len() || m > text.len() - i {
        return false;
    }
    let mut q: usize = 0;
    while q < m
        invariant
            j < toks@.len(),
            m == toks@[j as int].chars@.len(),
            i + m <= text@.len(),
            q <= m,
            forall|x: int| 0 <= x < q ==> text@[i + x] == toks@[j as int].chars@[x],
        decreases m - q,
    {
        if text[i + q] != toks[j].chars[q] {
            proof {
                assert(text@.subrange(i as int, i + m) != toks@[j as int].chars@) by {
                    assert(text@.subrange(i as int, i + m)[q as int] == text@[i + q]);
                }
            }
            return false;
        }
        q += 1;
    }
    proof {
        assert(text@.subrange(i as int, i + m) =~= toks@[j as int].chars@);
    }
    if toks[j].single_word {
        if !(i == 0 || is_skip(text[i - 1])) {
            return false;
        }
        if !(i + m == text.len() || is_skip(text[i + m])) {
            return false;
        }
    }
    true
}

/// Executable twin of [`spec_best_match`].
#[verifier::loop_isolation(false)]
pub fn best_match(toks: &Vec<AddedToken>, text: &Vec<char>, i: usize) -> (r: Option<usize>)
    ensures
        match r {
            Some(k) => spec_best_match(toks@, text@, i as int) == Some(k as int) && k < toks@.len(),
            None => spec_best_match(toks@, text@, i as int) is None,
        },
{
    let n = toks.len();
    let mut best: Option<usize> = None;
    let mut j: usize = 0;
    while j < n
        invariant
            n == toks@.len(),
            j <= n,
            match best {
                Some(k) => best_match_upto(toks@, text@, i as int, j as int) == Some(k as int) && k
                    < n,
                None => best_match_upto(toks@, text@, i as int, j as int) is None,
            },
        decreases n - j,
    {
        let is_m = matches_at(toks, j, text, i);
        if is_m {
            match best {
                None => {
                    best = Some(j);
                },
                Some(k) => {
                    if toks[j].chars.len() > toks[k].chars.len() {
                        best = Some(j);
                    }
                },
            }
        }
        j += 1;
    }
    best
}

/// One segment of the input: a protected added-token occurrence, or a
/// raw stretch destined for normalization and splitting.
#[derive(Clone, Copy, PartialEq, Eq, Structural, Debug)]
pub enum Segment {
    Atomic { tok: usize, start: usize, end: usize },
    Raw { start: usize, end: usize },
}

/// Segmentation of `text[i..]`; `p` is the start of the pending raw
/// stretch (`p == i` when none is pending).
pub open spec fn seg_rec(text: Seq<char>, toks: Seq<AddedToken>, i: int, p: int) -> Seq<Segment>
    decreases text.len() - i,
{
    if i < 0 || i >= text.len() {
        if p < i {
            seq![Segment::Raw { start: p as usize, end: i as usize }]
        } else {
            Seq::empty()
        }
    } else {
        match spec_best_match(toks, text, i) {
            Some(k) => {
                let m = toks[k].chars@.len() as int;
                if 1 <= m && i + m <= text.len() {
                    let atom = Segment::Atomic {
                        tok: k as usize,
                        start: i as usize,
                        end: (i + m) as usize,
                    };
                    if p < i {
                        seq![Segment::Raw { start: p as usize, end: i as usize }, atom] + seg_rec(
                            text,
                            toks,
                            i + m,
                            i + m,
                        )
                    } else {
                        seq![atom] + seg_rec(text, toks, i + m, i + m)
                    }
                } else {
                    seg_rec(text, toks, i + 1, p)
                }
            },
            None => seg_rec(text, toks, i + 1, p),
        }
    }
}

/// Segmentation of the whole input.
pub open spec fn spec_segments(text: Seq<char>, toks: Seq<AddedToken>) -> Seq<Segment> {
    seg_rec(text, toks, 0, 0)
}

/// Every segment is a well-formed span of the text.
pub open spec fn seg_wf(text: Seq<char>, toks: Seq<AddedToken>, seg: Segment) -> bool {
    match seg {
        Segment::Atomic { tok, start, end } => {
            &&& tok < toks.len()
            &&& start < end <= text.len()
            &&& toks[tok as int].chars@.len() == end - start
        },
        Segment::Raw { start, end } => start < end <= text.len(),
    }
}

proof fn lemma_seg_step_match(text: Seq<char>, toks: Seq<AddedToken>, i: int, p: int, k: int)
    requires
        0 <= p <= i < text.len(),
        spec_best_match(toks, text, i) == Some(k),
        0 <= k < toks.len(),
        1 <= toks[k].chars@.len(),
        i + toks[k].chars@.len() <= text.len(),
    ensures
        seg_rec(text, toks, i, p) == (if p < i {
            seq![
                Segment::Raw { start: p as usize, end: i as usize },
                Segment::Atomic {
                    tok: k as usize,
                    start: i as usize,
                    end: (i + toks[k].chars@.len()) as usize,
                },
            ]
        } else {
            seq![
                Segment::Atomic {
                    tok: k as usize,
                    start: i as usize,
                    end: (i + toks[k].chars@.len()) as usize,
                },
            ]
        }) + seg_rec(
            text,
            toks,
            i + toks[k].chars@.len(),
            i + toks[k].chars@.len(),
        ),
{
}

proof fn lemma_seg_step_nomatch(text: Seq<char>, toks: Seq<AddedToken>, i: int, p: int)
    requires
        0 <= p <= i < text.len(),
        spec_best_match(toks, text, i) is None,
    ensures
        seg_rec(text, toks, i, p) == seg_rec(text, toks, i + 1, p),
{
}

proof fn lemma_seg_end(text: Seq<char>, toks: Seq<AddedToken>, p: int)
    requires
        0 <= p <= text.len(),
    ensures
        seg_rec(text, toks, text.len() as int, p) == (if p < text.len() {
            seq![Segment::Raw { start: p as usize, end: text.len() as usize }]
        } else {
            Seq::<Segment>::empty()
        }),
{
}

/// Split the input into protected added-token spans and raw stretches.
#[verifier::loop_isolation(false)]
pub fn find_segments(text: &Vec<char>, toks: &Vec<AddedToken>) -> (r: Vec<Segment>)
    ensures
        r@ == spec_segments(text@, toks@),
        forall|q: int| 0 <= q < r@.len() ==> seg_wf(text@, toks@, #[trigger] r@[q]),
{
    let n = text.len();
    let mut r: Vec<Segment> = Vec::new();
    let mut i: usize = 0;
    let mut p: usize = 0;
    while i < n
        invariant
            n == text@.len(),
            p <= i <= n,
            r@ + seg_rec(text@, toks@, i as int, p as int) == spec_segments(text@, toks@),
            forall|q: int| 0 <= q < r@.len() ==> seg_wf(text@, toks@, #[trigger] r@[q]),
        decreases n - i,
    {
        let ghost prev = r@;
        let ghost rest = seg_rec(text@, toks@, i as int, p as int);
        match best_match(toks, text, i) {
            Some(k) => {
                proof {
                    lemma_best_match_matches(toks@, text@, i as int, toks@.len() as int, k as int);
                }
                let m = toks[k].chars.len();
                proof {
                    lemma_seg_step_match(text@, toks@, i as int, p as int, k as int);
                }
                let atom = Segment::Atomic { tok: k, start: i, end: i + m };
                if p < i {
                    r.push(Segment::Raw { start: p, end: i });
                }
                r.push(atom);
                proof {
                    let tail = seg_rec(text@, toks@, i + m, i + m);
                    assert(r@ + tail =~= prev + rest);
                }
                i += m;
                p = i;
            },
            None => {
                proof {
                    lemma_seg_step_nomatch(text@, toks@, i as int, p as int);
                }
                i += 1;
            },
        }
    }
    proof {
        lemma_seg_end(text@, toks@, p as int);
    }
    if p < n {
        r.push(Segment::Raw { start: p, end: n });
        proof {
            assert(r@ =~= spec_segments(text@, toks@));
        }
    } else {
        proof {
            assert(r@ + Seq::<Segment>::empty() =~= r@);
        }
    }
    r
}

/// Coarse-word ranges of `s[j..]`; `rs` is the start of the pending
/// run (`rs == j` when none is pending). A run breaks at a space and
/// where the character class (word vs punctuation) changes.
pub open spec fn split_rec(s: Seq<NChar>, j: int, rs: int) -> Seq<(usize, usize)>
    decreases s.len() - j,
{
    if j < 0 || j >= s.len() {
        if rs < j {
            seq![(rs as usize, j as usize)]
        } else {
            Seq::empty()
        }
    } else {
        let c = s[j].c;
        if c == ' ' {
            if rs < j {
                seq![(rs as usize, j as usize)] + split_rec(s, j + 1, j + 1)
            } else {
                split_rec(s, j + 1, j + 1)
            }
        } else if rs < j && spec_is_word_char(s[j - 1].c) != spec_is_word_char(c) {
            seq![(rs as usize, j as usize)] + split_rec(s, j + 1, j)
        } else {
            split_rec(s, j + 1, rs)
        }
    }
}

/// Coarse-word ranges of a normalized span.
pub open spec fn spec_words(s: Seq<NChar>) -> Seq<(usize, usize)> {
    split_rec(s, 0, 0)
}

proof fn lemma_split_space(s: Seq<NChar>, j: int, rs: int)
    requires
        0 <= rs <= j < s.len(),
        s[j].c == ' ',
    ensures
        split_rec(s, j, rs) == (if rs < j {
            seq![(rs as usize, j as usize)] + split_rec(s, j + 1, j + 1)
        } else {
            split_rec(s, j + 1, j + 1)
        }),
{
}

proof fn lemma_split_break(s: Seq<NChar>, j: int, rs: int)
    requires
        0 <= rs <= j < s.len(),
        s[j].c != ' ',
        rs < j && spec_is_word_char(s[j - 1].c) != spec_is_word_char(s[j].c),
    ensures
        split_rec(s, j, rs) == seq![(rs as usize, j as usize)] + split_rec(s, j + 1, j),
{
}

proof fn lemma_split_cont(s: Seq<NChar>, j: int, rs: int)
    requires
        0 <= rs <= j < s.len(),
        s[j].c != ' ',
        !(rs < j && spec_is_word_char(s[j - 1].c) != spec_is_word_char(s[j].c)),
    ensures
        split_rec(s, j, rs) == split_rec(s, j + 1, rs),
{
}

proof fn lemma_split_end(s: Seq<NChar>, rs: int)
    requires
        0 <= rs <= s.len(),
    ensures
        split_rec(s, s.len() as int, rs) == (if rs < s.len() {
            seq![(rs as usize, s.len() as usize)]
        } else {
            Seq::<(usize, usize)>::empty()
        }),
{
}

/// Split a normalized span into coarse words.
#[verifier::loop_isolation(false)]
pub fn split_words(s: &Vec<NChar>) -> (r: Vec<(usize, usize)>)
    ensures
        r@ == spec_words(s@),
        forall|q: int| 0 <= q < r@.len() ==> 0 <= (#[trigger] r@[q]).0 < r@[q].1 <= s@.len(),
{
    let n = s.len();
    let mut r: Vec<(usize, usize)> = Vec::new();
    let mut j: usize = 0;
    let mut rs: usize = 0;
    while j < n
        invariant
            n == s@.len(),
            rs <= j <= n,
            r@ + split_rec(s@, j as int, rs as int) == spec_words(s@),
            forall|q: int| 0 <= q < r@.len() ==> 0 <= (#[trigger] r@[q]).0 < r@[q].1 <= s@.len(),
        decreases n - j,
    {
        let ghost prev = r@;
        let ghost rest = split_rec(s@, j as int, rs as int);
        let c = s[j].c;
        if c == ' ' {
            proof {
                lemma_split_space(s@, j as int, rs as int);
            }
            if rs < j {
                r.push((rs, j));
                proof {
                    assert(r@ + split_rec(s@, j + 1, j + 1) =~= prev + rest);
                }
            }
            j += 1;
            rs = j;
        } else if rs < j && (is_word_char(s[j - 1].c) != is_word_char(c)) {
            proof {
                lemma_split_break(s@, j as int, rs as int);
            }
            r.push((rs, j));
            proof {
                assert(r@ + split_rec(s@, j + 1, j as int) =~= prev + rest);
            }
            rs = j;
            j += 1;
        } else {
            proof {
                lemma_split_cont(s@, j as int, rs as int);
            }
            j += 1;
        }
    }
    proof {
        lemma_split_end(s@, rs as int);
    }
    if rs < n {
        r.push((rs, n));
        proof {
            assert(r@ =~= spec_words(s@));
        }
    } else {
        proof {
            assert(r@ + Seq::<(usize, usize)>::empty() =~= r@);
        }
    }
    r
}

} // verus!
