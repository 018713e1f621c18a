//! Text normalization with offset tracking.
//!
//! A normalized span is a sequence of characters, each carrying the
//! half-open range of positions in the original input it came from.
//! One left-to-right pass applies, in order: surrounding every CJK
//! ideograph with spaces, dropping combining marks, ASCII case folding,
//! and collapsing runs of whitespace/control characters to single
//! spaces with both ends trimmed. Inserted spaces carry a zero-width
//! range, so they never widen a token's offsets.

use vstd::prelude::*;
use crate::chars::{
    spec_is_cjk, spec_is_combining_mark, spec_is_skip, spec_lower, is_cjk, is_combining_mark,
    is_skip, lower,
};

verus! {

/// One normalized character and the original-input character range
/// `[start, end)` it resolves to.
#[derive(Clone, Copy, PartialEq, Eq, Structural, Debug)]
pub struct NChar {
    pub c: char,
    pub start: usize,
    pub end: usize,
}

/// Which normalization steps are switched on.
#[derive(Clone, Copy, PartialEq, Eq, Structural, Debug)]
pub struct NormFlags {
    pub do_lower: bool,
    pub strip_accents: bool,
    pub handle_cjk: bool,
}

/// A space inserted at input position `base + i`, zero-width.
pub open spec fn space_at(base: int, i: int) -> NChar {
    NChar { c: ' ', start: (base + i) as usize, end: (base + i) as usize }
}

/// Character `c` standing for the input character at `base + i`.
pub open spec fn char_at(c: char, base: int, i: int) -> NChar {
    NChar { c: c, start: (base + i) as usize, end: (base + i + 1) as usize }
}

/// The character as the case-folding step leaves it.
pub open spec fn norm_char(c0: char, f: NormFlags) -> char {
    if f.do_lower {
        spec_lower(c0)
    } else {
        c0
    }
}

/// Normalization of `raw[i..]`, where `raw` sits at position `base` of
/// the original input. `started` records whether anything has been
/// emitted (so leading whitespace is trimmed), `pending` whether a
/// space is owed before the next visible character.
pub open spec fn norm_rec(
    raw: Seq<char>,
    base: int,
    i: int,
    started: bool,
    pending: bool,
    f: NormFlags,
) -> Seq<NChar>
    decreases raw.len() - i,
{
    if i < 0 || i >= raw.len() {
        Seq::empty()
    } else {
        let c0 = raw[i];
        if f.strip_accents && spec_is_combining_mark(c0) {
            norm_rec(raw, base, i + 1, started, pending, f)
        } else if spec_is_skip(c0) {
            norm_rec(raw, base, i + 1, started, true, f)
        } else if f.handle_cjk && spec_is_cjk(c0) {
            if started {
                seq![space_at(base, i), char_at(norm_char(c0, f), base, i)] + norm_rec(
                    raw,
                    base,
                    i + 1,
                    true,
                    true,
                    f,
                )
            } else {
                seq![char_at(norm_char(c0, f), base, i)] + norm_rec(raw, base, i + 1, true, true, f)
            }
        } else {
            if started && pending {
                seq![space_at(base, i), char_at(norm_char(c0, f), base, i)] + norm_rec(
                    raw,
                    base,
                    i + 1,
                    true,
                    false,
                    f,
                )
            } else {
                seq![char_at(norm_char(c0, f), base, i)] + norm_rec(
                    raw,
                    base,
                    i + 1,
                    true,
                    false,
                    f,
                )
            }
        }
    }
}

/// Normalization of a whole span.
pub open spec fn norm_spec(raw: Seq<char>, base: int, f: NormFlags) -> Seq<NChar> {
    norm_rec(raw, base, 0, false, false, f)
}

proof fn lemma_step_mark(raw: Seq<char>, base: int, i: int, started: bool, pending: bool, f: NormFlags)
    requires
        0 <= i < raw.len(),
        f.strip_accents && spec_is_combining_mark(raw[i]),
    ensures
        norm_rec(raw, base, i, started, pending, f) == norm_rec(raw, base, i + 1, started, pending, f),
{
}

proof fn lemma_step_skip(raw: Seq<char>, base: int, i: int, started: bool, pending: bool, f: NormFlags)
    requires
        0 <= i < raw.len(),
        !(f.strip_accents && spec_is_combining_mark(raw[i])),
        spec_is_skip(raw[i]),
    ensures
        norm_rec(raw, base, i, started, pending, f) == norm_rec(raw, base, i + 1, started, true, f),
{
}

proof fn lemma_step_cjk(raw: Seq<char>, base: int, i: int, started: bool, pending: bool, f: NormFlags)
    requires
        0 <= i < raw.len(),
        !(f.strip_accents && spec_is_combining_mark(raw[i])),
        !spec_is_skip(raw[i]),
        f.handle_cjk && spec_is_cjk(raw[i]),
    ensures
        started ==> norm_rec(raw, base, i, started, pending, f) == seq![
            space_at(base, i),
            char_at(norm_char(raw[i], f), base, i),
        ] + norm_rec(raw, base, i + 1, true, true, f),
        !started ==> norm_rec(raw, base, i, started, pending, f) == seq![
            char_at(norm_char(raw[i], f), base, i),
        ] + norm_rec(raw, base, i + 1, true, true, f),
{
}

proof fn lemma_step_plain(raw: Seq<char>, base: int, i: int, started: bool, pending: bool, f: NormFlags)
    requires
        0 <= i < raw.len(),
        !(f.strip_accents && spec_is_combining_mark(raw[i])),
        !spec_is_skip(raw[i]),
        !(f.handle_cjk && spec_is_cjk(raw[i])),
    ensures
        started && pending ==> norm_rec(raw, base, i, started, pending, f) == seq![
            space_at(base, i),
            char_at(norm_char(raw[i], f), base, i),
        ] + norm_rec(raw, base, i + 1, true, false, f),
        !(started && pending) ==> norm_rec(raw, base, i, started, pending, f) == seq![
            char_at(norm_char(raw[i], f), base, i),
        ] + norm_rec(raw, base, i + 1, true, false, f),
{
}

/// Normalize `raw[lo..hi]`, producing characters whose offsets point
/// back into `raw`.
#[verifier::loop_isolation(false)]
pub fn normalize_span(raw: &Vec<char>, lo: usize, hi: usize, f: NormFlags) -> (r: Vec<NChar>)
    requires
        lo <= hi <= raw@.len(),
    ensures
        r@ == norm_spec(raw@.subrange(lo as int, hi as int), lo as int, f),
{
    let ghost sub = raw@.subrange(lo as int, hi as int);
    let ghost goal = norm_spec(sub, lo as int, f);
    let n = hi - lo;
    let mut r: Vec<NChar> = Vec::new();
    let mut i: usize = 0;
    let mut started = false;
    let mut pending = false;
    while i < n
        invariant
            i <= n,
            r@ + norm_rec(sub, lo as int, i as int, started, pending, f) == goal,
        decreases n - i,
    {
        let c0 = raw[lo + i];
        proof {
            assert(sub[i as int] == raw@[lo + i]);
        }
        let c = if f.do_lower {
            lower(c0)
        } else {
            c0
        };
        let ghost prev = r@;
        let ghost rest = norm_rec(sub, lo as int, i as int, started, pending, f);
        if f.strip_accents && is_combining_mark(c0) {
            proof {
                lemma_step_mark(sub, lo as int, i as int, started, pending, f);
            }
        } else if is_skip(c0) {
            proof {
                lemma_step_skip(sub, lo as int, i as int, started, pending, f);
            }
            pending = true;
        } else if f.handle_cjk && is_cjk(c0) {
            let sp = NChar { c: ' ', start: lo + i, end: lo + i };
            let ch = NChar { c, start: lo + i, end: lo + i + 1 };
            proof {
                lemma_step_cjk(sub, lo as int, i as int, started, pending, f);
                assert(sp == space_at(lo as int, i as int));
                assert(ch == char_at(norm_char(sub[i as int], f), lo as int, i as int));
            }
            if started {
                r.push(sp);
            }
            r.push(ch);
            proof {
                let tail = norm_rec(sub, lo as int, i + 1, true, true, f);
                assert(r@ + tail =~= prev + rest);
            }
            started = true;
            pending = true;
        } else {
            let sp = NChar { c: ' ', start: lo + i, end: lo + i };
            let ch = NChar { c, start: lo + i, end: lo + i + 1 };
            proof {
                lemma_step_plain(sub, lo as int, i as int, started, pending, f);
                assert(sp == space_at(lo as int, i as int));
                assert(ch == char_at(norm_char(sub[i as int], f), lo as int, i as int));
            }
            if started && pending {
                r.push(sp);
            }
            r.push(ch);
            proof {
                let tail = norm_rec(sub, lo as int, i + 1, true, false, f);
                assert(r@ + tail =~= prev + rest);
            }
            started = true;
            pending = false;
        }
        i += 1;
    }
    proof {
        assert(norm_rec(sub, lo as int, n as int, started, pending, f) == Seq::<NChar>::empty());
        assert(r@ + Seq::<NChar>::empty() =~= r@);
    }
    r
}

} // verus!
