//! The encoding assembler: the full pipeline for one input string.
//!
//! Added-token occurrences are carved out of the raw input first; each
//! protected span becomes one atomic piece under the token's own id.
//! Every raw stretch in between is normalized, split into coarse
//! words, and each word is segmented by the WordPiece model. The
//! pieces are concatenated in input order — no reordering, no padding.

use vstd::prelude::*;
use crate::normalize::{NChar, NormFlags, norm_spec, normalize_span};
use crate::pretoken::{
    AddedToken, Segment, spec_segments, spec_words, find_segments, split_words, seg_wf,
    spec_matches_at, lemma_best_match_matches, lemma_best_match_longest, spec_best_match, seg_rec,
};
use crate::vocab::{Vocabulary, spec_has_token, str_chars};
use crate::wordpiece::{
    GPiece, Piece, pieces_view, wp_spec, wp_word, id_or, lemma_id_found,
};

verus! {

/// The error taxonomy of the service boundary.
#[derive(Clone, Copy, PartialEq, Eq, Structural, Debug)]
pub enum TokError {
    /// The vocabulary could not be used: the unknown token is missing
    /// or the table cannot be indexed.
    VocabLoad,
    /// Tokenize was called on an empty registry.
    Uninitialized,
    /// An added token has no vocabulary id.
    EncodeFailure,
    /// An id outside the vocabulary was decoded.
    DecodeFailure,
}

/// Pieces of the coarse words `rgs` of a normalized span.
pub open spec fn words_pieces(
    v: Seq<Seq<char>>,
    pre: Seq<char>,
    unk: int,
    max: int,
    span: Seq<NChar>,
    rgs: Seq<(usize, usize)>,
) -> Seq<GPiece>
    decreases rgs.len(),
{
    if rgs.len() == 0 {
        Seq::empty()
    } else {
        wp_spec(v, pre, unk, max, span.subrange(rgs[0].0 as int, rgs[0].1 as int)) + words_pieces(
            v,
            pre,
            unk,
            max,
            span,
            rgs.drop_first(),
        )
    }
}

/// Pieces of one segment: an atomic piece for a protected span, the
/// WordPiece output of every coarse word for a raw stretch.
pub open spec fn seg_pieces(
    v: Seq<Seq<char>>,
    pre: Seq<char>,
    unk: int,
    max: int,
    f: NormFlags,
    toks: Seq<AddedToken>,
    text: Seq<char>,
    seg: Segment,
) -> Seq<GPiece> {
    match seg {
        Segment::Atomic { tok, start, end } => {
            let t = toks[tok as int].chars@;
            seq![GPiece { tok: t, id: id_or(v, t, 0), start: start as int, end: end as int }]
        },
        Segment::Raw { start, end } => {
            let span = norm_spec(text.subrange(start as int, end as int), start as int, f);
            words_pieces(v, pre, unk, max, span, spec_words(span))
        },
    }
}

/// Pieces of a sequence of segments, in order.
pub open spec fn segs_pieces(
    v: Seq<Seq<char>>,
    pre: Seq<char>,
    unk: int,
    max: int,
    f: NormFlags,
    toks: Seq<AddedToken>,
    text: Seq<char>,
    segs: Seq<Segment>,
) -> Seq<GPiece>
    decreases segs.len(),
{
    if segs.len() == 0 {
        Seq::empty()
    } else {
        seg_pieces(v, pre, unk, max, f, toks, text, segs[0]) + segs_pieces(
            v,
            pre,
            unk,
            max,
            f,
            toks,
            text,
            segs.drop_first(),
        )
    }
}

/// The encoding of one input.
pub open spec fn spec_encode(
    v: Seq<Seq<char>>,
    pre: Seq<char>,
    unk: int,
    max: int,
    f: NormFlags,
    toks: Seq<AddedToken>,
    text: Seq<char>,
) -> Seq<GPiece> {
    segs_pieces(v, pre, unk, max, f, toks, text, spec_segments(text, toks))
}

/// A segment can be given an id: always for a raw stretch, and for a
/// protected span exactly when the added token is in the vocabulary.
pub open spec fn seg_ok(v: Seq<Seq<char>>, toks: Seq<AddedToken>, seg: Segment) -> bool {
    match seg {
        Segment::Atomic { tok, .. } => spec_has_token(v, toks[tok as int].chars@),
        Segment::Raw { .. } => true,
    }
}

/// Encoding succeeds: every matched added token has a vocabulary id.
pub open spec fn spec_encode_ok(v: Seq<Seq<char>>, toks: Seq<AddedToken>, text: Seq<char>) -> bool {
    let segs = spec_segments(text, toks);
    forall|q: int| 0 <= q < segs.len() ==> seg_ok(v, toks, #[trigger] segs[q])
}

proof fn lemma_segs_skip(
    v: Seq<Seq<char>>,
    pre: Seq<char>,
    unk: int,
    max: int,
    f: NormFlags,
    toks: Seq<AddedToken>,
    text: Seq<char>,
    segs: Seq<Segment>,
    si: int,
)
    requires
        0 <= si < segs.len(),
    ensures
        segs_pieces(v, pre, unk, max, f, toks, text, segs.skip(si)) == seg_pieces(
            v,
            pre,
            unk,
            max,
            f,
            toks,
            text,
            segs[si],
        ) + segs_pieces(v, pre, unk, max, f, toks, text, segs.skip(si + 1)),
{
    assert(segs.skip(si).len() == segs.len() - si);
    assert(segs.skip(si)[0] == segs[si]);
    assert(segs.skip(si).drop_first() =~= segs.skip(si + 1));
}

proof fn lemma_words_skip(
    v: Seq<Seq<char>>,
    pre: Seq<char>,
    unk: int,
    max: int,
    span: Seq<NChar>,
    rgs: Seq<(usize, usize)>,
    wi: int,
)
    requires
        0 <= wi < rgs.len(),
    ensures
        words_pieces(v, pre, unk, max, span, rgs.skip(wi)) == wp_spec(
            v,
            pre,
            unk,
            max,
            span.subrange(rgs[wi].0 as int, rgs[wi].1 as int),
        ) + words_pieces(v, pre, unk, max, span, rgs.skip(wi + 1)),
{
    assert(rgs.skip(wi).len() == rgs.len() - wi);
    assert(rgs.skip(wi)[0] == rgs[wi]);
    assert(rgs.skip(wi).drop_first() =~= rgs.skip(wi + 1));
}

proof fn lemma_pieces_view_push(ps: Seq<Piece>, p: Piece)
    ensures
        pieces_view(ps.push(p)) == pieces_view(ps) + seq![p@],
{
    let a = pieces_view(ps.push(p));
    let b = pieces_view(ps) + seq![p@];
    assert(a.len() == b.len());
    assert forall|j: int| 0 <= j < a.len() implies a[j] == b[j] by {
        assert(a[j] == ps.push(p)[j]@);
        if j < ps.len() {
            assert(ps.push(p)[j] == ps[j]);
            assert(pieces_view(ps)[j] == ps[j]@);
        } else {
            assert(ps.push(p)[j] == p);
        }
    }
    assert(a =~= b);
}

proof fn lemma_pieces_view_concat(x: Seq<Piece>, y: Seq<Piece>)
    ensures
        pieces_view(x + y) == pieces_view(x) + pieces_view(y),
{
    let a = pieces_view(x + y);
    let b = pieces_view(x) + pieces_view(y);
    assert(a.len() == b.len());
    assert forall|j: int| 0 <= j < a.len() implies a[j] == b[j] by {
        assert(a[j] == (x + y)[j]@);
        if j < x.len() {
            assert((x + y)[j] == x[j]);
            assert(pieces_view(x)[j] == x[j]@);
        } else {
            assert((x + y)[j] == y[j - x.len()]);
            assert(pieces_view(y)[j - x.len()] == y[j - x.len()]@);
        }
    }
    assert(a =~= b);
}

/// The ordered result of encoding one input.
pub struct Encoding {
    pub pieces: Vec<Piece>,
}

impl View for Encoding {
    type V = Seq<GPiece>;

    open spec fn view(&self) -> Seq<GPiece> {
        pieces_view(self.pieces@)
    }
}

impl Encoding {
    pub fn len(&self) -> (r: usize)
        ensures
            r == self@.len(),
    {
        proof {
            assert(self@.len() == self.pieces@.len());
        }
        self.pieces.len()
    }

    /// The flattened id sequence.
    pub fn get_ids(&self) -> (r: Vec<u32>)
        ensures
            r@.len() == self@.len(),
            forall|j: int| 0 <= j < r@.len() ==> (#[trigger] r@[j]) as int == self@[j].id,
    {
        proof {
            assert(self@.len() == self.pieces@.len());
        }
        let n = self.pieces.len();
        let mut r: Vec<u32> = Vec::new();
        let mut j: usize = 0;
        while j < n
            invariant
                n == self.pieces@.len() == self@.len(),
                j <= n,
                r@.len() == j,
                forall|q: int| 0 <= q < j ==> (#[trigger] r@[q]) as int == self@[q].id,
            decreases n - j,
        {
            r.push(self.pieces[j].id);
            proof {
                assert(self@[j as int] == self.pieces@[j as int]@);
            }
            j += 1;
        }
        r
    }

    /// The token strings, in order.
    pub fn get_tokens(&self) -> (r: Vec<String>)
        ensures
            r@.len() == self@.len(),
            forall|j: int| 0 <= j < r@.len() ==> (#[trigger] r@[j])@ == self@[j].tok,
    {
        proof {
            assert(self@.len() == self.pieces@.len());
        }
        let n = self.pieces.len();
        let mut r: Vec<String> = Vec::new();
        let mut j: usize = 0;
        while j < n
            invariant
                n == self.pieces@.len() == self@.len(),
                j <= n,
                r@.len() == j,
                forall|q: int| 0 <= q < j ==> (#[trigger] r@[q])@ == self@[q].tok,
            decreases n - j,
        {
            r.push(self.pieces[j].tok.clone());
            proof {
                assert(self@[j as int] == self.pieces@[j as int]@);
            }
            j += 1;
        }
        r
    }

    /// The original-input character ranges, in order.
    pub fn get_offsets(&self) -> (r: Vec<(usize, usize)>)
        ensures
            r@.len() == self@.len(),
            forall|j: int|
                0 <= j < r@.len() ==> (#[trigger] r@[j]).0 as int == self@[j].start && r@[j].1 as int
                    == self@[j].end,
    {
        proof {
            assert(self@.len() == self.pieces@.len());
        }
        let n = self.pieces.len();
        let mut r: Vec<(usize, usize)> = Vec::new();
        let mut j: usize = 0;
        while j < n
            invariant
                n == self.pieces@.len() == self@.len(),
                j <= n,
                r@.len() == j,
                forall|q: int|
                    0 <= q < j ==> (#[trigger] r@[q]).0 as int == self@[q].start && r@[q].1 as int
                        == self@[q].end,
            decreases n - j,
        {
            r.push((self.pieces[j].start, self.pieces[j].end));
            proof {
                assert(self@[j as int] == self.pieces@[j as int]@);
            }
            j += 1;
        }
        r
    }
}

/// Copy `s[a..b]` into a fresh vector.
#[verifier::loop_isolation(false)]
fn copy_range(s: &Vec<NChar>, a: usize, b: usize) -> (r: Vec<NChar>)
    requires
        a <= b <= s@.len(),
    ensures
        r@ == s@.subrange(a as int, b as int),
{
    let mut r: Vec<NChar> = Vec::new();
    let mut j: usize = a;
    while j < b
        invariant
            a <= j <= b,
            r@ == s@.subrange(a as int, j as int),
        decreases b - j,
    {
        r.push(s[j]);
        proof {
            assert(r@ =~= s@.subrange(a as int, j + 1));
        }
        j += 1;
    }
    r
}

/// One fully configured tokenizer: vocabulary, added tokens,
/// normalizer switches, the per-word length limit and the
/// continuation prefix.
pub struct TokenizerInstance {
    pub vocab: Vocabulary,
    pub added: Vec<AddedToken>,
    pub flags: NormFlags,
    pub max_word: usize,
    pub prefix: Vec<char>,
}

impl TokenizerInstance {
    pub open spec fn wf(&self) -> bool {
        self.vocab.wf()
    }

    /// The pieces this instance produces for `text`.
    pub open spec fn spec_pieces(&self, text: Seq<char>) -> Seq<GPiece> {
        spec_encode(
            self.vocab@,
            self.prefix@,
            self.vocab.unk_id as int,
            self.max_word as int,
            self.flags,
            self.added@,
            text,
        )
    }

    /// Encoding `text` succeeds for this instance.
    pub open spec fn encode_ok(&self, text: Seq<char>) -> bool {
        spec_encode_ok(self.vocab@, self.added@, text)
    }

    /// Run the full pipeline on one input.
    #[verifier::loop_isolation(false)]
    pub fn encode(&self, input: &str) -> (r: Result<Encoding, TokError>)
        requires
            self.wf(),
        ensures
            match r {
                Ok(enc) => self.encode_ok(input@) && enc@ == self.spec_pieces(input@),
                Err(e) => e == TokError::EncodeFailure && !self.encode_ok(input@),
            },
    {
        let ghost v = self.vocab@;
        let ghost pre = self.prefix@;
        let ghost unk = self.vocab.unk_id as int;
        let ghost max = self.max_word as int;
        let ghost fl = self.flags;
        let text = str_chars(input);
        let segs = find_segments(&text, &self.added);
        let ghost sgs = spec_segments(text@, self.added@);
        let ns = segs.len();
        let mut pieces: Vec<Piece> = Vec::new();
        proof {
            assert(pieces@ =~= Seq::<Piece>::empty());
            assert(pieces_view(pieces@) =~= Seq::<GPiece>::empty());
            assert(sgs.skip(0) =~= sgs);
            assert(Seq::<GPiece>::empty() + spec_encode(v, pre, unk, max, fl, self.added@, input@)
                =~= spec_encode(v, pre, unk, max, fl, self.added@, input@));
        }
        let mut si: usize = 0;
        while si < ns
            invariant
                self.wf(),
                text@ == input@,
                ns == segs@.len(),
                segs@ == sgs,
                sgs == spec_segments(input@, self.added@),
                forall|q: int| 0 <= q < ns ==> seg_wf(text@, self.added@, #[trigger] segs@[q]),
                si <= ns,
                forall|q: int| 0 <= q < si ==> seg_ok(v, self.added@, #[trigger] sgs[q]),
                pieces_view(pieces@) + segs_pieces(v, pre, unk, max, fl, self.added@, input@, sgs.skip(si as int))
                    == spec_encode(v, pre, unk, max, fl, self.added@, input@),
            decreases ns - si,
        {
            proof {
                lemma_segs_skip(v, pre, unk, max, fl, self.added@, input@, sgs, si as int);
            }
            let ghost prev = pieces_view(pieces@);
            let seg = segs[si];
            match seg {
                Segment::Atomic { tok, start, end } => {
                    let found = self.vocab.find(&self.added[tok].chars);
                    match found {
                        Some(id) => {
                            proof {
                                lemma_id_found(v, self.added@[tok as int].chars@, 0, id as int);
                            }
                            let p = Piece {
                                tok: self.vocab.token_string(id),
                                id: id as u32,
                                start,
                                end,
                            };
                            proof {
                                assert(p@ == seg_pieces(v, pre, unk, max, fl, self.added@, input@, seg)[0]);
                            }
                            pieces.push(p);
                            proof {
                                lemma_pieces_view_push(pieces@.drop_last(), p);
                                assert(pieces@.drop_last() =~= pieces@.subrange(0, pieces@.len() - 1));
                                assert(pieces@ =~= pieces@.drop_last().push(p));
                                assert(pieces_view(pieces@) =~= prev + seq![p@]);
                                assert(seg_pieces(v, pre, unk, max, fl, self.added@, input@, seg)
                                    =~= seq![p@]);
                            }
                        },
                        None => {
                            proof {
                                assert(!seg_ok(v, self.added@, sgs[si as int]));
                            }
                            return Err(TokError::EncodeFailure);
                        },
                    }
                },
                Segment::Raw { start, end } => {
                    let span = normalize_span(&text, start, end, self.flags);
                    let words = split_words(&span);
                    let nw = words.len();
                    let ghost target = seg_pieces(v, pre, unk, max, fl, self.added@, input@, seg);
                    proof {
                        assert(target == words_pieces(v, pre, unk, max, span@, words@));
                    }
                    proof {
                        assert(words@.skip(0) =~= words@);
                        assert(pieces_view(pieces@) + words_pieces(v, pre, unk, max, span@, words@)
                            =~= prev + words_pieces(v, pre, unk, max, span@, words@));
                    }
                    let mut wi: usize = 0;
                    while wi < nw
                        invariant
                            self.wf(),
                            nw == words@.len(),
                            wi <= nw,
                            forall|q: int|
                                0 <= q < nw ==> 0 <= (#[trigger] words@[q]).0 < words@[q].1
                                    <= span@.len(),
                            pieces_view(pieces@) + words_pieces(v, pre, unk, max, span@, words@.skip(wi as int))
                                == prev + words_pieces(v, pre, unk, max, span@, words@),
                        decreases nw - wi,
                    {
                        proof {
                            lemma_words_skip(v, pre, unk, max, span@, words@, wi as int);
                        }
                        let (a, b) = words[wi];
                        let word = copy_range(&span, a, b);
                        let mut wps = wp_word(&self.vocab, &self.prefix, self.max_word, &word);
                        let ghost before = pieces@;
                        let ghost wv = wps@;
                        pieces.append(&mut wps);
                        proof {
                            lemma_pieces_view_concat(before, wv);
                            assert(pieces@ =~= before + wv);
                        }
                        wi += 1;
                    }
                    proof {
                        assert(words@.skip(nw as int) =~= Seq::<(usize, usize)>::empty());
                        assert(pieces_view(pieces@) + Seq::<GPiece>::empty() =~= pieces_view(
                            pieces@,
                        ));
                        assert(prev + words_pieces(v, pre, unk, max, span@, words@) =~= prev
                            + target);
                    }
                },
            }
            si += 1;
        }
        proof {
            assert(sgs.skip(ns as int) =~= Seq::<Segment>::empty());
            assert(pieces_view(pieces@) + Seq::<GPiece>::empty() =~= pieces_view(pieces@));
        }
        Ok(Encoding { pieces })
    }
}

/// Whatever the input, every protected span the matcher produces is
/// encoded as exactly one piece, the added token's own string over its
/// own span: its characters are never handed to the WordPiece model,
/// whatever shorter vocabulary entries they would match.
pub proof fn lemma_atomic_segment_one_piece(
    v: Seq<Seq<char>>,
    pre: Seq<char>,
    unk: int,
    max: int,
    f: NormFlags,
    toks: Seq<AddedToken>,
    text: Seq<char>,
    q: int,
)
    requires
        0 <= q < spec_segments(text, toks).len(),
        spec_segments(text, toks)[q] is Atomic,
    ensures
        match spec_segments(text, toks)[q] {
            Segment::Atomic { tok, start, end } => {
                let ps = seg_pieces(v, pre, unk, max, f, toks, text, spec_segments(text, toks)[q]);
                &&& ps.len() == 1
                &&& ps[0].tok == toks[tok as int].chars@
                &&& ps[0].start == start as int
                &&& ps[0].end == end as int
            },
            Segment::Raw { .. } => true,
        },
{
    let seg = spec_segments(text, toks)[q];
    match seg {
        Segment::Atomic { tok, start, end } => {
            let t = toks[tok as int].chars@;
            let ps = seg_pieces(v, pre, unk, max, f, toks, text, seg);
            assert(ps == seq![
                GPiece { tok: t, id: id_or(v, t, 0), start: start as int, end: end as int },
            ]);
            assert(ps[0].tok == t);
        },
        Segment::Raw { .. } => {},
    }
}

/// An added token standing alone as the whole input is matched as one
/// protected span and encoded as exactly one piece — its own token
/// string — never subdivided by the model, whatever the vocabulary
/// holds.
pub proof fn lemma_added_token_atomic(
    v: Seq<Seq<char>>,
    pre: Seq<char>,
    unk: int,
    max: int,
    f: NormFlags,
    toks: Seq<AddedToken>,
    text: Seq<char>,
    j: int,
)
    requires
        0 <= j < toks.len(),
        toks.len() <= usize::MAX,
        toks[j].chars@ == text,
        0 < text.len() <= usize::MAX,
    ensures
        spec_segments(text, toks).len() == 1,
        spec_segments(text, toks)[0] is Atomic,
        spec_encode(v, pre, unk, max, f, toks, text).len() == 1,
        spec_encode(v, pre, unk, max, f, toks, text)[0].tok == text,
{
    let n = text.len() as int;
    assert(text.subrange(0, n) =~= text);
    assert(spec_matches_at(toks, text, 0, j));
    lemma_best_match_longest(toks, text, 0, toks.len() as int, j);
    let k = spec_best_match(toks, text, 0)->0;
    lemma_best_match_matches(toks, text, 0, toks.len() as int, k);
    assert(toks[k].chars@.len() >= n);
    assert(toks[k].chars@.len() == n);
    assert(toks[k].chars@ == text.subrange(0, n));
    let atom = Segment::Atomic { tok: k as usize, start: 0 as usize, end: n as usize };
    assert(seg_rec(text, toks, n, n) == Seq::<Segment>::empty());
    assert(spec_segments(text, toks) == seq![atom] + seg_rec(text, toks, n, n));
    assert(spec_segments(text, toks) =~= seq![atom]);
    let segs = spec_segments(text, toks);
    assert(segs_pieces(v, pre, unk, max, f, toks, text, segs.drop_first()).len() == 0) by {
        assert(segs.drop_first().len() == 0);
    }
    assert((k as usize) as int == k);
    assert((n as usize) as int == n);
    let sp = seg_pieces(v, pre, unk, max, f, toks, text, atom);
    assert(spec_encode(v, pre, unk, max, f, toks, text) =~= sp);
    assert(sp == seq![
        GPiece {
            tok: toks[k].chars@,
            id: id_or(v, toks[k].chars@, 0),
            start: 0,
            end: (n as usize) as int,
        },
    ]);
    assert(sp[0].tok == toks[k].chars@);
    assert(spec_encode(v, pre, unk, max, f, toks, text)[0] == sp[0]);
}

} // verus!
