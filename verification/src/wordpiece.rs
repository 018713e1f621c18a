//! Greedy longest-match-first WordPiece segmentation of one coarse word.
//!
//! At each position the longest substring whose lookup key (the
//! substring itself at the word start, the continuation prefix plus the
//! substring elsewhere) is a vocabulary entry is consumed. A word
//! longer than the configured limit, or one with no match at some
//! position, yields exactly one unknown token; partial progress is
//! discarded.

use vstd::prelude::*;
use crate::normalize::NChar;
use crate::vocab::{Vocabulary, spec_id_of, spec_has_token, id_from};

verus! {

/// The id of token `t`, or `d` when absent.
pub open spec fn id_or(v: Seq<Seq<char>>, t: Seq<char>, d: int) -> int {
    match spec_id_of(v, t) {
        Some(i) => i,
        None => d,
    }
}

/// A found id points at an equal entry.
pub proof fn lemma_id_found(v: Seq<Seq<char>>, t: Seq<char>, j: int, i: int)
    requires
        id_from(v, t, j) == Some(i),
        0 <= j,
    ensures
        j <= i < v.len(),
        v[i] == t,
    decreases v.len() - j,
{
    if j < v.len() && v[j] != t {
        lemma_id_found(v, t, j + 1, i);
    }
}

/// The vocabulary lookup key for `w[a..b]`.
pub open spec fn spec_key(w: Seq<char>, a: int, b: int, pre: Seq<char>) -> Seq<char> {
    if a == 0 {
        w.subrange(a, b)
    } else {
        pre + w.subrange(a, b)
    }
}

/// The largest `e` with `a < e <= b` whose key is in the vocabulary.
pub open spec fn best_len(v: Seq<Seq<char>>, pre: Seq<char>, w: Seq<char>, a: int, b: int) -> Option<
    int,
>
    decreases b - a,
{
    if b <= a {
        None
    } else if spec_has_token(v, spec_key(w, a, b, pre)) {
        Some(b)
    } else {
        best_len(v, pre, w, a, b - 1)
    }
}

/// The greedy segmentation of `w[a..]` into key ranges, or `None` when
/// some position has no match.
pub open spec fn greedy_rec(v: Seq<Seq<char>>, pre: Seq<char>, w: Seq<char>, a: int) -> Option<
    Seq<(usize, usize)>,
>
    decreases w.len() - a,
{
    if a >= w.len() {
        Some(Seq::empty())
    } else {
        match best_len(v, pre, w, a, w.len() as int) {
            None => None,
            Some(b) => {
                if a < b <= w.len() {
                    match greedy_rec(v, pre, w, b) {
                        None => None,
                        Some(rest) => Some(seq![(a as usize, b as usize)] + rest),
                    }
                } else {
                    None
                }
            },
        }
    }
}

/// One output piece: a token, its id, and the original-input character
/// range it covers.
pub ghost struct GPiece {
    pub tok: Seq<char>,
    pub id: int,
    pub start: int,
    pub end: int,
}

/// The piece for key range `[a, b)` of `word`.
pub open spec fn piece_of_range(
    v: Seq<Seq<char>>,
    pre: Seq<char>,
    word: Seq<NChar>,
    a: int,
    b: int,
) -> GPiece {
    let wchars = word.map_values(|nc: NChar| nc.c);
    let k = spec_key(wchars, a, b, pre);
    GPiece { tok: k, id: id_or(v, k, 0), start: word[a].start as int, end: word[b - 1].end as int }
}

/// The single unknown-token piece covering the whole word.
pub open spec fn unk_piece(v: Seq<Seq<char>>, unk: int, word: Seq<NChar>) -> GPiece {
    GPiece {
        tok: v[unk],
        id: unk,
        start: word[0].start as int,
        end: word[word.len() - 1].end as int,
    }
}

/// WordPiece output for one coarse word: the unknown token alone when
/// the word is over the length limit or unsegmentable, otherwise the
/// greedy pieces in order.
pub open spec fn wp_spec(
    v: Seq<Seq<char>>,
    pre: Seq<char>,
    unk: int,
    max: int,
    word: Seq<NChar>,
) -> Seq<GPiece> {
    let wchars = word.map_values(|nc: NChar| nc.c);
    if word.len() == 0 {
        Seq::empty()
    } else if word.len() > max {
        seq![unk_piece(v, unk, word)]
    } else {
        match greedy_rec(v, pre, wchars, 0) {
            None => seq![unk_piece(v, unk, word)],
            Some(ranges) => ranges_pieces(v, pre, word, ranges),
        }
    }
}

/// A word present verbatim in the vocabulary, within the length limit,
/// segments into exactly one piece: the word itself, under its first
/// vocabulary id.
pub proof fn lemma_exact_word_round_trip(
    v: Seq<Seq<char>>,
    pre: Seq<char>,
    unk: int,
    max: int,
    word: Seq<NChar>,
)
    requires
        0 < word.len() <= max,
        word.len() <= usize::MAX,
        spec_has_token(v, word.map_values(|nc: NChar| nc.c)),
    ensures
        wp_spec(v, pre, unk, max, word) == seq![
            piece_of_range(v, pre, word, 0, word.len() as int),
        ],
        piece_of_range(v, pre, word, 0, word.len() as int).tok == word.map_values(
            |nc: NChar| nc.c,
        ),
{
    let w = word.map_values(|nc: NChar| nc.c);
    let n = w.len() as int;
    assert(n == word.len());
    assert(spec_key(w, 0, n, pre) =~= w);
    assert(best_len(v, pre, w, 0, n) == Some(n));
    assert(greedy_rec(v, pre, w, n) == Some(Seq::<(usize, usize)>::empty()));
    assert(greedy_rec(v, pre, w, 0) == Some(
        seq![(0usize, n as usize)] + Seq::<(usize, usize)>::empty(),
    ));
    let rgs = seq![(0usize, n as usize)] + Seq::<(usize, usize)>::empty();
    assert(rgs =~= seq![(0usize, n as usize)]);
    assert(ranges_pieces(v, pre, word, rgs).len() == rgs.len());
    assert(rgs[0] == (0usize, n as usize));
    assert((0usize) as int == 0 && (n as usize) as int == n);
    assert(ranges_pieces(v, pre, word, rgs)[0] == piece_of_range(v, pre, word, 0, n));
    assert(ranges_pieces(v, pre, word, rgs) =~= seq![piece_of_range(v, pre, word, 0, n)]);
}

/// A word longer than the limit yields exactly one unknown-token
/// piece, regardless of how it could have been decomposed.
pub proof fn lemma_length_guard(
    v: Seq<Seq<char>>,
    pre: Seq<char>,
    unk: int,
    max: int,
    word: Seq<NChar>,
)
    requires
        0 < word.len(),
        word.len() > max,
    ensures
        wp_spec(v, pre, unk, max, word) == seq![unk_piece(v, unk, word)],
{
}

proof fn lemma_best_len_none(v: Seq<Seq<char>>, pre: Seq<char>, w: Seq<char>, a: int, b: int)
    requires
        forall|e: int| a < e <= b ==> !spec_has_token(v, #[trigger] spec_key(w, a, e, pre)),
    ensures
        best_len(v, pre, w, a, b) is None,
    decreases b - a,
{
    if b > a {
        lemma_best_len_none(v, pre, w, a, b - 1);
    }
}

/// A word none of whose prefixes is a vocabulary entry yields exactly
/// one unknown-token piece; partial progress is discarded.
pub proof fn lemma_unsegmentable(
    v: Seq<Seq<char>>,
    pre: Seq<char>,
    unk: int,
    max: int,
    word: Seq<NChar>,
    w: Seq<char>,
)
    requires
        0 < word.len() <= max,
        word.len() <= usize::MAX,
        w == word.map_values(|nc: NChar| nc.c),
        forall|e: int| 0 < e <= word.len() ==> !spec_has_token(v, #[trigger] spec_key(w, 0, e, pre)),
    ensures
        wp_spec(v, pre, unk, max, word) == seq![unk_piece(v, unk, word)],
{
    assert(w.len() == word.len());
    lemma_best_len_none(v, pre, w, 0, w.len() as int);
    assert(greedy_rec(v, pre, w, 0) is None);
}

/// The views of a sequence of executable pieces.
pub open spec fn pieces_view(s: Seq<Piece>) -> Seq<GPiece> {
    s.map_values(|p: Piece| p@)
}

/// The pieces of a sequence of key ranges.
pub open spec fn ranges_pieces(
    v: Seq<Seq<char>>,
    pre: Seq<char>,
    word: Seq<NChar>,
    rgs: Seq<(usize, usize)>,
) -> Seq<GPiece> {
    rgs.map_values(|rg: (usize, usize)| piece_of_range(v, pre, word, rg.0 as int, rg.1 as int))
}

proof fn lemma_push_view(
    ps: Seq<Piece>,
    p: Piece,
    v: Seq<Seq<char>>,
    pre: Seq<char>,
    word: Seq<NChar>,
    rgs: Seq<(usize, usize)>,
    rg: (usize, usize),
)
    requires
        pieces_view(ps) == ranges_pieces(v, pre, word, rgs),
        p@ == piece_of_range(v, pre, word, rg.0 as int, rg.1 as int),
    ensures
        pieces_view(ps.push(p)) == ranges_pieces(v, pre, word, rgs.push(rg)),
{
    assert(pieces_view(ps).len() == ranges_pieces(v, pre, word, rgs).len());
    assert(pieces_view(ps).len() == ps.len());
    assert(ranges_pieces(v, pre, word, rgs).len() == rgs.len());
    assert(ps.len() == rgs.len());
    let a = pieces_view(ps.push(p));
    let b = ranges_pieces(v, pre, word, rgs.push(rg));
    assert(a.len() == b.len());
    assert forall|j: int| 0 <= j < a.len() implies a[j] == b[j] by {
        assert(a[j] == ps.push(p)[j]@);
        assert(b[j] == piece_of_range(
            v,
            pre,
            word,
            rgs.push(rg)[j].0 as int,
            rgs.push(rg)[j].1 as int,
        ));
        if j < ps.len() {
            assert(ps.push(p)[j] == ps[j]);
            assert(rgs.push(rg)[j] == rgs[j]);
            assert(pieces_view(ps)[j] == ranges_pieces(v, pre, word, rgs)[j]);
            assert(pieces_view(ps)[j] == ps[j]@);
            assert(ranges_pieces(v, pre, word, rgs)[j] == piece_of_range(
                v,
                pre,
                word,
                rgs[j].0 as int,
                rgs[j].1 as int,
            ));
        } else {
            assert(ps.push(p)[j] == p);
            assert(rgs.push(rg)[j] == rg);
        }
    }
    assert(a =~= b);
}

/// An executable piece; its view is a [`GPiece`].
pub struct Piece {
    pub tok: String,
    pub id: u32,
    pub start: usize,
    pub end: usize,
}

impl View for Piece {
    type V = GPiece;

    open spec fn view(&self) -> GPiece {
        GPiece { tok: self.tok@, id: self.id as int, start: self.start as int, end: self.end as int }
    }
}

/// Build the lookup key for `word[a..b]`.
#[verifier::loop_isolation(false)]
fn build_key(pre: &Vec<char>, word: &Vec<NChar>, a: usize, b: usize) -> (r: Vec<char>)
    requires
        a <= b <= word@.len(),
    ensures
        r@ == spec_key(word@.map_values(|nc: NChar| nc.c), a as int, b as int, pre@),
{
    let ghost wchars = word@.map_values(|nc: NChar| nc.c);
    let mut r: Vec<char> = Vec::new();
    if a > 0 {
        let mut q: usize = 0;
        while q < pre.len()
            invariant
                q <= pre@.len(),
                r@ == pre@.take(q as int),
            decreases pre@.len() - q,
        {
            r.push(pre[q]);
            proof {
                assert(r@ =~= pre@.take(q + 1));
            }
            q += 1;
        }
        proof {
            assert(pre@.take(pre@.len() as int) =~= pre@);
        }
    }
    let ghost base = r@;
    let mut j: usize = a;
    while j < b
        invariant
            a <= j <= b <= word@.len(),
            base == r@.take(base.len() as int) && base.len() <= r@.len(),
            r@ == base + wchars.subrange(a as int, j as int),
        decreases b - j,
    {
        r.push(word[j].c);
        proof {
            assert(wchars[j as int] == word@[j as int].c);
            assert(r@ =~= base + wchars.subrange(a as int, j + 1));
        }
        j += 1;
    }
    proof {
        if a == 0 {
            assert(r@ =~= wchars.subrange(a as int, b as int));
        }
    }
    r
}

/// Longest match search at position `a`: the executable twin of
/// [`best_len`], also returning the id of the matched key.
#[verifier::loop_isolation(false)]
fn find_best_len(voc: &Vocabulary, pre: &Vec<char>, word: &Vec<NChar>, a: usize) -> (r: Option<
    (usize, usize),
>)
    requires
        voc.wf(),
        a < word@.len(),
    ensures
        ({
            let wchars = word@.map_values(|nc: NChar| nc.c);
            match r {
                Some(be) => {
                    &&& best_len(voc@, pre@, wchars, a as int, wchars.len() as int) == Some(
                        be.0 as int,
                    )
                    &&& a < be.0 <= word@.len()
                    &&& spec_id_of(voc@, spec_key(wchars, a as int, be.0 as int, pre@)) == Some(
                        be.1 as int,
                    )
                    &&& be.1 < voc@.len()
                },
                None => best_len(voc@, pre@, wchars, a as int, wchars.len() as int) is None,
            }
        }),
{
    let ghost wchars = word@.map_values(|nc: NChar| nc.c);
    let n = word.len();
    proof {
        assert(wchars.len() == n);
    }
    let mut b: usize = n;
    while b > a
        invariant
            a < n == word@.len(),
            a <= b <= n,
            best_len(voc@, pre@, wchars, a as int, n as int) == best_len(
                voc@,
                pre@,
                wchars,
                a as int,
                b as int,
            ),
        decreases b,
    {
        let key = build_key(pre, word, a, b);
        let found = voc.find(&key);
        match found {
            Some(id) => {
                proof {
                    assert(spec_has_token(voc@, spec_key(wchars, a as int, b as int, pre@)));
                    assert(best_len(voc@, pre@, wchars, a as int, b as int) == Some(b as int));
                    lemma_id_found(voc@, key@, 0, id as int);
                }
                return Some((b, id));
            },
            None => {
                proof {
                    assert(!spec_has_token(voc@, spec_key(wchars, a as int, b as int, pre@)));
                    assert(best_len(voc@, pre@, wchars, a as int, b as int) == best_len(
                        voc@,
                        pre@,
                        wchars,
                        a as int,
                        b - 1,
                    ));
                }
                b -= 1;
            },
        }
    }
    proof {
        assert(best_len(voc@, pre@, wchars, a as int, a as int) is None);
    }
    None
}

/// Segment one nonempty coarse word.
#[verifier::loop_isolation(false)]
pub fn wp_word(voc: &Vocabulary, pre: &Vec<char>, max: usize, word: &Vec<NChar>) -> (r: Vec<Piece>)
    requires
        voc.wf(),
        word@.len() > 0,
    ensures
        pieces_view(r@) == wp_spec(
            voc@,
            pre@,
            voc.unk_id as int,
            max as int,
            word@,
        ),
{
    let ghost wchars = word@.map_values(|nc: NChar| nc.c);
    let ghost unk = voc.unk_id as int;
    let n = word.len();
    proof {
        assert(wchars.len() == n);
    }
    if n > max {
        let p = Piece {
            tok: voc.token_string(voc.unk_id),
            id: voc.unk_id as u32,
            start: word[0].start,
            end: word[n - 1].end,
        };
        let mut r: Vec<Piece> = Vec::new();
        r.push(p);
        proof {
            assert(pieces_view(r@) =~= seq![unk_piece(voc@, unk, word@)]);
        }
        return r;
    }
    let mut pieces: Vec<Piece> = Vec::new();
    let ghost mut done: Seq<(usize, usize)> = Seq::empty();
    let mut a: usize = 0;
    while a < n
        invariant
            voc.wf(),
            n == word@.len() > 0,
            n <= max,
            wchars == word@.map_values(|nc: NChar| nc.c),
            unk == voc.unk_id as int,
            a <= n,
            match greedy_rec(voc@, pre@, wchars, a as int) {
                None => greedy_rec(voc@, pre@, wchars, 0) is None,
                Some(rest) => greedy_rec(voc@, pre@, wchars, 0) == Some(done + rest),
            },
            pieces_view(pieces@) == ranges_pieces(voc@, pre@, word@, done),
        decreases n - a,
    {
        let found = find_best_len(voc, pre, word, a);
        match found {
            Some((b, id)) => {
                proof {
                    lemma_id_found(voc@, spec_key(wchars, a as int, b as int, pre@), 0, id as int);
                }
                let p = Piece {
                    tok: voc.token_string(id),
                    id: id as u32,
                    start: word[a].start,
                    end: word[b - 1].end,
                };
                proof {
                    assert(p@ == piece_of_range(voc@, pre@, word@, a as int, b as int));
                }
                proof {
                    let ghost d2 = done.push((a, b));
                    lemma_push_view(pieces@, p, voc@, pre@, word@, done, (a, b));
                    match greedy_rec(voc@, pre@, wchars, b as int) {
                        None => {
                            assert(greedy_rec(voc@, pre@, wchars, a as int) is None);
                        },
                        Some(rest2) => {
                            assert(greedy_rec(voc@, pre@, wchars, a as int) == Some(
                                seq![(a, b)] + rest2,
                            ));
                            assert(done + (seq![(a, b)] + rest2) =~= d2 + rest2);
                        },
                    }
                    done = d2;
                }
                pieces.push(p);
                a = b;
            },
            None => {
                proof {
                    assert(greedy_rec(voc@, pre@, wchars, a as int) is None);
                }
                let p = Piece {
                    tok: voc.token_string(voc.unk_id),
                    id: voc.unk_id as u32,
                    start: word[0].start,
                    end: word[n - 1].end,
                };
                let mut r: Vec<Piece> = Vec::new();
                r.push(p);
                proof {
                    assert(pieces_view(r@) =~= seq![unk_piece(voc@, unk, word@)]);
                }
                return r;
            },
        }
    }
    proof {
        assert(greedy_rec(voc@, pre@, wchars, n as int) == Some(Seq::<(usize, usize)>::empty()));
        assert(done + Seq::<(usize, usize)>::empty() =~= done);
        assert(greedy_rec(voc@, pre@, wchars, 0) == Some(done));
    }
    pieces
}

} // verus!
