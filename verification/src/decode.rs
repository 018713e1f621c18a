//! Decoding an id sequence back to readable text.
//!
//! Each id maps to its token string; special added-token ids may be
//! skipped. A token bearing the continuation prefix is stripped of it
//! and joined onto the previous output with no separator; every other
//! token is preceded by a single space, except the first emitted one.
//! Decoding is lossy by design: unknown tokens and continuation merges
//! do not round-trip to the original spacing.

use vstd::prelude::*;
use crate::pretoken::AddedToken;
use crate::vocab::{Vocabulary, spec_id_of};
use crate::encode::TokError;

verus! {

/// `s` begins with `pre`.
pub open spec fn spec_starts_with(s: Seq<char>, pre: Seq<char>) -> bool {
    s.len() >= pre.len() && s.subrange(0, pre.len() as int) == pre
}

/// `id` is the vocabulary id of a special added token.
pub open spec fn is_special_id(v: Seq<Seq<char>>, added: Seq<AddedToken>, id: int) -> bool {
    exists|k: int|
        0 <= k < added.len() && added[k].special && spec_id_of(v, added[k].chars@) == Some(id)
}

/// What token `id` contributes to the output: prefix-stripped and
/// unseparated when it continues a word, space-separated otherwise,
/// bare when it opens the output.
pub open spec fn head_piece(v: Seq<Seq<char>>, pre: Seq<char>, id: int, first: bool) -> Seq<char> {
    let tok = v[id];
    if !first && spec_starts_with(tok, pre) {
        tok.skip(pre.len() as int)
    } else if first {
        tok
    } else {
        seq![' '] + tok
    }
}

/// Decoded text of `ids[i..]`; `first` is true while nothing has been
/// emitted. `None` when an id lies outside the vocabulary.
pub open spec fn dec_rec(
    v: Seq<Seq<char>>,
    pre: Seq<char>,
    added: Seq<AddedToken>,
    skip: bool,
    ids: Seq<int>,
    i: int,
    first: bool,
) -> Option<Seq<char>>
    decreases ids.len() - i,
{
    if i < 0 || i >= ids.len() {
        Some(Seq::empty())
    } else {
        let id = ids[i];
        if id < 0 || id >= v.len() {
            None
        } else if skip && is_special_id(v, added, id) {
            dec_rec(v, pre, added, skip, ids, i + 1, first)
        } else {
            match dec_rec(v, pre, added, skip, ids, i + 1, false) {
                None => None,
                Some(rest) => Some(head_piece(v, pre, id, first) + rest),
            }
        }
    }
}

/// Decoded text of a whole id sequence.
pub open spec fn spec_decode(
    v: Seq<Seq<char>>,
    pre: Seq<char>,
    added: Seq<AddedToken>,
    skip: bool,
    ids: Seq<int>,
) -> Option<Seq<char>> {
    dec_rec(v, pre, added, skip, ids, 0, true)
}

proof fn lemma_dec_invalid(
    v: Seq<Seq<char>>,
    pre: Seq<char>,
    added: Seq<AddedToken>,
    skip: bool,
    ids: Seq<int>,
    i: int,
    first: bool,
)
    requires
        0 <= i < ids.len(),
        ids[i] < 0 || ids[i] >= v.len(),
    ensures
        dec_rec(v, pre, added, skip, ids, i, first) is None,
{
}

proof fn lemma_dec_skip(
    v: Seq<Seq<char>>,
    pre: Seq<char>,
    added: Seq<AddedToken>,
    skip: bool,
    ids: Seq<int>,
    i: int,
    first: bool,
)
    requires
        0 <= i < ids.len(),
        0 <= ids[i] < v.len(),
        skip && is_special_id(v, added, ids[i]),
    ensures
        dec_rec(v, pre, added, skip, ids, i, first) == dec_rec(v, pre, added, skip, ids, i + 1, first),
{
}

proof fn lemma_dec_emit(
    v: Seq<Seq<char>>,
    pre: Seq<char>,
    added: Seq<AddedToken>,
    skip: bool,
    ids: Seq<int>,
    i: int,
    first: bool,
)
    requires
        0 <= i < ids.len(),
        0 <= ids[i] < v.len(),
        !(skip && is_special_id(v, added, ids[i])),
    ensures
        dec_rec(v, pre, added, skip, ids, i, first) == match dec_rec(
            v,
            pre,
            added,
            skip,
            ids,
            i + 1,
            false,
        ) {
            None => None::<Seq<char>>,
            Some(rest) => Some(head_piece(v, pre, ids[i], first) + rest),
        },
{
}

/// Is `id` the id of a special added token? Executable twin of
/// [`is_special_id`].
#[verifier::loop_isolation(false)]
fn check_special(voc: &Vocabulary, added: &Vec<AddedToken>, id: usize) -> (r: bool)
    requires
        voc.wf(),
    ensures
        r == is_special_id(voc@, added@, id as int),
{
    let n = added.len();
    let mut k: usize = 0;
    while k < n
        invariant
            n == added@.len(),
            k <= n,
            forall|k2: int|
                0 <= k2 < k ==> !(added@[k2].special && spec_id_of(
                    voc@,
                    #[trigger] added@[k2].chars@,
                ) == Some(id as int)),
        decreases n - k,
    {
        if added[k].special {
            match voc.find(&added[k].chars) {
                Some(x) => {
                    if x == id {
                        return true;
                    }
                },
                None => {},
            }
        }
        k += 1;
    }
    false
}

/// Does entry `id` start with the continuation prefix?
#[verifier::loop_isolation(false)]
fn entry_starts_with(chars: &Vec<char>, pre: &Vec<char>) -> (r: bool)
    ensures
        r == spec_starts_with(chars@, pre@),
{
    let m = pre.len();
    if chars.len() < m {
        return false;
    }
    let mut q: usize = 0;
    while q < m
        invariant
            m == pre@.len() <= chars@.len(),
            q <= m,
            forall|x: int| 0 <= x < q ==> chars@[x] == pre@[x],
        decreases m - q,
    {
        if chars[q] != pre[q] {
            proof {
                assert(chars@.subrange(0, m as int) != pre@) by {
                    assert(chars@.subrange(0, m as int)[q as int] == chars@[q as int]);
                }
            }
            return false;
        }
        q += 1;
    }
    proof {
        assert(chars@.subrange(0, m as int) =~= pre@);
    }
    true
}

/// Decode an id sequence to text. `skip_special` drops the ids of
/// special added tokens.
#[verifier::loop_isolation(false)]
pub fn decode_ids(
    voc: &Vocabulary,
    added: &Vec<AddedToken>,
    pre: &Vec<char>,
    ids: &Vec<u32>,
    skip_special: bool,
) -> (r: Result<String, TokError>)
    requires
        voc.wf(),
    ensures
        ({
            let idsv = ids@.map_values(|x: u32| x as int);
            match r {
                Ok(s) => spec_decode(voc@, pre@, added@, skip_special, idsv) == Some(s@),
                Err(e) => e == TokError::DecodeFailure && spec_decode(
                    voc@,
                    pre@,
                    added@,
                    skip_special,
                    idsv,
                ) is None,
            }
        }),
{
    let ghost v = voc@;
    let ghost idsv = ids@.map_values(|x: u32| x as int);
    proof {
        assert(idsv.len() == ids@.len());
    }
    let n = ids.len();
    let mut out = String::new();
    let mut first = true;
    let mut i: usize = 0;
    while i < n
        invariant
            voc.wf(),
            n == ids@.len() == idsv.len(),
            idsv == ids@.map_values(|x: u32| x as int),
            i <= n,
            match dec_rec(v, pre@, added@, skip_special, idsv, i as int, first) {
                None => dec_rec(v, pre@, added@, skip_special, idsv, 0, true) is None,
                Some(rest) => match dec_rec(v, pre@, added@, skip_special, idsv, 0, true) {
                    Some(all) => all == out@ + rest,
                    None => false,
                },
            },
        decreases n - i,
    {
        proof {
            assert(idsv[i as int] == ids@[i as int] as int);
        }
        let idu = ids[i];
        let id = idu as usize;
        if id >= voc.len() {
            proof {
                lemma_dec_invalid(v, pre@, added@, skip_special, idsv, i as int, first);
            }
            return Err(TokError::DecodeFailure);
        }
        let special = check_special(voc, added, id);
        if skip_special && special {
            proof {
                lemma_dec_skip(v, pre@, added@, skip_special, idsv, i as int, first);
            }
            i += 1;
            continue ;
        }
        proof {
            lemma_dec_emit(v, pre@, added@, skip_special, idsv, i as int, first);
        }
        let ghost out_old = out@;
        let ghost head = head_piece(v, pre@, id as int, first);
        let chars = voc.token_chars(id);
        let clen = chars.len();
        let starts = entry_starts_with(chars, pre);
        if !first && starts {
            let piece = voc.entries[id].as_str().substring_char(pre.len(), clen);
            out.append(piece);
            proof {
                assert(v[id as int].subrange(pre@.len() as int, clen as int) =~= v[
                    id as int
                ].skip(pre@.len() as int));
                assert(out@ == out_old + head);
            }
        } else if first {
            out.append(voc.entries[id].as_str());
            proof {
                assert(out@ == out_old + head);
            }
        } else {
            out.append(" ");
            out.append(voc.entries[id].as_str());
            proof {
                reveal_strlit(" ");
                assert(" "@ =~= seq![' ']);
                assert(out@ =~= out_old + (seq![' '] + v[id as int]));
                assert(out@ == out_old + head);
            }
        }
        proof {
            let tail = dec_rec(v, pre@, added@, skip_special, idsv, i + 1, false);
            match tail {
                None => {},
                Some(rest) => {
                    assert(out_old + (head + rest) =~= (out_old + head) + rest);
                },
            }
        }
        first = false;
        i += 1;
    }
    proof {
        assert(dec_rec(v, pre@, added@, skip_special, idsv, n as int, first) == Some(
            Seq::<char>::empty(),
        ));
        assert(out@ + Seq::<char>::empty() =~= out@);
    }
    Ok(out)
}

} // verus!
