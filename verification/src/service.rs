//! The tokenizer registry and the service boundary.
//!
//! The registry holds fully configured tokenizer instances,
//! append-only; the active instance is the most recently appended one,
//! and initialization also hands back an explicit handle. Tokenize
//! writes at most the caller's capacity of ids into the query —
//! silent, deterministic truncation to the first ids — and reports
//! success through the query's flag instead of aborting; batch
//! tokenization processes every query independently. Borrowing rules
//! give the registry its access discipline: initialization takes the
//! registry exclusively, tokenization shares it read-only.

use vstd::prelude::*;
use crate::encode::{TokError, TokenizerInstance};
use crate::normalize::NormFlags;
use crate::pretoken::AddedToken;
use crate::vocab::{Vocabulary, spec_id_of, spec_has_token, str_chars};
use crate::decode::spec_decode;

verus! {

/// The default unknown token, `[UNK]`.
pub open spec fn spec_unk_token() -> Seq<char> {
    seq!['[', 'U', 'N', 'K', ']']
}

/// The default continuation prefix, `##`.
pub open spec fn spec_prefix() -> Seq<char> {
    seq!['#', '#']
}

/// The space-separated pieces of `s[i..]`, the pending piece starting
/// at `start`. Splitting always yields at least one (possibly empty)
/// piece.
pub open spec fn split_sp(s: Seq<char>, i: int, start: int) -> Seq<Seq<char>>
    decreases s.len() - i,
{
    if i < 0 || i >= s.len() {
        seq![s.subrange(start, s.len() as int)]
    } else if s[i] == ' ' {
        seq![s.subrange(start, i)] + split_sp(s, i + 1, i + 1)
    } else {
        split_sp(s, i + 1, start)
    }
}

/// The space-separated pieces of a whole string.
pub open spec fn spec_split_spaces(s: Seq<char>) -> Seq<Seq<char>> {
    split_sp(s, 0, 0)
}

/// The added-token contents of a token sequence.
pub open spec fn toks_chars(ts: Seq<AddedToken>) -> Seq<Seq<char>> {
    ts.map_values(|t: AddedToken| t.chars@)
}

proof fn lemma_toks_push(ts: Seq<AddedToken>, t: AddedToken)
    ensures
        toks_chars(ts.push(t)) == toks_chars(ts) + seq![t.chars@],
{
    let a = toks_chars(ts.push(t));
    let b = toks_chars(ts) + seq![t.chars@];
    assert(a.len() == b.len());
    assert forall|j: int| 0 <= j < a.len() implies a[j] == b[j] by {
        assert(a[j] == ts.push(t)[j].chars@);
        if j < ts.len() {
            assert(ts.push(t)[j] == ts[j]);
            assert(toks_chars(ts)[j] == ts[j].chars@);
        } else {
            assert(ts.push(t)[j] == t);
        }
    }
    assert(a =~= b);
}

proof fn lemma_split_sp_space(s: Seq<char>, i: int, start: int)
    requires
        0 <= start <= i < s.len(),
        s[i] == ' ',
    ensures
        split_sp(s, i, start) == seq![s.subrange(start, i)] + split_sp(s, i + 1, i + 1),
{
}

proof fn lemma_split_sp_cont(s: Seq<char>, i: int, start: int)
    requires
        0 <= start <= i < s.len(),
        s[i] != ' ',
    ensures
        split_sp(s, i, start) == split_sp(s, i + 1, start),
{
}

/// Copy `s[a..b]` into a fresh vector.
#[verifier::loop_isolation(false)]
fn copy_chars(s: &Vec<char>, a: usize, b: usize) -> (r: Vec<char>)
    requires
        a <= b <= s@.len(),
    ensures
        r@ == s@.subrange(a as int, b as int),
{
    let mut r: Vec<char> = Vec::new();
    let mut j: usize = a;
    while j < b
        invariant
            a <= j <= b,
            r@ == s@.subrange(a as int, j as int),
        decreases b - j,
    {
        r.push(s[j]);
        proof {
            assert(r@ =~= s@.subrange(a as int, j + 1));
        }
        j += 1;
    }
    r
}

/// Build the added-token list from a space-separated token string;
/// every piece becomes a special, single-word token.
#[verifier::loop_isolation(false)]
pub fn get_tokens_from_str(token_str: &str) -> (r: Vec<AddedToken>)
    ensures
        toks_chars(r@) == spec_split_spaces(token_str@),
        forall|k: int|
            0 <= k < r@.len() ==> (#[trigger] r@[k]).special && r@[k].single_word,
{
    let s = str_chars(token_str);
    let ghost goal = spec_split_spaces(token_str@);
    let n = s.len();
    let mut r: Vec<AddedToken> = Vec::new();
    let mut i: usize = 0;
    let mut start: usize = 0;
    proof {
        assert(r@ =~= Seq::<AddedToken>::empty());
        assert(toks_chars(r@) =~= Seq::<Seq<char>>::empty());
        assert(Seq::<Seq<char>>::empty() + split_sp(s@, 0, 0) =~= split_sp(s@, 0, 0));
    }
    while i < n
        invariant
            n == s@.len(),
            s@ == token_str@,
            start <= i <= n,
            goal == spec_split_spaces(token_str@),
            toks_chars(r@) + split_sp(s@, i as int, start as int) == goal,
            forall|k: int|
                0 <= k < r@.len() ==> (#[trigger] r@[k]).special && r@[k].single_word,
        decreases n - i,
    {
        let ghost prev = toks_chars(r@);
        let ghost rest = split_sp(s@, i as int, start as int);
        if s[i] == ' ' {
            proof {
                lemma_split_sp_space(s@, i as int, start as int);
            }
            let piece = copy_chars(&s, start, i);
            let t = AddedToken { chars: piece, special: true, single_word: true };
            r.push(t);
            proof {
                lemma_toks_push(r@.drop_last(), t);
                assert(r@ =~= r@.drop_last().push(t));
                assert(toks_chars(r@) + split_sp(s@, i + 1, i + 1) =~= prev + rest);
            }
            i += 1;
            start = i;
        } else {
            proof {
                lemma_split_sp_cont(s@, i as int, start as int);
            }
            i += 1;
        }
    }
    let piece = copy_chars(&s, start, n);
    let t = AddedToken { chars: piece, special: true, single_word: true };
    let ghost prev = toks_chars(r@);
    r.push(t);
    proof {
        assert(split_sp(s@, n as int, start as int) == seq![s@.subrange(start as int, n as int)]);
        lemma_toks_push(r@.drop_last(), t);
        assert(r@ =~= r@.drop_last().push(t));
        assert(toks_chars(r@) =~= prev + seq![s@.subrange(start as int, n as int)]);
    }
    r
}

/// One service-boundary request/response record: the input text, the
/// id buffer, the count of ids written, and the success flag.
pub struct Query {
    pub input: String,
    pub output_ids: Vec<u32>,
    pub num_ids: usize,
    pub tokenize_ok: bool,
}

impl Query {
    /// A fresh query for `input`, with an empty output buffer.
    pub fn new(input: String) -> (r: Query)
        ensures
            r.input@ == input@,
            r.output_ids@.len() == 0,
            r.num_ids == 0,
            !r.tokenize_ok,
    {
        Query { input, output_ids: Vec::new(), num_ids: 0, tokenize_ok: false }
    }

    /// A copy of the input text.
    pub fn get_input_string(&self) -> (r: String)
        ensures
            r@ == self.input@,
    {
        self.input.clone()
    }

    /// Write the first `max_length` ids (or all of them, whichever is
    /// fewer) into the output buffer: silent, deterministic truncation.
    #[verifier::loop_isolation(false)]
    pub fn set_token_ids(&mut self, ids: &Vec<u32>, max_length: usize)
        ensures
            ({
                let m = if max_length < ids@.len() {
                    max_length as int
                } else {
                    ids@.len() as int
                };
                &&& final(self).output_ids@ == ids@.take(m)
                &&& final(self).num_ids == m
                &&& final(self).input == old(self).input
                &&& final(self).tokenize_ok == old(self).tokenize_ok
            }),
    {
        let m = if max_length < ids.len() {
            max_length
        } else {
            ids.len()
        };
        let mut out: Vec<u32> = Vec::new();
        let mut j: usize = 0;
        while j < m
            invariant
                m <= ids@.len(),
                j <= m,
                out@ == ids@.take(j as int),
            decreases m - j,
        {
            out.push(ids[j]);
            proof {
                assert(out@ =~= ids@.take(j + 1));
            }
            j += 1;
        }
        self.output_ids = out;
        self.num_ids = m;
    }

    /// Record whether tokenization succeeded.
    pub fn set_flag(&mut self, ok: bool)
        ensures
            final(self).tokenize_ok == ok,
            final(self).input == old(self).input,
            final(self).output_ids == old(self).output_ids,
            final(self).num_ids == old(self).num_ids,
    {
        self.tokenize_ok = ok;
    }
}

/// The instance `initialize` builds from its arguments.
pub open spec fn inst_configured(
    inst: TokenizerInstance,
    lines: Seq<Seq<char>>,
    specials: Seq<char>,
    do_lower_case: bool,
    max: int,
) -> bool {
    &&& inst.wf()
    &&& inst.vocab@ == lines
    &&& spec_id_of(inst.vocab@, spec_unk_token()) == Some(inst.vocab.unk_id as int)
    &&& inst.vocab@[inst.vocab.unk_id as int] == spec_unk_token()
    &&& inst.flags == NormFlags { do_lower: do_lower_case, strip_accents: true, handle_cjk: true }
    &&& inst.max_word == max
    &&& inst.prefix@ == spec_prefix()
    &&& toks_chars(inst.added@) == spec_split_spaces(specials)
    &&& forall|k: int|
        0 <= k < inst.added@.len() ==> (#[trigger] inst.added@[k]).special
            && inst.added@[k].single_word
}

impl TokenizerInstance {
    /// Build one instance: the vocabulary from the file's lines (id =
    /// line number), the added tokens from the space-separated special
    /// token list, the normalizer from the casing switch. Fails,
    /// building nothing, when the vocabulary lacks the unknown token
    /// or cannot be indexed.
    pub fn new(
        vocab_lines: Vec<String>,
        special_tokens: &str,
        do_lower_case: bool,
        max_input_chars_per_word: usize,
    ) -> (r: Result<TokenizerInstance, TokError>)
        ensures
            match r {
                Ok(inst) => inst_configured(
                    inst,
                    vocab_lines@.map_values(|s: String| s@),
                    special_tokens@,
                    do_lower_case,
                    max_input_chars_per_word as int,
                ),
                Err(e) => {
                    &&& e == TokError::VocabLoad
                    &&& {
                        ||| !spec_has_token(
                            vocab_lines@.map_values(|s: String| s@),
                            spec_unk_token(),
                        )
                        ||| vocab_lines@.len() > 0xFFFF_FFFF
                    }
                },
            },
    {
        let mut unk: Vec<char> = Vec::new();
        unk.push('[');
        unk.push('U');
        unk.push('N');
        unk.push('K');
        unk.push(']');
        proof {
            assert(unk@ =~= spec_unk_token());
        }
        let voc = match Vocabulary::from_lines(vocab_lines, &unk) {
            Some(v) => v,
            None => {
                return Err(TokError::VocabLoad);
            },
        };
        let added = get_tokens_from_str(special_tokens);
        let mut prefix: Vec<char> = Vec::new();
        prefix.push('#');
        prefix.push('#');
        proof {
            assert(prefix@ =~= spec_prefix());
        }
        Ok(
            TokenizerInstance {
                vocab: voc,
                added,
                flags: NormFlags {
                    do_lower: do_lower_case,
                    strip_accents: true,
                    handle_cjk: true,
                },
                max_word: max_input_chars_per_word,
                prefix,
            },
        )
    }

    /// Decode an id sequence with this instance's vocabulary and
    /// continuation prefix.
    pub fn decode(&self, ids: &Vec<u32>, skip_special: bool) -> (r: Result<String, TokError>)
        requires
            self.wf(),
        ensures
            ({
                let idsv = ids@.map_values(|x: u32| x as int);
                match r {
                    Ok(s) => spec_decode(self.vocab@, self.prefix@, self.added@, skip_special, idsv)
                        == Some(s@),
                    Err(e) => e == TokError::DecodeFailure && spec_decode(
                        self.vocab@,
                        self.prefix@,
                        self.added@,
                        skip_special,
                        idsv,
                    ) is None,
                }
            }),
    {
        crate::decode::decode_ids(&self.vocab, &self.added, &self.prefix, ids, skip_special)
    }
}

/// The registry of configured tokenizer instances, append-only; the
/// last one is active. `num_contexts` records the caller's context
/// hint from the most recent successful initialization.
pub struct Registry {
    pub instances: Vec<TokenizerInstance>,
    pub num_contexts: usize,
}

impl Registry {
    pub open spec fn wf(&self) -> bool {
        forall|i: int|
            0 <= i < self.instances@.len() ==> (#[trigger] self.instances@[i]).wf()
    }

    /// How one query comes out of `tokenize` against this registry:
    /// with no instance the query is flagged failed; otherwise the
    /// active instance encodes the input, and on success the buffer
    /// holds exactly the first `cap` ids (or all of them) in order.
    pub open spec fn tokenized(self, oldq: Query, newq: Query, cap: int) -> bool {
        if self.instances@.len() == 0 {
            &&& newq.input@ == oldq.input@
            &&& newq.output_ids@.len() == 0
            &&& newq.num_ids == 0
            &&& !newq.tokenize_ok
        } else {
            let inst = self.instances@.last();
            if inst.encode_ok(oldq.input@) {
                let pieces = inst.spec_pieces(oldq.input@);
                let m = if cap < pieces.len() {
                    cap
                } else {
                    pieces.len() as int
                };
                &&& newq.input@ == oldq.input@
                &&& newq.tokenize_ok
                &&& newq.num_ids == m
                &&& newq.output_ids@.len() == m
                &&& forall|j: int|
                    0 <= j < m ==> (#[trigger] newq.output_ids@[j]) as int == pieces[j].id
            } else {
                &&& newq.input@ == oldq.input@
                &&& newq.output_ids@.len() == 0
                &&& newq.num_ids == 0
                &&& !newq.tokenize_ok
            }
        }
    }

    pub fn new() -> (r: Registry)
        ensures
            r.instances@.len() == 0,
            r.num_contexts == 0,
            r.wf(),
    {
        Registry { instances: Vec::new(), num_contexts: 0 }
    }

    /// Load a vocabulary, build an instance, and append it. On failure
    /// the registry is unchanged; on success the handle of the new —
    /// now active — instance is returned.
    pub fn initialize(
        &mut self,
        vocab_lines: Vec<String>,
        special_tokens: &str,
        do_lower_case: bool,
        max_input_chars_per_word: usize,
        num_contexts: usize,
    ) -> (r: Result<usize, TokError>)
        requires
            old(self).wf(),
        ensures
            final(self).wf(),
            match r {
                Ok(h) => {
                    &&& h == old(self).instances@.len()
                    &&& final(self).num_contexts == num_contexts
                    &&& final(self).instances@.len() == old(self).instances@.len() + 1
                    &&& final(self).instances@.subrange(0, h as int) == old(self).instances@
                    &&& inst_configured(
                        final(self).instances@.last(),
                        vocab_lines@.map_values(|s: String| s@),
                        special_tokens@,
                        do_lower_case,
                        max_input_chars_per_word as int,
                    )
                },
                Err(e) => {
                    &&& *final(self) == *old(self)
                    &&& e == TokError::VocabLoad
                    &&& {
                        ||| !spec_has_token(
                            vocab_lines@.map_values(|s: String| s@),
                            spec_unk_token(),
                        )
                        ||| vocab_lines@.len() > 0xFFFF_FFFF
                    }
                },
            },
    {
        let inst = match TokenizerInstance::new(
            vocab_lines,
            special_tokens,
            do_lower_case,
            max_input_chars_per_word,
        ) {
            Ok(inst) => inst,
            Err(e) => {
                return Err(e);
            },
        };
        let h = self.instances.len();
        self.num_contexts = num_contexts;
        self.instances.push(inst);
        proof {
            assert(self.instances@.subrange(0, h as int) =~= old(self).instances@);
            assert(self.instances@.last() == inst);
        }
        Ok(h)
    }

    /// The active instance: the most recently appended one, if any.
    pub fn active(&self) -> (r: Option<&TokenizerInstance>)
        ensures
            match r {
                Some(inst) => self.instances@.len() > 0 && *inst == self.instances@.last(),
                None => self.instances@.len() == 0,
            },
    {
        let n = self.instances.len();
        if n == 0 {
            None
        } else {
            Some(&self.instances[n - 1])
        }
    }

    /// Run the pipeline on one query against the active instance,
    /// writing at most `max_output` ids and setting the flag. An empty
    /// registry or a failing encode is reported, never a panic. On
    /// success the true, untruncated token count is returned, so a
    /// caller can detect truncation by comparing it with `num_ids`.
    pub fn tokenize(&self, query: &mut Query, max_output: usize) -> (r: Result<usize, TokError>)
        requires
            self.wf(),
        ensures
            self.tokenized(*old(query), *final(query), max_output as int),
            match r {
                Ok(total) => self.instances@.len() > 0 && self.instances@.last().encode_ok(
                    old(query).input@,
                ) && total == self.instances@.last().spec_pieces(old(query).input@).len(),
                Err(e) => {
                    ||| (e == TokError::Uninitialized && self.instances@.len() == 0)
                    ||| (e == TokError::EncodeFailure && self.instances@.len() > 0
                        && !self.instances@.last().encode_ok(old(query).input@))
                },
            },
    {
        let n = self.instances.len();
        if n == 0 {
            query.output_ids = Vec::new();
            query.num_ids = 0;
            query.set_flag(false);
            return Err(TokError::Uninitialized);
        }
        let inst = &self.instances[n - 1];
        let res = inst.encode(query.input.as_str());
        match res {
            Ok(enc) => {
                let total = enc.len();
                let ids = enc.get_ids();
                query.set_token_ids(&ids, max_output);
                query.set_flag(true);
                proof {
                    let pieces = inst.spec_pieces(old(query).input@);
                    let cap = max_output as int;
                    let m = if cap < pieces.len() {
                        cap
                    } else {
                        pieces.len() as int
                    };
                    assert(ids@.len() == pieces.len());
                    assert(query.output_ids@ == ids@.take(m));
                    assert forall|j: int| 0 <= j < m implies (#[trigger] query.output_ids@[j]) as int
                        == pieces[j].id by {
                        assert(query.output_ids@[j] == ids@[j]);
                    }
                }
                Ok(total)
            },
            Err(e) => {
                query.output_ids = Vec::new();
                query.num_ids = 0;
                query.set_flag(false);
                Err(e)
            },
        }
    }

    /// Tokenize every query independently: one query's failure leaves
    /// every other query's result exactly as `tokenize` alone would
    /// produce it.
    #[verifier::loop_isolation(false)]
    pub fn batch_tokenize(&self, queries: Vec<Query>, max_output: usize) -> (r: Vec<Query>)
        requires
            self.wf(),
        ensures
            r@.len() == queries@.len(),
            forall|i: int|
                0 <= i < queries@.len() ==> self.tokenized(
                    queries@[i],
                    #[trigger] r@[i],
                    max_output as int,
                ),
    {
        let n = queries.len();
        let mut out: Vec<Query> = Vec::new();
        let mut i: usize = 0;
        while i < n
            invariant
                n == queries@.len(),
                i <= n,
                out@.len() == i,
                forall|j: int|
                    0 <= j < i ==> self.tokenized(queries@[j], #[trigger] out@[j], max_output as int),
            decreases n - i,
        {
            let mut q = Query {
                input: queries[i].input.clone(),
                output_ids: Vec::new(),
                num_ids: 0,
                tokenize_ok: false,
            };
            let ghost q0 = q;
            let _res = self.tokenize(&mut q, max_output);
            proof {
                assert(self.tokenized(q0, q, max_output as int));
                assert(q0.input@ == queries@[i as int].input@);
                assert(self.tokenized(queries@[i as int], q, max_output as int));
            }
            out.push(q);
            i += 1;
        }
        out
    }
}

} // verus!
