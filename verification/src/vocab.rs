//! The token table: token string to id (its position) and back.
//!
//! Ids are line numbers of the vocabulary file, so the table is a plain
//! sequence of token strings; lookup returns the first position holding
//! the key. The table is immutable after construction and always
//! resolves the designated unknown token.

use vstd::prelude::*;

verus! {

/// First position of `t` in `v` at or after `i`.
pub open spec fn id_from(v: Seq<Seq<char>>, t: Seq<char>, i: int) -> Option<int>
    decreases v.len() - i,
{
    if i < 0 || i >= v.len() {
        None
    } else if v[i] == t {
        Some(i)
    } else {
        id_from(v, t, i + 1)
    }
}

/// The id of token `t`: the first position of `t` in the table.
pub open spec fn spec_id_of(v: Seq<Seq<char>>, t: Seq<char>) -> Option<int> {
    id_from(v, t, 0)
}

pub open spec fn spec_has_token(v: Seq<Seq<char>>, t: Seq<char>) -> bool {
    spec_id_of(v, t) is Some
}

/// Character-wise equality of two vectors.
pub fn chars_eq(a: &Vec<char>, b: &Vec<char>) -> (r: bool)
    ensures
        r == (a@ == b@),
{
    if a.len() != b.len() {
        proof {
            assert(a@ != b@) by {
                assert(a@.len() != b@.len());
            }
        }
        return false;
    }
    let n = a.len();
    let mut i: usize = 0;
    while i < n
        invariant
            n == a.len() == b.len(),
            i <= n,
            forall|j: int| 0 <= j < i ==> a@[j] == b@[j],
        decreases n - i,
    {
        if a[i] != b[i] {
            return false;
        }
        i += 1;
    }
    proof {
        assert(a@ =~= b@);
    }
    true
}

/// The characters of a string, one per Unicode scalar.
pub fn str_chars(s: &str) -> (r: Vec<char>)
    ensures
        r@ == s@,
{
    let n = s.unicode_len();
    let mut r: Vec<char> = Vec::new();
    let mut i: usize = 0;
    while i < n
        invariant
            n == s@.len(),
            i <= n,
            r@ == s@.take(i as int),
        decreases n - i,
    {
        let c = s.get_char(i);
        r.push(c);
        proof {
            assert(r@ =~= s@.take(i + 1 as int));
        }
        i += 1;
    }
    proof {
        assert(s@.take(n as int) =~= s@);
    }
    r
}

/// The token table. `entry_chars` mirrors `entries` character for
/// character so lookups can compare characters directly.
pub struct Vocabulary {
    pub entries: Vec<String>,
    pub entry_chars: Vec<Vec<char>>,
    pub unk_id: usize,
}

impl View for Vocabulary {
    type V = Seq<Seq<char>>;

    open spec fn view(&self) -> Seq<Seq<char>> {
        self.entries@.map_values(|s: String| s@)
    }
}

impl Vocabulary {
    pub open spec fn wf(&self) -> bool {
        &&& self.entry_chars@.len() == self.entries@.len()
        &&& forall|i: int|
            0 <= i < self.entries@.len() ==> self.entry_chars@[i]@ == self@[i]
        &&& self.unk_id < self.entries@.len()
        &&& self.entries@.len() <= 0xFFFF_FFFF
    }

    /// Build the table from the vocabulary file's lines (id = line
    /// number). Fails when the unknown token is absent or the table
    /// cannot be indexed by 32-bit ids; the failure is a load error and
    /// nothing is built.
    pub fn from_lines(lines: Vec<String>, unk: &Vec<char>) -> (r: Option<Vocabulary>)
        ensures
            match r {
                Some(v) => {
                    &&& v.wf()
                    &&& v@ == lines@.map_values(|s: String| s@)
                    &&& spec_id_of(v@, unk@) == Some(v.unk_id as int)
                    &&& v@[v.unk_id as int] == unk@
                },
                None => {
                    ||| !spec_has_token(lines@.map_values(|s: String| s@), unk@)
                    ||| lines@.len() > 0xFFFF_FFFF
                },
            },
    {
        if lines.len() > 0xFFFF_FFFF {
            return None;
        }
        let ghost v: Seq<Seq<char>> = lines@.map_values(|s: String| s@);
        let n = lines.len();
        let mut entry_chars: Vec<Vec<char>> = Vec::new();
        let mut i: usize = 0;
        while i < n
            invariant
                n == lines@.len(),
                i <= n,
                v == lines@.map_values(|s: String| s@),
                entry_chars@.len() == i,
                forall|j: int| 0 <= j < i ==> entry_chars@[j]@ == v[j],
            decreases n - i,
        {
            let cs = str_chars(lines[i].as_str());
            entry_chars.push(cs);
            i += 1;
        }
        let mut unk_id: usize = 0;
        let mut found = false;
        let mut k: usize = 0;
        while k < n && !found
            invariant
                n == lines@.len(),
                k <= n,
                v == lines@.map_values(|s: String| s@),
                entry_chars@.len() == n,
                forall|j: int| 0 <= j < n ==> entry_chars@[j]@ == v[j],
                !found ==> id_from(v, unk@, 0) == id_from(v, unk@, k as int),
                found ==> id_from(v, unk@, 0) == Some(unk_id as int) && unk_id < n && v[
                    unk_id as int
                ] == unk@,
            decreases n - k,
        {
            if chars_eq(&entry_chars[k], unk) {
                found = true;
                unk_id = k;
            }
            k += 1;
        }
        if !found {
            proof {
                assert(id_from(v, unk@, n as int) is None);
            }
            return None;
        }
        Some(Vocabulary { entries: lines, entry_chars, unk_id })
    }

    /// First id holding exactly `key`, if any.
    pub fn find(&self, key: &Vec<char>) -> (r: Option<usize>)
        requires
            self.wf(),
        ensures
            match r {
                Some(id) => spec_id_of(self@, key@) == Some(id as int),
                None => spec_id_of(self@, key@) is None,
            },
    {
        let n = self.entries.len();
        let mut i: usize = 0;
        while i < n
            invariant
                self.wf(),
                n == self.entries@.len(),
                i <= n,
                id_from(self@, key@, 0) == id_from(self@, key@, i as int),
            decreases n - i,
        {
            if chars_eq(&self.entry_chars[i], key) {
                return Some(i);
            }
            i += 1;
        }
        None
    }

    pub fn len(&self) -> (r: usize)
        ensures
            r == self@.len(),
    {
        self.entries.len()
    }

    /// The token string of id `id` (a fresh copy).
    pub fn token_string(&self, id: usize) -> (r: String)
        requires
            self.wf(),
            id < self@.len(),
        ensures
            r@ == self@[id as int],
    {
        self.entries[id].clone()
    }

    /// The characters of the token of id `id`.
    pub fn token_chars(&self, id: usize) -> (r: &Vec<char>)
        requires
            self.wf(),
            id < self@.len(),
        ensures
            r@ == self@[id as int],
    {
        &self.entry_chars[id]
    }
}

} // verus!
