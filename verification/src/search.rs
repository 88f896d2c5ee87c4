//! The in-memory full-text search index's data shapes: an inverted index
//! per vault. Indexing and querying walk the vault's files and live with
//! the file access that feeds them; the shapes and their constructors are
//! kept here.

use vstd::prelude::*;
use crate::strutil::seq_views;
use crate::wiki::{lower_of, to_lowercase};

verus! {

/// Whether a character is alphanumeric in the Unicode sense; only such
/// characters make up search terms.
pub uninterp spec fn is_alnum(c: char) -> bool;

/// Relies on char::is_alphanumeric: the Unicode alphanumeric classes, a
/// property of the character alone.
pub assume_specification[ char::is_alphanumeric ](c: char) -> (r: bool)
    ensures
        r == is_alnum(c),
;

/// Length of the maximal alphanumeric prefix.
pub open spec fn run_len(s: Seq<char>) -> int
    decreases s.len(),
{
    if s.len() > 0 && is_alnum(s[0]) {
        1 + run_len(s.skip(1))
    } else {
        0
    }
}

/// The maximal alphanumeric runs of a text, in order: its search terms.
pub open spec fn tokens_of(s: Seq<char>) -> Seq<Seq<char>>
    decreases s.len(),
{
    if s.len() == 0 {
        Seq::empty()
    } else if !is_alnum(s[0]) {
        tokens_of(s.skip(1))
    } else {
        let j = run_len(s);
        if 1 <= j <= s.len() {
            seq![s.take(j)] + tokens_of(s.skip(j))
        } else {
            seq![s]
        }
    }
}

proof fn lemma_run_len_is(s: Seq<char>, j: int)
    requires
        0 <= j <= s.len(),
        forall|k: int| 0 <= k < j ==> is_alnum(#[trigger] s[k]),
        j < s.len() ==> !is_alnum(s[j]),
    ensures
        run_len(s) == j,
    decreases s.len(),
{
    if s.len() > 0 && is_alnum(s[0]) {
        assert(j > 0) by {
            if j == 0 {
                assert(!is_alnum(s[0]));
            }
        }
        assert(forall|k: int| 0 <= k < j - 1 ==> s.skip(1)[k] == s[k + 1]);
        lemma_run_len_is(s.skip(1), j - 1);
    } else {
        assert(j == 0) by {
            if j > 0 {
                assert(is_alnum(s[0]));
            }
        }
    }
}

/// One vault's inverted index: term to scored paths, and file to the terms
/// it contains (for efficient update and removal).
pub struct InvertedIndexData {
    pub terms: Vec<(String, Vec<(String, u32)>)>,
    pub files: Vec<(String, Vec<String>)>,
}

impl InvertedIndexData {
    /// An empty per-vault index.
    pub fn new() -> (r: Self)
        ensures
            r.terms@.len() == 0,
            r.files@.len() == 0,
    {
        InvertedIndexData { terms: Vec::new(), files: Vec::new() }
    }
}

/// The search index: one inverted index per vault id.
pub struct SearchIndex {
    pub indices: Vec<(String, InvertedIndexData)>,
}

impl SearchIndex {
    /// An empty search index.
    pub fn new() -> (r: Self)
        ensures
            r.indices@.len() == 0,
    {
        SearchIndex { indices: Vec::new() }
    }

    /// Split a text into search terms: it is lowercased, and every maximal
    /// alphanumeric run becomes one term.
    pub fn tokenize(content: &str) -> (r: Vec<String>)
        ensures
            seq_views(r@) == tokens_of(lower_of(content@)),
    {
        let low = to_lowercase(content);
        let s = low.as_str();
        let n: usize = s.unicode_len();
        let mut out: Vec<String> = Vec::new();
        let mut i: usize = 0;
        proof {
            assert(s@.skip(0) =~= s@);
            assert(seq_views(out@) + tokens_of(s@.skip(0)) =~= tokens_of(s@));
        }
        while i < n
            invariant
                0 <= i <= n,
                n == s@.len(),
                s@ == lower_of(content@),
                tokens_of(s@) == seq_views(out@) + tokens_of(s@.skip(i as int)),
            decreases n - i,
        {
            let ghost rest = s@.skip(i as int);
            proof {
                assert(rest[0] == s@[i as int]);
                assert(rest.len() == n - i);
            }
            if !s.get_char(i).is_alphanumeric() {
                proof {
                    assert(rest.skip(1) =~= s@.skip(i + 1));
                }
                i = i + 1;
            } else {
                let mut j: usize = i + 1;
                while j < n && s.get_char(j).is_alphanumeric()
                    invariant
                        i < j <= n,
                        n == s@.len(),
                        is_alnum(s@[i as int]),
                        forall|k: int| i <= k < j ==> is_alnum(#[trigger] s@[k]),
                    decreases n - j,
                {
                    j = j + 1;
                }
                let term = s.substring_char(i, j).to_owned();
                proof {
                    assert(forall|k: int| 0 <= k < j - i ==> rest[k] == s@[i + k]);
                    if j < n {
                        assert(rest[j - i] == s@[j as int]);
                    }
                    lemma_run_len_is(rest, j - i);
                    assert(term@ =~= rest.take(j - i));
                }
                let ghost opre = seq_views(out@);
                let ghost termv = term@;
                out.push(term);
                proof {
                    assert(seq_views(out@) =~= opre.push(termv)) by {
                        let ov = seq_views(out@);
                        assert(forall|k: int| 0 <= k < opre.len() ==> #[trigger] ov[k] == opre[k]);
                        assert(ov[ov.len() - 1] == termv);
                    }
                    assert(tokens_of(rest) == seq![rest.take(j - i)] + tokens_of(
                        rest.skip(j - i),
                    ));
                    assert(rest.skip(j - i) =~= s@.skip(j as int));
                    assert(seq_views(out@) + tokens_of(s@.skip(j as int)) =~= opre + tokens_of(
                        rest,
                    ));
                }
                i = j;
            }
        }
        proof {
            assert(tokens_of(s@.skip(n as int)) =~= Seq::<Seq<char>>::empty());
            assert(seq_views(out@) =~= tokens_of(s@));
        }
        out
    }

}

} // verus!
