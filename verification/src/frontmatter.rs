//! Frontmatter extraction: a document may open with a `---` line, YAML
//! metadata, and a closing `---` line. The split into metadata block and
//! body is this crate's logic; turning the block's YAML into a JSON value
//! is serde's.

use vstd::prelude::*;
use crate::host_api::ApiError;
use crate::markdown::trim_ws;
use crate::strutil::{self, push_char, seq_views};

verus! {

/// The JSON value type frontmatter is surfaced as.
#[verifier::external_type_specification]
#[verifier::external_body]
pub struct ExValue(serde_json::Value);

/// Whether serde_yaml accepts a text as a YAML document; the outcome
/// depends on the text alone.
pub uninterp spec fn yaml_parses(s: Seq<char>) -> bool;

/// Relies on serde_yaml::from_str deserializing into serde_json's value
/// type: parses YAML text, or reports why it cannot; the error is rendered
/// as text. Acceptance is a deterministic function of the text.
#[verifier::external_body]
fn yaml_to_json(yaml: &str) -> (r: Result<serde_json::Value, String>)
    ensures
        r is Ok <==> yaml_parses(yaml@),
{
    serde_yaml::from_str::<serde_json::Value>(yaml).map_err(|e| e.to_string())
}

/// One trailing carriage return is dropped from a line that had one.
pub open spec fn strip_cr(l: Seq<char>) -> Seq<char> {
    if l.len() > 0 && l.last() == '\r' {
        l.drop_last()
    } else {
        l
    }
}

/// Index of the first `'\n'` in `s`, or `s.len()` if there is none.
pub open spec fn first_nl(s: Seq<char>) -> int
    decreases s.len(),
{
    if s.len() == 0 {
        0
    } else if s[0] == '\n' {
        0
    } else {
        1 + first_nl(s.skip(1))
    }
}

proof fn lemma_first_nl_is(s: Seq<char>, i: int)
    requires
        0 <= i <= s.len(),
        i < s.len() ==> s[i] == '\n',
        forall|k: int| 0 <= k < i ==> s[k] != '\n',
    ensures
        first_nl(s) == i,
    decreases s.len(),
{
    if s.len() > 0 && s[0] != '\n' {
        assert(forall|k: int| 0 <= k < i - 1 ==> s.skip(1)[k] == s[k + 1]);
        lemma_first_nl_is(s.skip(1), i - 1);
    }
}

/// The lines of a nonempty text: split at `'\n'`, a `"\r\n"` ending counted
/// as one line ending, and a final line ending producing no empty line.
pub open spec fn lines_rec(s: Seq<char>) -> Seq<Seq<char>>
    decreases s.len(),
{
    let i = first_nl(s);
    if 0 <= i && i < s.len() - 1 {
        seq![strip_cr(s.take(i))] + lines_rec(s.skip(i + 1))
    } else if i == s.len() - 1 {
        seq![strip_cr(s.take(i))]
    } else {
        seq![s]
    }
}

/// The lines of a text; the empty text has none.
pub open spec fn lines_of(s: Seq<char>) -> Seq<Seq<char>> {
    if s.len() == 0 {
        Seq::empty()
    } else {
        lines_rec(s)
    }
}

/// Lines joined back with `'\n'`.
pub open spec fn join_nl(ls: Seq<Seq<char>>) -> Seq<char>
    decreases ls.len(),
{
    if ls.len() == 0 {
        Seq::empty()
    } else if ls.len() == 1 {
        ls[0]
    } else {
        join_nl(ls.drop_last()) + seq!['\n'] + ls.last()
    }
}

/// The text opens a frontmatter block.
pub open spec fn starts_with_dashes(s: Seq<char>) -> bool {
    s.len() >= 3 && s.take(3) == "---"@
}

/// A closing delimiter line: exactly `---` once surrounding whitespace is
/// trimmed.
pub open spec fn is_close_line(l: Seq<char>) -> bool {
    crate::markdown::trimmed_ws(l) == "---"@
}

/// Index of the first closing delimiter line at or after line 1, or the
/// number of lines when there is none.
pub open spec fn close_idx(ls: Seq<Seq<char>>) -> int
    decreases ls.len(),
{
    close_idx_from(ls, 1)
}

pub open spec fn close_idx_from(ls: Seq<Seq<char>>, i: int) -> int
    decreases ls.len() - i,
{
    if i < 0 || i >= ls.len() {
        ls.len() as int
    } else if is_close_line(ls[i]) {
        i
    } else {
        close_idx_from(ls, i + 1)
    }
}

/// A document has a frontmatter block when it opens with `---` and some
/// later line closes it.
pub open spec fn has_block(s: Seq<char>) -> bool {
    starts_with_dashes(s) && close_idx(lines_of(s)) < lines_of(s).len()
}

/// The YAML text between the delimiter lines.
pub open spec fn block_text(s: Seq<char>) -> Seq<char> {
    join_nl(lines_of(s).subrange(1, close_idx(lines_of(s))))
}

/// The document body after the closing delimiter line.
pub open spec fn body_text(s: Seq<char>) -> Seq<char> {
    join_nl(lines_of(s).subrange(close_idx(lines_of(s)) + 1, lines_of(s).len() as int))
}

/// Split a text into its lines.
fn split_lines(s: &str) -> (r: Vec<String>)
    ensures
        seq_views(r@) == lines_of(s@),
{
    let mut out: Vec<String> = Vec::new();
    let n: usize = s.unicode_len();
    if n == 0 {
        proof {
            assert(seq_views(out@) =~= lines_of(s@));
        }
        return out;
    }
    let mut start: usize = 0;
    proof {
        assert(s@.skip(0) =~= s@);
        assert(lines_of(s@) =~= seq_views(out@) + lines_rec(s@.skip(0)));
    }
    // Invariant: the lines of the whole text are the lines already produced
    // followed by the lines of the unprocessed tail.
    while start < n
        invariant
            0 <= start <= n,
            n == s@.len(),
            start < n ==> lines_of(s@) == seq_views(out@) + lines_rec(s@.skip(start as int)),
            start == n ==> lines_of(s@) == seq_views(out@),
        decreases n - start,
    {
        let ghost rest = s@.skip(start as int);
        let mut j: usize = start;
        while j < n && s.get_char(j) != '\n'
            invariant
                start <= j <= n,
                n == s@.len(),
                forall|k: int| start <= k < j ==> s@[k] != '\n',
            decreases n - j,
        {
            j = j + 1;
        }
        proof {
            assert(forall|k: int|
                0 <= k < j - start ==> rest[k] == s@[start + k] && s@[start + k] != '\n');
            if j < n {
                assert(rest[j - start] == s@[j as int]);
            }
            lemma_first_nl_is(rest, j - start);
        }
        let mut piece = s.substring_char(start, j).to_owned();
        proof {
            assert(piece@ =~= rest.take(j - start));
        }
        if j < n {
            // terminated line: strip one trailing carriage return
            let pn = piece.as_str().unicode_len();
            if pn > 0 && piece.as_str().get_char(pn - 1) == '\r' {
                let stripped = piece.as_str().substring_char(0, pn - 1).to_owned();
                proof {
                    assert(stripped@ =~= piece@.drop_last());
                }
                piece = stripped;
            }
            proof {
                assert(piece@ == strip_cr(rest.take(j - start)));
            }
        }
        let ghost opre = seq_views(out@);
        let ghost piecev = piece@;
        out.push(piece);
        proof {
            assert(seq_views(out@) =~= opre.push(piecev)) by {
                let ov = seq_views(out@);
                assert(forall|k: int| 0 <= k < opre.len() ==> #[trigger] ov[k] == opre[k]);
                assert(ov[ov.len() - 1] == piecev);
            }
            let i = first_nl(rest);
            assert(i == j - start);
            if j == n {
                assert(lines_rec(rest) =~= seq![rest]);
                assert(rest.take(i) =~= rest);
                assert(piecev == rest);
                assert(seq_views(out@) =~= opre + lines_rec(rest));
            } else if j == n - 1 {
                assert(lines_rec(rest) =~= seq![strip_cr(rest.take(i))]);
                assert(seq_views(out@) =~= opre + lines_rec(rest));
            } else {
                assert(lines_rec(rest) =~= seq![strip_cr(rest.take(i))] + lines_rec(
                    rest.skip(i + 1),
                ));
                assert(rest.skip(i + 1) =~= s@.skip(j + 1));
                assert(seq_views(out@) + lines_rec(s@.skip(j + 1)) =~= opre + lines_rec(rest));
            }
        }
        start = if j < n {
            j + 1
        } else {
            n
        };
    }
    out
}

/// Join a range of lines back into one text.
fn join_range(lines: &Vec<String>, a: usize, b: usize) -> (r: String)
    requires
        a <= b <= lines@.len(),
    ensures
        r@ == join_nl(seq_views(lines@).subrange(a as int, b as int)),
{
    let ghost lv = seq_views(lines@);
    let mut out = String::new();
    let mut k: usize = a;
    proof {
        assert(join_nl(lv.subrange(a as int, a as int)) =~= Seq::<char>::empty()) by {
            assert(lv.subrange(a as int, a as int).len() == 0);
        }
    }
    while k < b
        invariant
            a <= k <= b <= lines@.len(),
            lv == seq_views(lines@),
            lv.len() == lines@.len(),
            out@ == join_nl(lv.subrange(a as int, k as int)),
        decreases b - k,
    {
        proof {
            assert(lv.subrange(a as int, k + 1).drop_last() =~= lv.subrange(a as int, k as int));
            assert(lv.subrange(a as int, k + 1).last() == lv[k as int]);
            assert(lv[k as int] == lines@[k as int]@);
        }
        if k > a {
            push_char(&mut out, '\n');
        }
        out.append(lines[k].as_str());
        proof {
            if k == a {
                assert(lv.subrange(a as int, k + 1).len() == 1);
                assert(lv.subrange(a as int, k + 1)[0] == lv[k as int]);
            }
        }
        k = k + 1;
    }
    out
}

/// Parse the frontmatter of a document. A document that does not open with
/// `---`, or whose block never closes, is returned whole with no metadata.
/// Otherwise the YAML block is parsed: on success the metadata value and
/// the body after the closing line are returned; YAML the parser rejects is
/// an invalid-input error.
pub fn parse_frontmatter(content: &str) -> (r: Result<
    (Option<serde_json::Value>, String),
    ApiError,
>)
    ensures
        !has_block(content@) ==> (r matches Ok(p) && p.0 is None && p.1@ == content@),
        has_block(content@) ==> (r is Ok <==> yaml_parses(block_text(content@))),
        has_block(content@) && r is Ok ==> (r matches Ok(p) && p.0 is Some && p.1@ == body_text(
            content@,
        )),
        r is Err ==> has_block(content@) && (r matches Err(ApiError::InvalidInput { .. })),
{
    let n: usize = content.unicode_len();
    let no_dashes: bool = if n < 3 {
        true
    } else {
        let c0 = content.get_char(0);
        let c1 = content.get_char(1);
        let c2 = content.get_char(2);
        proof {
            if c0 == '-' && c1 == '-' && c2 == '-' {
                reveal_strlit("---");
                assert(content@.take(3) =~= "---"@);
            } else {
                reveal_strlit("---");
                assert(content@.take(3)[0] == content@[0]);
                if content@.take(3) == "---"@ {
                    assert(content@.take(3)[0] == '-');
                    assert(content@.take(3)[1] == '-');
                    assert(content@.take(3)[2] == '-');
                }
            }
        }
        !(c0 == '-' && c1 == '-' && c2 == '-')
    };
    if no_dashes {
        return Ok((None, content.to_owned()));
    }
    let lines = split_lines(content);
    let ghost lv = seq_views(lines@);
    proof {
        assert(lv.len() >= 1) by {
            assert(lines_of(content@) == lines_rec(content@));
        }
    }
    let mut end: usize = 1;
    while end < lines.len() && !is_close(&lines[end])
        invariant
            1 <= end <= lines@.len(),
            lv == seq_views(lines@),
            lv.len() == lines@.len(),
            lv.len() >= 1,
            forall|k: int| 1 <= k < end ==> !is_close_line(#[trigger] lv[k]),
        decreases lines@.len() - end,
    {
        proof {
            assert(lv[end as int] == lines@[end as int]@);
        }
        end = end + 1;
    }
    proof {
        if end < lines@.len() {
            assert(lv[end as int] == lines@[end as int]@);
        }
        lemma_close_idx_is(lv, end as int);
    }
    if end == lines.len() {
        // no closing delimiter: treated as ordinary content
        return Ok((None, content.to_owned()));
    }
    let yaml = join_range(&lines, 1, end);
    let remaining = if end + 1 < lines.len() {
        join_range(&lines, end + 1, lines.len())
    } else {
        proof {
            assert(join_nl(lv.subrange(end + 1, lv.len() as int)) =~= Seq::<char>::empty()) by {
                assert(lv.subrange(end + 1, lv.len() as int).len() == 0);
            }
        }
        String::new()
    };
    match yaml_to_json(yaml.as_str()) {
        Ok(value) => Ok((Some(value), remaining)),
        Err(e) => {
            let mut m = String::new();
            m.append("Invalid YAML frontmatter: ");
            m.append(e.as_str());
            Err(ApiError::InvalidInput { message: m })
        },
    }
}

/// Is this line a closing delimiter once trimmed?
fn is_close(line: &String) -> (r: bool)
    ensures
        r == is_close_line(line@),
{
    let trimmed = trim_ws(line.as_str());
    strutil::str_eq(trimmed.as_str(), "---")
}

/// `close_idx` is the first closing line at or after line 1.
proof fn lemma_close_idx_is(ls: Seq<Seq<char>>, i: int)
    requires
        1 <= i <= ls.len(),
        i < ls.len() ==> is_close_line(ls[i]),
        forall|k: int| 1 <= k < i ==> !is_close_line(#[trigger] ls[k]),
    ensures
        close_idx(ls) == if i < ls.len() {
            i
        } else {
            ls.len() as int
        },
{
    lemma_close_idx_from(ls, 1, i);
}

proof fn lemma_close_idx_from(ls: Seq<Seq<char>>, j: int, i: int)
    requires
        1 <= j <= i <= ls.len(),
        i < ls.len() ==> is_close_line(ls[i]),
        forall|k: int| j <= k < i ==> !is_close_line(#[trigger] ls[k]),
    ensures
        close_idx_from(ls, j) == if i < ls.len() {
            i
        } else {
            ls.len() as int
        },
    decreases i - j,
{
    if j < i {
        lemma_close_idx_from(ls, j + 1, i);
    }
}

} // verus!
