//! Plain-text extraction and excerpts from markdown text, and HTML escaping.
//! The markdown parse itself is pulldown-cmark's; this module consumes its
//! event stream, reduced to the few event kinds plain-text extraction reads.

use vstd::prelude::*;
use crate::strutil::push_char;

verus! {

/// The markdown events plain-text extraction distinguishes; everything else
/// is `Other`.
pub enum MdEvent {
    Text(String),
    Code(String),
    SoftBreak,
    HardBreak,
    EndParagraph,
    EndHeading,
    Other,
}

/// Mathematical image of one reduced event.
pub enum MdEventView {
    Text(Seq<char>),
    Code(Seq<char>),
    SoftBreak,
    HardBreak,
    EndParagraph,
    EndHeading,
    Other,
}

impl View for MdEvent {
    type V = MdEventView;

    open spec fn view(&self) -> MdEventView {
        match self {
            MdEvent::Text(t) => MdEventView::Text(t@),
            MdEvent::Code(t) => MdEventView::Code(t@),
            MdEvent::SoftBreak => MdEventView::SoftBreak,
            MdEvent::HardBreak => MdEventView::HardBreak,
            MdEvent::EndParagraph => MdEventView::EndParagraph,
            MdEvent::EndHeading => MdEventView::EndHeading,
            MdEvent::Other => MdEventView::Other,
        }
    }
}

/// Views of an event list.
pub open spec fn events_view(evs: Seq<MdEvent>) -> Seq<MdEventView> {
    evs.map_values(|e: MdEvent| e@)
}

/// What pulldown-cmark's event stream for a text is, reduced to the kinds
/// above; a function of the text alone.
pub uninterp spec fn md_events_of(markdown: Seq<char>) -> Seq<MdEventView>;

/// Relies on pulldown-cmark's `Parser::new`: the CommonMark event stream of
/// the text, with each event reduced to the kinds plain-text extraction
/// reads.
#[verifier::external_body]
fn plain_text_events(markdown: &str) -> (r: Vec<MdEvent>)
    ensures
        events_view(r@) == md_events_of(markdown@),
{
    pulldown_cmark::Parser::new(markdown).map(|e| match e {
        pulldown_cmark::Event::Text(t) => MdEvent::Text(t.to_string()),
        pulldown_cmark::Event::Code(t) => MdEvent::Code(t.to_string()),
        pulldown_cmark::Event::SoftBreak => MdEvent::SoftBreak,
        pulldown_cmark::Event::HardBreak => MdEvent::HardBreak,
        pulldown_cmark::Event::End(pulldown_cmark::TagEnd::Paragraph) => MdEvent::EndParagraph,
        pulldown_cmark::Event::End(pulldown_cmark::TagEnd::Heading(_)) => MdEvent::EndHeading,
        _ => MdEvent::Other,
    }).collect()
}

/// One step of plain-text accumulation: the text so far and whether the last
/// event contributed text.
pub open spec fn plain_step(st: (Seq<char>, bool), e: MdEventView) -> (Seq<char>, bool) {
    match e {
        MdEventView::Text(t) => (st.0 + t, true),
        MdEventView::Code(t) => (st.0 + t, true),
        MdEventView::SoftBreak => (st.0 + seq![' '], false),
        MdEventView::HardBreak => (st.0 + seq![' '], false),
        MdEventView::EndParagraph => (
            if st.1 {
                st.0 + seq![' ']
            } else {
                st.0
            },
            false,
        ),
        MdEventView::EndHeading => (
            if st.1 {
                st.0 + seq![' ']
            } else {
                st.0
            },
            false,
        ),
        MdEventView::Other => st,
    }
}

/// Left fold of `plain_step` over an event list.
pub open spec fn plain_fold(evs: Seq<MdEventView>) -> (Seq<char>, bool)
    decreases evs.len(),
{
    if evs.len() == 0 {
        (Seq::empty(), false)
    } else {
        plain_step(plain_fold(evs.drop_last()), evs.last())
    }
}

/// The whitespace characters trimmed from extracted text.
pub open spec fn is_ws(c: char) -> bool {
    c == ' ' || c == '\t' || c == '\n' || c == '\r'
}

/// Drop leading whitespace.
pub open spec fn trim_start_ws(s: Seq<char>) -> Seq<char>
    decreases s.len(),
{
    if s.len() > 0 && is_ws(s[0]) {
        trim_start_ws(s.skip(1))
    } else {
        s
    }
}

/// Drop trailing whitespace.
pub open spec fn trim_end_ws(s: Seq<char>) -> Seq<char>
    decreases s.len(),
{
    if s.len() > 0 && is_ws(s.last()) {
        trim_end_ws(s.drop_last())
    } else {
        s
    }
}

/// Drop whitespace at both ends.
pub open spec fn trimmed_ws(s: Seq<char>) -> Seq<char> {
    trim_end_ws(trim_start_ws(s))
}

/// The plain text of a markdown document: the folded event text, trimmed.
pub open spec fn spec_plain_text(markdown: Seq<char>) -> Seq<char> {
    trimmed_ws(plain_fold(md_events_of(markdown)).0)
}

proof fn lemma_trim_start_at(s: Seq<char>, a: int)
    requires
        0 <= a <= s.len(),
        forall|k: int| 0 <= k < a ==> is_ws(#[trigger] s[k]),
        a < s.len() ==> !is_ws(s[a]),
    ensures
        trim_start_ws(s) == s.skip(a),
    decreases s.len(),
{
    if s.len() > 0 && is_ws(s[0]) {
        if a == 0 {
        } else {
            assert(forall|k: int|
                0 <= k < a - 1 ==> is_ws(#[trigger] s.skip(1)[k]) == is_ws(s[k + 1]));
            lemma_trim_start_at(s.skip(1), a - 1);
            assert(s.skip(1).skip(a - 1) =~= s.skip(a));
        }
    } else {
        assert(a == 0) by {
            if a > 0 {
                assert(is_ws(s[0]));
            }
        }
        assert(s.skip(0) =~= s);
    }
}

proof fn lemma_trim_end_at(s: Seq<char>, b: int)
    requires
        0 <= b <= s.len(),
        forall|k: int| b <= k < s.len() ==> is_ws(#[trigger] s[k]),
        b > 0 ==> !is_ws(s[b - 1]),
    ensures
        trim_end_ws(s) == s.take(b),
    decreases s.len(),
{
    if s.len() > 0 && is_ws(s.last()) {
        assert(b < s.len()) by {
            if b == s.len() {
                assert(!is_ws(s[b - 1]));
                assert(s.last() == s[s.len() - 1]);
            }
        }
        assert(forall|k: int|
            b <= k < s.drop_last().len() ==> is_ws(#[trigger] s.drop_last()[k]) == is_ws(s[k]));
        lemma_trim_end_at(s.drop_last(), b);
        assert(s.drop_last().take(b) =~= s.take(b));
    } else {
        assert(b == s.len()) by {
            if b < s.len() {
                assert(is_ws(s[s.len() - 1])) by {
                    assert(s.last() == s[s.len() - 1]);
                }
                assert(!is_ws(s.last()));
            }
        }
        assert(s.take(b) =~= s);
    }
}

/// Is this character in the trimmed whitespace set?
pub fn is_ws_char(c: char) -> (r: bool)
    ensures
        r == is_ws(c),
{
    c == ' ' || c == '\t' || c == '\n' || c == '\r'
}

/// Trim the whitespace off both ends of a string.
pub fn trim_ws(s: &str) -> (r: String)
    ensures
        r@ == trimmed_ws(s@),
{
    let n: usize = s.unicode_len();
    let mut a: usize = 0;
    while a < n && is_ws_char(s.get_char(a))
        invariant
            0 <= a <= n,
            n == s@.len(),
            forall|k: int| 0 <= k < a ==> is_ws(#[trigger] s@[k]),
        decreases n - a,
    {
        a = a + 1;
    }
    proof {
        lemma_trim_start_at(s@, a as int);
    }
    let mut b: usize = n;
    while b > a && is_ws_char(s.get_char(b - 1))
        invariant
            a <= b <= n,
            n == s@.len(),
            a <= s@.len(),
            forall|k: int| b <= k < n ==> is_ws(#[trigger] s@[k]),
        decreases b,
    {
        b = b - 1;
    }
    let r = s.substring_char(a, b).to_owned();
    proof {
        let t = s@.skip(a as int);
        assert(forall|k: int| 0 <= k < t.len() ==> #[trigger] t[k] == s@[a + k]);
        if b > a {
            assert(!is_ws(s@[b - 1]));
            lemma_trim_end_at(t, b - a);
        } else {
            lemma_trim_end_at(t, 0);
        }
        assert(t.take(b - a) =~= s@.subrange(a as int, b as int));
        assert(r@ == trimmed_ws(s@));
    }
    r
}

/// Markdown utilities offered by the host.
pub struct MarkdownService;

impl MarkdownService {
    /// Extract plain text from markdown: text and inline code joined, with
    /// breaks and block ends becoming single spaces, trimmed at both ends.
    pub fn to_plain_text(markdown: &str) -> (r: String)
        ensures
            r@ == spec_plain_text(markdown@),
    {
        let events = plain_text_events(markdown);
        let ghost evs = events_view(events@);
        let mut text = String::new();
        let mut last_was_text = false;
        let mut i: usize = 0;
        proof {
            assert(evs.take(0) =~= Seq::<MdEventView>::empty());
            assert(text@ =~= plain_fold(evs.take(0)).0);
        }
        while i < events.len()
            invariant
                0 <= i <= events@.len(),
                evs == events_view(events@),
                evs.len() == events@.len(),
                text@ == plain_fold(evs.take(i as int)).0,
                last_was_text == plain_fold(evs.take(i as int)).1,
            decreases events@.len() - i,
        {
            proof {
                assert(evs.take(i + 1).drop_last() =~= evs.take(i as int));
                assert(evs.take(i + 1).last() == evs[i as int]);
                assert(evs[i as int] == events@[i as int]@);
            }
            match &events[i] {
                MdEvent::Text(t) => {
                    text.append(t.as_str());
                    last_was_text = true;
                },
                MdEvent::Code(t) => {
                    text.append(t.as_str());
                    last_was_text = true;
                },
                MdEvent::SoftBreak => {
                    push_char(&mut text, ' ');
                    last_was_text = false;
                },
                MdEvent::HardBreak => {
                    push_char(&mut text, ' ');
                    last_was_text = false;
                },
                MdEvent::EndParagraph => {
                    if last_was_text {
                        push_char(&mut text, ' ');
                    }
                    last_was_text = false;
                },
                MdEvent::EndHeading => {
                    if last_was_text {
                        push_char(&mut text, ' ');
                    }
                    last_was_text = false;
                },
                MdEvent::Other => {},
            }
            proof {
                assert(text@ =~= plain_fold(evs.take(i + 1)).0);
            }
            i = i + 1;
        }
        proof {
            assert(evs.take(evs.len() as int) =~= evs);
        }
        trim_ws(text.as_str())
    }

    /// A preview of at most `max_length` characters of the plain text; a
    /// longer text is cut, trimmed at its end, and marked with an ellipsis.
    pub fn get_excerpt(markdown: &str, max_length: usize) -> (r: String)
        ensures
            spec_plain_text(markdown@).len() <= max_length ==> r@ == spec_plain_text(markdown@),
            spec_plain_text(markdown@).len() > max_length ==> r@ == trim_end_ws(
                spec_plain_text(markdown@).take(max_length as int),
            ) + "..."@,
    {
        let plain = Self::to_plain_text(markdown);
        let n: usize = plain.as_str().unicode_len();
        if n <= max_length {
            plain
        } else {
            let cut = plain.as_str().substring_char(0, max_length);
            let mut b: usize = max_length;
            while b > 0 && is_ws_char(cut.get_char(b - 1))
                invariant
                    0 <= b <= max_length,
                    max_length <= cut@.len(),
                    cut@ == plain@.take(max_length as int),
                    forall|k: int| b <= k < max_length ==> is_ws(#[trigger] cut@[k]),
                decreases b,
            {
                b = b - 1;
            }
            proof {
                if b > 0 {
                    lemma_trim_end_at(cut@, b as int);
                } else {
                    lemma_trim_end_at(cut@, 0);
                }
            }
            let mut out = cut.substring_char(0, b).to_owned();
            out.append("...");
            proof {
                assert(cut@.take(b as int) =~= cut@.subrange(0, b as int));
                assert(out@ == trim_end_ws(plain@.take(max_length as int)) + "..."@);
            }
            out
        }
    }

    /// Escape HTML special characters.
    pub fn html_escape(s: &str) -> (r: String)
        ensures
            r@ == html_escaped(s@),
    {
        let n: usize = s.unicode_len();
        let mut out = String::new();
        let mut i: usize = 0;
        proof {
            assert(out@ =~= html_escaped(s@.take(0)));
        }
        while i < n
            invariant
                0 <= i <= n,
                n == s@.len(),
                out@ == html_escaped(s@.take(i as int)),
            decreases n - i,
        {
            proof {
                assert(s@.take(i + 1).drop_last() =~= s@.take(i as int));
                assert(s@.take(i + 1).last() == s@[i as int]);
            }
            let c = s.get_char(i);
            let ghost opre = out@;
            if c == '&' {
                out.append("&amp;");
            } else if c == '<' {
                out.append("&lt;");
            } else if c == '>' {
                out.append("&gt;");
            } else if c == '"' {
                out.append("&quot;");
            } else if c == '\'' {
                out.append("&#39;");
            } else {
                push_char(&mut out, c);
            }
            proof {
                assert(out@ =~= opre + html_esc_char(c));
            }
            i = i + 1;
        }
        proof {
            assert(s@.take(n as int) =~= s@);
        }
        out
    }
}

/// HTML escaping of one character.
pub open spec fn html_esc_char(c: char) -> Seq<char> {
    if c == '&' {
        "&amp;"@
    } else if c == '<' {
        "&lt;"@
    } else if c == '>' {
        "&gt;"@
    } else if c == '"' {
        "&quot;"@
    } else if c == '\'' {
        "&#39;"@
    } else {
        seq![c]
    }
}

/// HTML escaping of a whole string.
pub open spec fn html_escaped(s: Seq<char>) -> Seq<char>
    decreases s.len(),
{
    if s.len() == 0 {
        Seq::empty()
    } else {
        html_escaped(s.drop_last()) + html_esc_char(s.last())
    }
}

} // verus!
