//! Hyperlinks: the metadata parser that reads a destination and an
//! optional title out of an inline link span, and the anchor-tag
//! renderer.

use crate::content::Content;
use crate::model;
use crate::section::Section;
use crate::symbol::{classify, Symbol};
use vstd::prelude::*;

verus! {

/// The separator class inside a link span: space and newline only; a tab
/// counts as destination text here.
pub open spec fn link_blank(s: Symbol) -> bool {
    s == Symbol::Newline || s == Symbol::Space
}

/// The first position in `[i, hi)` whose character is not a link
/// separator, or `hi` if the whole range is separators.
pub open spec fn skip_link_blanks(t: Seq<char>, i: int, hi: int) -> int
    decreases hi - i,
{
    if !(0 <= i <= hi <= t.len()) {
        hi
    } else if i == hi {
        hi
    } else if link_blank(classify(t[i])) {
        skip_link_blanks(t, i + 1, hi)
    } else {
        i
    }
}

/// The first position in `[i, hi)` whose character is a link separator,
/// or `hi` if there is none.
pub open spec fn find_link_blank(t: Seq<char>, i: int, hi: int) -> int
    decreases hi - i,
{
    if !(0 <= i <= hi <= t.len()) {
        hi
    } else if i == hi {
        hi
    } else if link_blank(classify(t[i])) {
        i
    } else {
        find_link_blank(t, i + 1, hi)
    }
}

/// A title opener: a double quote, an apostrophe, or an opening
/// parenthesis.
pub open spec fn title_open(s: Symbol) -> bool {
    s == Symbol::Quote || s == Symbol::Apostrophe || s == Symbol::LeftParenthesis
}

/// The closing symbol belonging to a title opener.
pub open spec fn title_close(s: Symbol) -> Symbol {
    if s == Symbol::Quote {
        Symbol::Quote
    } else if s == Symbol::Apostrophe {
        Symbol::Apostrophe
    } else {
        Symbol::RightParenthesis
    }
}

/// The first title opener in `[i, hi)`, or `hi` if there is none.
pub open spec fn find_title_open(t: Seq<char>, i: int, hi: int) -> int
    decreases hi - i,
{
    if !(0 <= i <= hi <= t.len()) {
        hi
    } else if i == hi {
        hi
    } else if title_open(classify(t[i])) {
        i
    } else {
        find_title_open(t, i + 1, hi)
    }
}

/// The start of the link destination inside the span `[lo, hi)`: its
/// first non-separator position.
pub open spec fn dest_start(t: Seq<char>, lo: int, hi: int) -> int {
    skip_link_blanks(t, lo, hi)
}

/// The end of the link destination: the first separator after its start.
pub open spec fn dest_end(t: Seq<char>, lo: int, hi: int) -> int {
    find_link_blank(t, dest_start(t, lo, hi), hi)
}

/// The title text inside the span after the destination: the text
/// between the first title opener and its matching closer, empty when
/// either is missing.
pub open spec fn title_text(t: Seq<char>, de: int, hi: int) -> Seq<char> {
    let q = find_title_open(t, de, hi);
    if q >= hi {
        Seq::empty()
    } else {
        let c = model::find_sym_in(t, title_close(classify(t[q])), q + 1, hi);
        if c >= hi {
            Seq::empty()
        } else {
            t.subrange(q + 1, c)
        }
    }
}

/// The destination and optional title of one inline link span.
pub struct LinkMetadata {
    pub href: String,
    pub title: Option<String>,
}

impl LinkMetadata {
    /// Build metadata from a destination and a possibly empty title; an
    /// empty title is recorded as absent.
    pub fn new(href: &str, title: &str) -> (result: LinkMetadata)
        ensures
            result.href@ == href@,
            title@.len() > 0 ==> (result.title matches Some(ti) && ti@ == title@),
            title@.len() == 0 ==> result.title is None,
    {
        let title = if title.unicode_len() > 0 {
            Some(String::from_str(title))
        } else {
            None
        };
        LinkMetadata { href: String::from_str(href), title }
    }

    /// Read a destination and an optional title out of the span
    /// `[section.start, section.end)`: the destination is the first
    /// separator-free run, the title the text inside the first quote,
    /// apostrophe or parenthesis pair after it. A span with no
    /// destination yields nothing.
    pub fn from_inline(content: &Content, section: &Section) -> (result: Option<LinkMetadata>)
        requires
            content.wf(),
            section.start <= section.end <= content.chars@.len(),
        ensures
            ({
                let t = content.chars@;
                let lo = section.start as int;
                let hi = section.end as int;
                let ds = dest_start(t, lo, hi);
                let de = dest_end(t, lo, hi);
                match result {
                    None => ds == de,
                    Some(md) => {
                        &&& ds < de
                        &&& md.href@ == t.subrange(ds, de)
                        &&& (title_text(t, de, hi).len() > 0 ==> (md.title matches Some(ti)
                            && ti@ == title_text(t, de, hi)))
                        &&& (title_text(t, de, hi).len() == 0 ==> md.title is None)
                    },
                }
            }),
    {
        let ghost t = content.chars@;
        let lo = section.start;
        let hi = section.end;
        let mut link_start: usize = lo;
        while link_start < hi && (content.symbols[link_start] == Symbol::Newline
            || content.symbols[link_start] == Symbol::Space)
            invariant
                content.wf(),
                t == content.chars@,
                lo <= link_start <= hi <= t.len(),
                forall|j: int| lo <= j < link_start ==> link_blank(classify(t[j])),
            decreases hi - link_start,
        {
            link_start = link_start + 1;
        }
        proof {
            lemma_skip_link_blanks_exact(t, lo as int, hi as int, link_start as int);
        }
        let mut link_end: usize = link_start;
        while link_end < hi && !(content.symbols[link_end] == Symbol::Newline
            || content.symbols[link_end] == Symbol::Space)
            invariant
                content.wf(),
                t == content.chars@,
                link_start <= link_end <= hi <= t.len(),
                forall|j: int| link_start <= j < link_end ==> !link_blank(classify(t[j])),
            decreases hi - link_end,
        {
            link_end = link_end + 1;
        }
        proof {
            lemma_find_link_blank_exact(t, link_start as int, hi as int, link_end as int);
        }
        if link_start == link_end {
            return None;
        }
        let href = crate::content::copy_range(&content.chars, link_start, link_end);
        let mut title = String::new();
        let mut quote: usize = link_end;
        while quote < hi && !(content.symbols[quote] == Symbol::Quote
            || content.symbols[quote] == Symbol::Apostrophe || content.symbols[quote]
            == Symbol::LeftParenthesis)
            invariant
                content.wf(),
                t == content.chars@,
                link_end <= quote <= hi <= t.len(),
                forall|j: int| link_end <= j < quote ==> !title_open(classify(t[j])),
            decreases hi - quote,
        {
            quote = quote + 1;
        }
        proof {
            lemma_find_title_open_exact(t, link_end as int, hi as int, quote as int);
        }
        if quote < hi {
            let closer = if content.symbols[quote] == Symbol::Quote {
                Symbol::Quote
            } else if content.symbols[quote] == Symbol::Apostrophe {
                Symbol::Apostrophe
            } else {
                Symbol::RightParenthesis
            };
            proof {
                assert(closer == title_close(classify(t[quote as int])));
            }
            let mut close_at: usize = quote + 1;
            while close_at < hi && content.symbols[close_at] != closer
                invariant
                    content.wf(),
                    t == content.chars@,
                    quote + 1 <= close_at <= hi <= t.len(),
                    forall|j: int| quote + 1 <= j < close_at ==> classify(t[j]) != closer,
                decreases hi - close_at,
            {
                close_at = close_at + 1;
            }
            proof {
                model::lemma_find_sym_in_exact(t, closer, quote + 1, hi as int, close_at as int);
            }
            if close_at < hi {
                title = crate::content::copy_range(&content.chars, quote + 1, close_at);
            }
        }
        Some(LinkMetadata::new(href.as_str(), title.as_str()))
    }
}

/// The first non-separator known character by character determines
/// `skip_link_blanks`.
proof fn lemma_skip_link_blanks_exact(t: Seq<char>, i: int, hi: int, p: int)
    requires
        0 <= i <= p <= hi <= t.len(),
        forall|j: int| i <= j < p ==> link_blank(classify(t[j])),
        p < hi ==> !link_blank(classify(t[p])),
    ensures
        skip_link_blanks(t, i, hi) == p,
    decreases hi - i,
{
    if i < p {
        assert(link_blank(classify(t[i])));
        lemma_skip_link_blanks_exact(t, i + 1, hi, p);
    }
}

/// The first separator known character by character determines
/// `find_link_blank`.
proof fn lemma_find_link_blank_exact(t: Seq<char>, i: int, hi: int, p: int)
    requires
        0 <= i <= p <= hi <= t.len(),
        forall|j: int| i <= j < p ==> !link_blank(classify(t[j])),
        p < hi ==> link_blank(classify(t[p])),
    ensures
        find_link_blank(t, i, hi) == p,
    decreases hi - i,
{
    if i < p {
        assert(!link_blank(classify(t[i])));
        lemma_find_link_blank_exact(t, i + 1, hi, p);
    }
}

/// The first title opener known character by character determines
/// `find_title_open`.
proof fn lemma_find_title_open_exact(t: Seq<char>, i: int, hi: int, p: int)
    requires
        0 <= i <= p <= hi <= t.len(),
        forall|j: int| i <= j < p ==> !title_open(classify(t[j])),
        p < hi ==> title_open(classify(t[p])),
    ensures
        find_title_open(t, i, hi) == p,
    decreases hi - i,
{
    if i < p {
        assert(!title_open(classify(t[i])));
        lemma_find_title_open_exact(t, i + 1, hi, p);
    }
}

/// What an anchor tag renders to: the destination in `href`, the title
/// attribute only when a title is present, the label as the tag body.
pub open spec fn link_html(l: Link) -> Seq<char> {
    "<a href=\""@ + l.metadata.href@ + "\""@ + (match l.metadata.title {
        Some(ti) => " title=\""@ + ti@ + "\""@ + ">"@,
        None => ">"@,
    }) + l.id@ + "</a>"@
}

/// A complete hyperlink: a label and its metadata.
pub struct Link {
    pub id: String,
    pub metadata: LinkMetadata,
}

impl Link {
    /// Build a link from its label, destination and possibly empty
    /// title.
    pub fn new(id: &str, href: &str, title: &str) -> (result: Link)
        ensures
            result.id@ == id@,
            result.metadata.href@ == href@,
            title@.len() > 0 ==> (result.metadata.title matches Some(ti) && ti@ == title@),
            title@.len() == 0 ==> result.metadata.title is None,
    {
        Link { id: String::from_str(id), metadata: LinkMetadata::new(href, title) }
    }

    /// Render the link as an HTML anchor tag.
    pub fn to_string(&self) -> (result: String)
        ensures
            result@ == link_html(*self),
    {
        let mut output = String::from_str("<a href=\"");
        output.append(self.metadata.href.as_str());
        output.append("\"");
        match &self.metadata.title {
            None => {
                output.append(">");
            },
            Some(title) => {
                output.append(" title=\"");
                output.append(title.as_str());
                output.append("\"");
                output.append(">");
            },
        }
        output.append(self.id.as_str());
        output.append("</a>");
        proof {
            assert(output@ =~= link_html(*self));
        }
        output
    }
}

} // verus!
