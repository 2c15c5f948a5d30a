//! The conversion engine: a buffer of classified characters, a block
//! segmenter that groups lines into structural blocks, and the renderer
//! that turns each block into its HTML fragment.

use crate::line::Line;
use crate::model;
use crate::paragraph::Paragraph;
use crate::section::{sections_view, Section};
use crate::symbol::{symbols_of, Symbol};
use vstd::prelude::*;
use vstd::string::StrSliceExecFns;

verus! {

/// The structural kind of one source line, and of the block it joins.
/// `Null` is the "none yet" state used only during segmentation.
#[derive(Clone, Copy, Debug, PartialEq, Eq, Structural)]
pub enum LineType {
    Blank,
    Paragraph,
    Header,
    Blockquote,
    Code,
    Null,
}

/// One conversion's working state: the source text as characters and the
/// parallel symbol array, ending in the end-of-input sentinel.
pub struct Content {
    pub chars: Vec<char>,
    pub symbols: Vec<Symbol>,
}

/// The spans of a sequence of classified lines.
pub open spec fn line_sections(s: Seq<Line>) -> Seq<(int, int)> {
    Seq::new(s.len(), |k: int| s[k].section@)
}

/// The blocks a sequence of paragraphs stands for.
pub open spec fn paragraphs_model(s: Seq<Paragraph>) -> Seq<(LineType, Seq<(int, int)>)> {
    Seq::new(s.len(), |k: int| s[k].model())
}

/// Relies on `String::push` from std: appends exactly the one character
/// to the end of the string.
#[verifier::external_body]
fn push_char(s: &mut String, c: char)
    ensures
        final(s)@ == old(s)@.push(c),
{
    s.push(c);
}

/// Append `count` copies of one character.
fn push_repeat(s: &mut String, c: char, count: usize)
    ensures
        final(s)@ == old(s)@ + model::repeat_char(c, count as int),
{
    let ghost base = s@;
    let mut k: usize = 0;
    proof {
        assert(s@ =~= base + model::repeat_char(c, 0));
    }
    while k < count
        invariant
            0 <= k <= count,
            s@ == base + model::repeat_char(c, k as int),
        decreases count - k,
    {
        push_char(s, c);
        proof {
            assert(s@ =~= base + model::repeat_char(c, k + 1));
        }
        k = k + 1;
    }
}

/// Copy the characters of `[lo, hi)` into a fresh string.
pub(crate) fn copy_range(text: &Vec<char>, lo: usize, hi: usize) -> (result: String)
    requires
        lo <= hi <= text@.len(),
    ensures
        result@ == text@.subrange(lo as int, hi as int),
{
    let mut out = String::new();
    let mut i: usize = lo;
    proof {
        assert(out@ =~= text@.subrange(lo as int, lo as int));
    }
    while i < hi
        invariant
            lo <= i <= hi <= text@.len(),
            out@ == text@.subrange(lo as int, i as int),
        decreases hi - i,
    {
        push_char(&mut out, text[i]);
        proof {
            assert(out@ =~= text@.subrange(lo as int, i + 1));
        }
        i = i + 1;
    }
    out
}

/// Length of the run of symbol `key` at `i`, looking no further than `hi`.
fn run_length(text: &Vec<char>, key: Symbol, i: usize, hi: usize) -> (result: usize)
    requires
        hi <= text@.len(),
    ensures
        result as int == model::run_in(text@, key, i as int, hi as int),
        i + result <= hi || result == 0,
    {
    let ghost t = text@;
    let mut length: usize = 0;
    while i + length < hi && Symbol::from_char(text[i + length]) == key
        invariant
            t == text@,
            hi <= t.len(),
            i + length <= usize::MAX,
            length == 0 || i + length <= hi,
            forall|j: int| i <= j < i + length ==> crate::symbol::classify(t[j]) == key,
        decreases hi - i - length,
    {
        length = length + 1;
    }
    proof {
        if i as int <= hi {
            model::lemma_run_in_exact(t, key, i as int, hi as int, i + length);
        }
    }
    length
}

/// The first position of symbol `key` in `[i, hi)`, or `hi` if none.
fn find_symbol_from(text: &Vec<char>, key: Symbol, i: usize, hi: usize) -> (result: usize)
    requires
        i <= hi <= text@.len(),
    ensures
        result as int == model::find_sym_in(text@, key, i as int, hi as int),
        i <= result <= hi,
{
    let ghost t = text@;
    let mut p: usize = i;
    while p < hi
        invariant
            t == text@,
            i <= p <= hi <= t.len(),
            forall|j: int| i <= j < p ==> crate::symbol::classify(t[j]) != key,
        decreases hi - p,
    {
        if Symbol::from_char(text[p]) == key {
            proof {
                model::lemma_find_sym_in_exact(t, key, i as int, hi as int, p as int);
            }
            return p;
        }
        p = p + 1;
    }
    proof {
        model::lemma_find_sym_in_exact(t, key, i as int, hi as int, hi as int);
    }
    hi
}

/// The first place in `[i, hi)` where `m` consecutive characters of
/// symbol `key` stand, if any.
fn find_marker_from(text: &Vec<char>, key: Symbol, m: usize, i: usize, hi: usize) -> (result: Option<
    usize,
>)
    requires
        1 <= m,
        i <= hi <= text@.len(),
    ensures
        match result {
            Some(p) => model::find_marker(text@, key, m as int, i as int, hi as int) == Some(
                p as int,
            ) && i <= p && p + m <= hi,
            None => model::find_marker(text@, key, m as int, i as int, hi as int) is None,
        },
{
    let ghost t = text@;
    proof {
        model::lemma_find_marker(t, key, m as int, i as int, hi as int);
    }
    if m > hi || i > hi - m {
        proof {
            if model::find_marker(t, key, m as int, i as int, hi as int) is Some {
                let p = model::find_marker(t, key, m as int, i as int, hi as int)->Some_0;
                assert(i <= p && p + m <= hi);
            }
        }
        return None;
    }
    let mut p: usize = i;
    while p <= hi - m
        invariant
            t == text@,
            1 <= m <= hi <= t.len(),
            i <= p <= hi - m + 1,
            forall|q: int| i <= q < p ==> !model::marker_at(t, key, m as int, q, hi as int),
        decreases hi - p,
    {
        let mut j: usize = 0;
        let mut all: bool = true;
        while j < m && all
            invariant
                t == text@,
                1 <= m,
                p + m <= hi <= t.len(),
                0 <= j <= m,
                all ==> forall|q: int| p <= q < p + j ==> crate::symbol::classify(t[q]) == key,
                !all ==> !model::marker_at(t, key, m as int, p as int, hi as int),
            decreases m - j,
        {
            if Symbol::from_char(text[p + j]) != key {
                all = false;
            }
            j = j + 1;
        }
        if all {
            proof {
                assert(model::marker_at(t, key, m as int, p as int, hi as int));
                model::lemma_find_marker(t, key, m as int, i as int, hi as int);
                match model::find_marker(t, key, m as int, i as int, hi as int) {
                    Some(fp) => {
                        assert(!(fp < p));
                        assert(!(p < fp));
                        assert(fp == p as int);
                    },
                    None => {
                        assert(!model::marker_at(t, key, m as int, p as int, hi as int));
                    },
                }
            }
            return Some(p);
        }
        p = p + 1;
    }
    proof {
        match model::find_marker(t, key, m as int, i as int, hi as int) {
            Some(fp) => {
                assert(model::marker_at(t, key, m as int, fp, hi as int));
                assert(i <= fp && fp + m <= hi);
                assert(false);
            },
            None => {},
        }
    }
    None
}

/// The start of the next backtick run of exactly `n` backticks in
/// `[i, hi)`, whole runs of another length stepped over.
fn find_code_close_from(text: &Vec<char>, n: usize, i: usize, hi: usize) -> (result: Option<usize>)
    requires
        1 <= n,
        i <= hi <= text@.len(),
    ensures
        match result {
            Some(p) => model::find_code_close(text@, n as int, i as int, hi as int) == Some(
                p as int,
            ) && i <= p && p + n <= hi,
            None => model::find_code_close(text@, n as int, i as int, hi as int) is None,
        },
    decreases hi - i,
{
    let ghost t = text@;
    let q = find_symbol_from(text, Symbol::Code, i, hi);
    if q == hi {
        return None;
    }
    proof {
        model::lemma_find_sym_in(t, Symbol::Code, i as int, hi as int);
    }
    let k = run_length(text, Symbol::Code, q, hi);
    proof {
        model::lemma_run_in(t, Symbol::Code, q as int, hi as int);
    }
    if k == n {
        Some(q)
    } else {
        find_code_close_from(text, n, q + k, hi)
    }
}

/// Parse one inline code span starting at the backtick at `lo`: the
/// content between equal-length fences is copied verbatim, an unmatched
/// fence falls back to the literal backticks.
pub fn parse_code(text: &Vec<char>, lo: usize, hi: usize) -> (result: crate::output::Output)
    requires
        lo < hi <= text@.len(),
        crate::symbol::classify(text@[lo as int]) == Symbol::Code,
    ensures
        result.string@ == model::code_frag(text@, lo as int, hi as int),
        result.offset as int == model::code_next(text@, lo as int, hi as int),
        lo < result.offset <= hi,
{
    let ghost t = text@;
    let n = run_length(text, Symbol::Code, lo, hi);
    proof {
        model::lemma_run_in(t, Symbol::Code, lo as int, hi as int);
    }
    match find_code_close_from(text, n, lo + n, hi) {
        None => {
            let mut s = String::new();
            push_repeat(&mut s, '`', n);
            proof {
                assert(s@ =~= model::repeat_char('`', n as int));
            }
            crate::output::Output::new(s, lo + n)
        },
        Some(p) => {
            let mut s = String::from_str("<code>");
            s.append(copy_range(text, lo + n, p).as_str());
            s.append("</code>");
            crate::output::Output::new(s, p + n)
        },
    }
}

/// Parse one emphasis span starting at the asterisk at `lo`: a flanked
/// run with an accepted closing marker wraps the recursively scanned
/// inner span in emphasis tags, anything else falls back to literal
/// asterisks.
pub fn parse_emphasis(text: &Vec<char>, lo: usize, hi: usize) -> (result: crate::output::Output)
    requires
        lo < hi <= text@.len(),
        crate::symbol::classify(text@[lo as int]) == Symbol::Asterisk,
    ensures
        result.string@ == model::emphasis_frag(text@, lo as int, hi as int),
        result.offset as int == model::emphasis_next(text@, lo as int, hi as int),
        lo < result.offset <= hi,
    decreases hi - lo, 0int,
{
    let ghost t = text@;
    let n = run_length(text, Symbol::Asterisk, lo, hi);
    proof {
        model::lemma_run_in(t, Symbol::Asterisk, lo as int, hi as int);
    }
    let m: usize = if n > 3 {
        3
    } else {
        n
    };
    let flank_blank: bool = if lo + n < hi {
        Symbol::from_char(text[lo + n]).is_blank()
    } else {
        false
    };
    if flank_blank {
        proof {
            assert(model::emphasis_match(t, lo as int, hi as int) is None);
        }
        let mut s = String::new();
        push_repeat(&mut s, '*', n);
        proof {
            assert(s@ =~= model::repeat_char('*', n as int));
        }
        return crate::output::Output::new(s, lo + n);
    }
    match find_marker_from(text, Symbol::Asterisk, m, lo + n, hi) {
        None => {
            proof {
                assert(model::emphasis_match(t, lo as int, hi as int) is None);
            }
            let mut s = String::new();
            push_repeat(&mut s, '*', n);
            proof {
                assert(s@ =~= model::repeat_char('*', n as int));
            }
            crate::output::Output::new(s, lo + n)
        },
        Some(p) => {
            if Symbol::from_char(text[p - 1]).is_blank() {
                proof {
                    assert(model::emphasis_match(t, lo as int, hi as int) is None);
                }
                let mut s = String::new();
                push_repeat(&mut s, '*', n);
                proof {
                    assert(s@ =~= model::repeat_char('*', n as int));
                }
                crate::output::Output::new(s, lo + n)
            } else {
                proof {
                    assert(model::emphasis_match(t, lo as int, hi as int) == Some(p as int));
                }
                let mut s = String::new();
                if n > 3 {
                    push_repeat(&mut s, '*', n - 3);
                }
                proof {
                    assert(s@ =~= model::repeat_char('*', if n > 3 {
                        n - 3
                    } else {
                        0int
                    }));
                }
                if m == 1 {
                    s.append("<em>");
                } else if m == 2 {
                    s.append("<strong>");
                } else {
                    s.append("<strong><em>");
                }
                let inner = parse_section(text, lo + n, p);
                s.append(inner.as_str());
                if m == 1 {
                    s.append("</em>");
                } else if m == 2 {
                    s.append("</strong>");
                } else {
                    s.append("</em></strong>");
                }
                crate::output::Output::new(s, p + m)
            }
        },
    }
}

/// The inline scanner over `[lo, hi)` of a block's flattened text.
pub fn parse_section(text: &Vec<char>, lo: usize, hi: usize) -> (result: String)
    requires
        lo <= hi <= text@.len(),
    ensures
        result@ == model::inline_between(text@, lo as int, hi as int),
    decreases hi - lo, 1int,
{
    let ghost t = text@;
    if lo >= hi {
        return String::new();
    }
    let sy = Symbol::from_char(text[lo]);
    if sy == Symbol::Asterisk {
        let out = parse_emphasis(text, lo, hi);
        proof {
            model::lemma_inline_unfold_emphasis(t, lo as int, hi as int);
        }
        let rest = parse_section(text, out.offset, hi);
        out.string.concat(rest.as_str())
    } else if sy == Symbol::Code {
        let out = parse_code(text, lo, hi);
        proof {
            model::lemma_inline_unfold_code(t, lo as int, hi as int);
        }
        let rest = parse_section(text, out.offset, hi);
        out.string.concat(rest.as_str())
    } else {
        proof {
            model::lemma_inline_unfold_other(t, lo as int, hi as int);
        }
        let mut s = String::new();
        push_char(&mut s, text[lo]);
        proof {
            assert(s@ =~= seq![t[lo as int]]);
        }
        let rest = parse_section(text, lo + 1, hi);
        s.concat(rest.as_str())
    }
}

impl Content {
    /// The symbol array mirrors the character buffer, plus the sentinel.
    pub open spec fn wf(self) -> bool {
        self.symbols@ == symbols_of(self.chars@)
    }

    /// Create the working state for one input.
    pub fn from_str(input: &str) -> (result: Content)
        ensures
            result.wf(),
            result.chars@ == input@,
    {
        let len = input.unicode_len();
        let mut chars: Vec<char> = Vec::new();
        let mut i: usize = 0;
        while i < len
            invariant
                0 <= i <= len,
                len == input@.len(),
                chars@ =~= input@.subrange(0, i as int),
            decreases len - i,
        {
            chars.push(input.get_char(i));
            i = i + 1;
        }
        proof {
            assert(chars@ =~= input@);
        }
        let symbols = Symbol::from_str(input);
        Content { chars, symbols }
    }

    /// Whether the symbol `key` stands at `index`; positions past the end
    /// of the buffer hold only the end-of-input sentinel.
    pub fn check_match(&self, key: &Symbol, index: usize) -> (result: bool)
        requires
            self.wf(),
        ensures
            result == (index <= self.chars@.len() && model::sym(self.chars@, index as int)
                == *key),
    {
        if index > self.chars.len() {
            return false;
        }
        self.symbols[index] == *key
    }

    /// The first position at or after `index` holding the symbol, if any.
    pub fn find_next(&self, symbol: Symbol, index: usize) -> (result: Option<usize>)
        requires
            self.wf(),
        ensures
            match result {
                Some(j) => index <= j < self.chars@.len() && j as int == model::find_sym_in(
                    self.chars@,
                    symbol,
                    index as int,
                    self.chars@.len() as int,
                ),
                None => index as int > self.chars@.len() || model::find_sym_in(
                    self.chars@,
                    symbol,
                    index as int,
                    self.chars@.len() as int,
                ) == self.chars@.len(),
            },
    {
        if index > self.chars.len() {
            return None;
        }
        let ghost t = self.chars@;
        let mut i: usize = index;
        while i < self.chars.len()
            invariant
                self.wf(),
                t == self.chars@,
                index <= i <= t.len(),
                forall|j: int| index <= j < i ==> crate::symbol::classify(t[j]) != symbol,
            decreases self.chars@.len() - i,
        {
            if self.symbols[i] == symbol {
                proof {
                    model::lemma_find_sym_in_exact(t, symbol, index as int, t.len() as int, i as int);
                }
                return Some(i);
            }
            i = i + 1;
        }
        proof {
            model::lemma_find_sym_in_exact(t, symbol, index as int, t.len() as int, t.len() as int);
        }
        None
    }

    /// How long the run of symbol `key` starting at `index` is, counted
    /// over the sentinel-extended symbol array: the end-of-input
    /// sentinel itself can be matched once, exactly as `check_match`
    /// sees it.
    pub fn sequence_length(&self, key: Symbol, index: usize) -> (result: usize)
        requires
            self.wf(),
        ensures
            result as int == model::run_at(self.chars@, key, index as int),
            result == 0 || index + result <= self.chars@.len() + 1,
    {
        let ghost t = self.chars@;
        let mut length: usize = 0;
        while index + length < self.symbols.len() && self.symbols[index + length] == key
            invariant
                self.wf(),
                t == self.chars@,
                self.symbols@.len() == t.len() + 1,
                index + length <= usize::MAX,
                length == 0 || index + length <= t.len() + 1,
                forall|j: int| index <= j < index + length ==> model::sym(t, j) == key,
            decreases t.len() + 1 - index - length,
        {
            length = length + 1;
        }
        proof {
            if index as int <= t.len() + 1 {
                model::lemma_run_at_exact(t, key, index as int, index + length);
            }
        }
        length
    }

    /// Whether the whole range `[start, end)` is whitespace-class.
    pub fn is_blank(&self, start: usize, end: usize) -> (result: bool)
        requires
            self.wf(),
            start <= end <= self.chars@.len(),
        ensures
            result == model::line_blank(self.chars@, start as int, end as int),
    {
        let ghost t = self.chars@;
        let mut i: usize = start;
        while i < end
            invariant
                self.wf(),
                t == self.chars@,
                start <= i <= end <= t.len(),
                forall|j: int|
                    start <= j < i ==> crate::symbol::blank_sym(crate::symbol::classify(t[j])),
            decreases end - i,
        {
            if !self.symbols[i].is_blank() {
                proof {
                    model::lemma_strip_from_exact(t, start as int, end as int, i as int);
                }
                return false;
            }
            i = i + 1;
        }
        proof {
            model::lemma_strip_from_exact(t, start as int, end as int, end as int);
        }
        true
    }

    /// Advance a line's start past its leading whitespace-class
    /// characters; a wholly blank range keeps its start unchanged.
    pub fn strip_paragraph_line(&self, start: usize, end: usize) -> (result: Section)
        requires
            self.wf(),
            start <= end <= self.chars@.len(),
        ensures
            result.start as int == model::strip_start(self.chars@, start as int, end as int),
            result.end == end,
    {
        let ghost t = self.chars@;
        let mut i: usize = start;
        while i < end
            invariant
                self.wf(),
                t == self.chars@,
                start <= i <= end <= t.len(),
                forall|j: int|
                    start <= j < i ==> crate::symbol::blank_sym(crate::symbol::classify(t[j])),
            decreases end - i,
        {
            if !self.symbols[i].is_blank() {
                proof {
                    model::lemma_strip_from_exact(t, start as int, end as int, i as int);
                }
                return Section::new(i, end);
            }
            i = i + 1;
        }
        proof {
            model::lemma_strip_from_exact(t, start as int, end as int, end as int);
        }
        Section::new(start, end)
    }

    /// The structural kind of the line `[start, end)`.
    pub fn find_line_type(&self, start: usize, end: usize) -> (result: LineType)
        requires
            self.wf(),
            start <= end <= self.chars@.len(),
        ensures
            result == model::line_type(self.chars@, start as int, end as int),
    {
        let ghost t = self.chars@;
        if self.is_blank(start, end) {
            return LineType::Blank;
        }
        let offset: usize = match self.symbols[start] {
            Symbol::Space => {
                let run = self.sequence_length(Symbol::Space, start);
                proof {
                    model::lemma_run_at(t, Symbol::Space, start as int);
                }
                run
            },
            Symbol::Tab => {
                return LineType::Code;
            },
            _ => 0,
        };
        if offset > 3 {
            return LineType::Code;
        }
        proof {
            model::lemma_run_in(t, Symbol::Space, start as int, t.len() as int);
            model::lemma_strip_from(t, start as int, end as int);
        }
        match self.symbols[start + offset] {
            Symbol::NumberSign => {
                let depth = self.sequence_length(Symbol::NumberSign, start + offset);
                proof {
                    model::lemma_run_at(t, Symbol::NumberSign, start + offset);
                    model::lemma_run_in(t, Symbol::NumberSign, start + offset, t.len() as int);
                    assert(t.len() == self.chars.len());
                    assert(start + offset + depth <= t.len());
                }
                if self.symbols[start + offset + depth] == Symbol::Space {
                    LineType::Header
                } else {
                    LineType::Paragraph
                }
            },
            Symbol::GreaterThan => LineType::Blockquote,
            Symbol::Tab => LineType::Code,
            _ => LineType::Paragraph,
        }
    }

    /// Split the buffer into classified lines, one per newline-class
    /// character, the last line running to the buffer end.
    pub fn split_lines(&self) -> (result: Vec<Line>)
        requires
            self.wf(),
        ensures
            line_sections(result@) == model::doc_lines(self.chars@),
            forall|k: int|
                0 <= k < result@.len() ==> (#[trigger] result@[k]).kind == model::line_type(
                    self.chars@,
                    result@[k].section.start as int,
                    result@[k].section.end as int,
                ),
            forall|k: int|
                0 <= k < result@.len() ==> (#[trigger] result@[k]).section.start
                    <= result@[k].section.end <= self.chars@.len(),
    {
        let ghost t = self.chars@;
        let mut lines: Vec<Line> = Vec::new();
        let mut index: usize = 0;
        proof {
            assert(model::doc_lines(t) =~= line_sections(lines@) + model::split_lines_from(
                t,
                0,
            ));
        }
        while index < self.chars.len()
            invariant
                self.wf(),
                t == self.chars@,
                model::doc_lines(t) == line_sections(lines@) + model::split_lines_from(
                    t,
                    index as int,
                ),
                forall|k: int|
                    0 <= k < lines@.len() ==> (#[trigger] lines@[k]).kind == model::line_type(
                        t,
                        lines@[k].section.start as int,
                        lines@[k].section.end as int,
                    ),
                forall|k: int|
                    0 <= k < lines@.len() ==> (#[trigger] lines@[k]).section.start
                        <= lines@[k].section.end <= t.len(),
            decreases self.chars@.len() - index,
        {
            let end: usize = match self.find_next(Symbol::Newline, index) {
                Some(nl) => nl,
                None => self.chars.len(),
            };
            proof {
                model::lemma_find_sym_in(t, Symbol::Newline, index as int, t.len() as int);
                assert(end as int == model::find_sym_in(
                    t,
                    Symbol::Newline,
                    index as int,
                    t.len() as int,
                ));
            }
            let ty = self.find_line_type(index, end);
            let ghost pre = lines@;
            lines.push(Line::new(ty, index, end));
            proof {
                assert(line_sections(lines@) =~= line_sections(pre) + seq![
                    (index as int, end as int),
                ]);
                if end < t.len() {
                    assert(model::split_lines_from(t, index as int) == seq![
                        (index as int, end as int),
                    ] + model::split_lines_from(t, end + 1));
                    assert(line_sections(pre) + model::split_lines_from(t, index as int) =~= (
                    line_sections(pre) + seq![(index as int, end as int)])
                        + model::split_lines_from(t, end + 1));
                } else {
                    assert(model::split_lines_from(t, index as int) == seq![
                        (index as int, end as int),
                    ]);
                    assert(line_sections(pre) + model::split_lines_from(t, index as int) =~= (
                    line_sections(pre) + seq![(index as int, end as int)])
                        + model::split_lines_from(t, t.len() as int));
                }
            }
            if end < self.chars.len() {
                index = end + 1;
            } else {
                index = self.chars.len();
            }
        }
        proof {
            assert(model::doc_lines(t) =~= line_sections(lines@));
        }
        lines
    }

    /// Group the classified lines into structural blocks per the
    /// transition rules of the segmenter.
    pub fn sections(&self) -> (result: Vec<Paragraph>)
        requires
            self.wf(),
        ensures
            paragraphs_model(result@) == model::blocks(self.chars@),
    {
        let ghost t = self.chars@;
        let ghost dl = model::doc_lines(t);
        let lines = self.split_lines();
        let mut paragraphs: Vec<Paragraph> = Vec::new();
        let mut cur_lines: Vec<Section> = Vec::new();
        let mut cur_kind = LineType::Null;
        let mut li: usize = 0;
        proof {
            assert(line_sections(lines@).len() == lines@.len());
            assert(model::blocks(t) =~= paragraphs_model(paragraphs@) + model::segment(
                t,
                dl,
                0,
                LineType::Null,
                sections_view(cur_lines@),
            )) by {
                assert(sections_view(cur_lines@) =~= Seq::<(int, int)>::empty());
                assert(paragraphs_model(paragraphs@) =~= Seq::<
                    (LineType, Seq<(int, int)>),
                >::empty());
                assert(paragraphs_model(paragraphs@) + model::segment(
                    t,
                    dl,
                    0,
                    LineType::Null,
                    sections_view(cur_lines@),
                ) =~= model::segment(t, dl, 0, LineType::Null, sections_view(cur_lines@)));
            }
        }
        while li < lines.len()
            invariant
                self.wf(),
                t == self.chars@,
                dl == model::doc_lines(t),
                line_sections(lines@) == dl,
                lines@.len() == dl.len(),
                0 <= li <= lines@.len(),
                forall|k: int|
                    0 <= k < lines@.len() ==> (#[trigger] lines@[k]).kind == model::line_type(
                        t,
                        lines@[k].section.start as int,
                        lines@[k].section.end as int,
                    ),
                forall|k: int|
                    0 <= k < lines@.len() ==> (#[trigger] lines@[k]).section.start
                        <= lines@[k].section.end <= t.len(),
                model::blocks(t) == paragraphs_model(paragraphs@) + model::segment(
                    t,
                    dl,
                    li as int,
                    cur_kind,
                    sections_view(cur_lines@),
                ),
            decreases lines@.len() - li,
        {
            let ln = lines[li];
            let s = ln.section.start;
            let e = ln.section.end;
            let ty = ln.kind;
            proof {
                assert(dl[li as int] == (s as int, e as int));
                assert(ty == model::line_type(t, s as int, e as int));
            }
            let st = self.strip_paragraph_line(s, e);
            proof {
                model::lemma_strip_from(t, s as int, e as int);
                if ty != LineType::Blank {
                    assert(!model::line_blank(t, s as int, e as int));
                    assert(st.start as int == model::strip_from(t, s as int, e as int));
                }
            }
            let ghost pre_paras = paragraphs@;
            let ghost pre_cur = sections_view(cur_lines@);
            let ghost ck = cur_kind;
            let ghost rest = model::segment(t, dl, li as int, ck, pre_cur);
            if ty == LineType::Blank {
                if cur_lines.len() > 0 {
                    paragraphs.push(Paragraph::new(cur_lines, cur_kind));
                    cur_lines = Vec::new();
                    proof {
                        assert(paragraphs_model(paragraphs@) =~= paragraphs_model(pre_paras)
                            + seq![(ck, pre_cur)]);
                        assert(sections_view(cur_lines@) =~= Seq::<(int, int)>::empty());
                        assert(rest == seq![(ck, pre_cur)] + model::segment(
                            t,
                            dl,
                            li + 1,
                            LineType::Null,
                            Seq::empty(),
                        ));
                        assert(paragraphs_model(pre_paras) + rest =~= paragraphs_model(
                            paragraphs@,
                        ) + model::segment(t, dl, li + 1, LineType::Null, Seq::empty()));
                    }
                } else {
                    proof {
                        assert(sections_view(cur_lines@) =~= Seq::<(int, int)>::empty());
                        assert(rest == model::segment(
                            t,
                            dl,
                            li + 1,
                            LineType::Null,
                            Seq::empty(),
                        ));
                    }
                }
                cur_kind = LineType::Null;
                proof {
                    assert(model::segment(t, dl, li + 1, LineType::Null, Seq::empty())
                        == model::segment(
                        t,
                        dl,
                        li + 1,
                        cur_kind,
                        sections_view(cur_lines@),
                    ));
                }
            } else if ty == LineType::Header {
                if cur_lines.len() > 0 {
                    paragraphs.push(Paragraph::new(cur_lines, cur_kind));
                    cur_lines = Vec::new();
                    proof {
                        assert(paragraphs_model(paragraphs@) =~= paragraphs_model(pre_paras)
                            + seq![(ck, pre_cur)]);
                    }
                }
                let mut header_lines: Vec<Section> = Vec::new();
                header_lines.push(st);
                paragraphs.push(Paragraph::new(header_lines, LineType::Header));
                cur_lines = Vec::new();
                cur_kind = LineType::Null;
                proof {
                    let ghost stg = (model::strip_from(t, s as int, e as int), e as int);
                    assert(stg == (st.start as int, st.end as int));
                    let ghost hb = (LineType::Header, seq![stg]);
                    assert(sections_view(cur_lines@) =~= Seq::<(int, int)>::empty());
                    let ghost tail = model::segment(t, dl, li + 1, LineType::Null, Seq::empty());
                    if pre_cur.len() > 0 {
                        assert(rest == seq![(ck, pre_cur), hb] + tail);
                        assert(paragraphs_model(paragraphs@) =~~= paragraphs_model(pre_paras)
                            + seq![(ck, pre_cur), hb]);
                        assert(paragraphs_model(pre_paras) + rest =~~= paragraphs_model(
                            paragraphs@,
                        ) + tail);
                    } else {
                        assert(rest == seq![hb] + tail);
                        assert(paragraphs_model(paragraphs@) =~~= paragraphs_model(pre_paras)
                            + seq![hb]);
                        assert(paragraphs_model(pre_paras) + rest =~~= paragraphs_model(
                            paragraphs@,
                        ) + tail);
                    }
                }
            } else if cur_lines.len() == 0 {
                cur_lines.push(st);
                cur_kind = ty;
                proof {
                    assert(pre_cur.len() == 0);
                    assert(sections_view(cur_lines@) =~= seq![(st.start as int, st.end as int)]);
                    assert(rest == model::segment(
                        t,
                        dl,
                        li + 1,
                        ty,
                        seq![(st.start as int, st.end as int)],
                    ));
                }
            } else if ty == cur_kind || (cur_kind == LineType::Blockquote && (ty
                == LineType::Paragraph || ty == LineType::Code)) || (cur_kind
                == LineType::Paragraph && ty == LineType::Code) {
                cur_lines.push(st);
                proof {
                    assert(sections_view(cur_lines@) =~= pre_cur.push(
                        (st.start as int, st.end as int),
                    ));
                    assert(rest == model::segment(
                        t,
                        dl,
                        li + 1,
                        ck,
                        pre_cur.push((st.start as int, st.end as int)),
                    ));
                }
            } else {
                paragraphs.push(Paragraph::new(cur_lines, cur_kind));
                cur_lines = Vec::new();
                cur_lines.push(st);
                cur_kind = ty;
                proof {
                    assert(paragraphs_model(paragraphs@) =~= paragraphs_model(pre_paras) + seq![
                        (ck, pre_cur),
                    ]);
                    assert(sections_view(cur_lines@) =~= seq![(st.start as int, st.end as int)]);
                    let ghost tail = model::segment(
                        t,
                        dl,
                        li + 1,
                        ty,
                        seq![(st.start as int, st.end as int)],
                    );
                    assert(rest == seq![(ck, pre_cur)] + tail);
                    assert(paragraphs_model(pre_paras) + rest =~= paragraphs_model(paragraphs@)
                        + tail);
                }
            }
            li = li + 1;
        }
        if cur_lines.len() > 0 {
            let ghost pre_paras = paragraphs@;
            let ghost pre_cur = sections_view(cur_lines@);
            let ghost ck = cur_kind;
            paragraphs.push(Paragraph::new(cur_lines, cur_kind));
            proof {
                assert(model::segment(t, dl, lines@.len() as int, ck, pre_cur) == seq![
                    (ck, pre_cur),
                ]);
                assert(paragraphs_model(paragraphs@) =~= paragraphs_model(pre_paras) + seq![
                    (ck, pre_cur),
                ]);
                assert(model::blocks(t) =~= paragraphs_model(paragraphs@));
            }
        } else {
            proof {
                assert(sections_view(cur_lines@).len() == 0);
                assert(model::segment(t, dl, lines@.len() as int, cur_kind, sections_view(
                    cur_lines@,
                )) == Seq::<(LineType, Seq<(int, int)>)>::empty());
                assert(model::blocks(t) =~= paragraphs_model(paragraphs@));
            }
        }
        paragraphs
    }

    /// The flattened text of the stored lines from index `from` on: each
    /// line's characters, plus its line-ending character whenever the
    /// line stops short of the buffer end.
    pub fn flatten_lines(&self, lines: &Vec<Section>, from: usize) -> (result: Vec<char>)
        requires
            self.wf(),
            from <= lines@.len(),
            forall|k: int|
                0 <= k < lines@.len() ==> (#[trigger] lines@[k]).start <= lines@[k].end
                    <= self.chars@.len(),
        ensures
            result@ == model::flatten_from(self.chars@, sections_view(lines@), from as int),
    {
        let ghost t = self.chars@;
        let ghost lv = sections_view(lines@);
        let mut out: Vec<char> = Vec::new();
        let mut k: usize = from;
        proof {
            assert(model::flatten_from(t, lv, from as int) =~= out@ + model::flatten_from(
                t,
                lv,
                from as int,
            ));
        }
        while k < lines.len()
            invariant
                self.wf(),
                t == self.chars@,
                lv == sections_view(lines@),
                from <= k <= lines@.len(),
                forall|j: int|
                    0 <= j < lines@.len() ==> (#[trigger] lines@[j]).start <= lines@[j].end
                        <= t.len(),
                model::flatten_from(t, lv, from as int) == out@ + model::flatten_from(
                    t,
                    lv,
                    k as int,
                ),
            decreases lines@.len() - k,
        {
            let sec = lines[k];
            proof {
                assert(lv[k as int] == sec@);
            }
            let ghost pre = out@;
            let mut i: usize = sec.start;
            proof {
                assert(out@ =~= pre + t.subrange(sec.start as int, sec.start as int));
            }
            while i < sec.end
                invariant
                    self.wf(),
                    t == self.chars@,
                    sec.start <= i <= sec.end <= t.len(),
                    out@ == pre + t.subrange(sec.start as int, i as int),
                decreases sec.end - i,
            {
                out.push(self.chars[i]);
                proof {
                    assert(out@ =~= pre + t.subrange(sec.start as int, i + 1));
                }
                i = i + 1;
            }
            if sec.end < self.chars.len() {
                out.push(self.chars[sec.end]);
                proof {
                    assert(out@ =~= pre + t.subrange(sec.start as int, sec.end + 1));
                    assert(model::line_text(t, lv[k as int]) == t.subrange(
                        sec.start as int,
                        sec.end + 1,
                    ));
                }
            } else {
                proof {
                    assert(model::line_text(t, lv[k as int]) == t.subrange(
                        sec.start as int,
                        sec.end as int,
                    ));
                }
            }
            proof {
                assert(model::flatten_from(t, lv, k as int) == model::line_text(t, lv[k as int])
                    + model::flatten_from(t, lv, k + 1));
                assert(pre + model::flatten_from(t, lv, k as int) =~= out@
                    + model::flatten_from(t, lv, k + 1));
            }
            k = k + 1;
        }
        proof {
            assert(model::flatten_from(t, lv, from as int) =~= out@);
        }
        out
    }

    /// Render the stored lines from index `from` on as one paragraph:
    /// the scanned flattened text inside a paragraph tag pair.
    pub fn convert_paragraph(&self, lines: &Vec<Section>, from: usize) -> (result: String)
        requires
            self.wf(),
            from <= lines@.len(),
            forall|k: int|
                0 <= k < lines@.len() ==> (#[trigger] lines@[k]).start <= lines@[k].end
                    <= self.chars@.len(),
        ensures
            result@ == model::render_paragraph_body(
                self.chars@,
                sections_view(lines@),
                from as int,
            ),
    {
        let f = self.flatten_lines(lines, from);
        let mut out = String::from_str("<p>");
        out.append(parse_section(&f, 0, f.len()).as_str());
        out.append("</p>");
        out
    }

    /// Render a header block's single line: the `#` run sets the level,
    /// the text after the run and its following blanks is copied
    /// literally.
    pub fn convert_header(&self, line: &Section) -> (result: String)
        requires
            self.wf(),
            line.start <= line.end <= self.chars@.len(),
        ensures
            result@ == model::render_header(self.chars@, line@),
    {
        let ghost t = self.chars@;
        let depth = self.sequence_length(Symbol::NumberSign, line.start);
        proof {
            model::lemma_run_at(t, Symbol::NumberSign, line.start as int);
            model::lemma_run_in(t, Symbol::NumberSign, line.start as int, t.len() as int);
            assert(t.len() == self.chars.len());
            assert(line.start + depth <= usize::MAX);
        }
        let opening_tag: &str = match depth {
            5 => "<h5>",
            4 => "<h4>",
            3 => "<h3>",
            2 => "<h2>",
            1 => "<h1>",
            _ => "<h6>",
        };
        let mut out = String::from_str(opening_tag);
        let content_start: usize = if line.start + depth <= line.end {
            self.strip_paragraph_line(line.start + depth, line.end).start
        } else {
            line.end
        };
        proof {
            model::lemma_run_in(t, Symbol::NumberSign, line.start as int, t.len() as int);
            if line.start + depth <= line.end {
                model::lemma_strip_from(t, line.start + depth, line.end as int);
            }
            assert(content_start as int == model::strip_start(
                t,
                line.start + depth,
                line.end as int,
            ));
        }
        out.append(copy_range(&self.chars, content_start, line.end).as_str());
        let closing_tag: &str = match depth {
            5 => "</h5>",
            4 => "</h4>",
            3 => "</h3>",
            2 => "</h2>",
            1 => "</h1>",
            _ => "</h6>",
        };
        out.append(closing_tag);
        out
    }

    /// Render a blockquote block: the flattened text, its leading `>`
    /// marker dropped, as a paragraph inside a blockquote tag pair.
    pub fn parse_blockquote(&self, lines: &Vec<Section>) -> (result: String)
        requires
            self.wf(),
            forall|k: int|
                0 <= k < lines@.len() ==> (#[trigger] lines@[k]).start <= lines@[k].end
                    <= self.chars@.len(),
        ensures
            result@ == model::render_blockquote(self.chars@, sections_view(lines@)),
    {
        let f = self.flatten_lines(lines, 0);
        let inner_start: usize = if f.len() > 0 && Symbol::from_char(f[0])
            == Symbol::GreaterThan {
            1
        } else {
            0
        };
        let mut out = String::from_str("<blockquote>");
        out.append("<p>");
        out.append(parse_section(&f, inner_start, f.len()).as_str());
        out.append("</p>");
        out.append("</blockquote>");
        out
    }

    /// Render a code block: the flattened stored lines, verbatim, inside
    /// the pre and code tag pairs.
    pub fn parse_code_block(&self, lines: &Vec<Section>) -> (result: String)
        requires
            self.wf(),
            forall|k: int|
                0 <= k < lines@.len() ==> (#[trigger] lines@[k]).start <= lines@[k].end
                    <= self.chars@.len(),
        ensures
            result@ == model::render_code(self.chars@, sections_view(lines@)),
    {
        let f = self.flatten_lines(lines, 0);
        let mut out = String::from_str("<pre><code>");
        out.append(copy_range(&f, 0, f.len()).as_str());
        out.append("</code></pre>");
        proof {
            assert(f@.subrange(0, f@.len() as int) =~= f@);
        }
        out
    }

    /// Render a paragraph block in full: setext promotion when the
    /// second stored line is a full-width `=` or `-` underline, literal
    /// passthrough for a block opening with `<` and holding a later `>`,
    /// a scanned paragraph otherwise.
    pub fn convert_paragraph_block(&self, lines: &Vec<Section>) -> (result: String)
        requires
            self.wf(),
            lines@.len() >= 1,
            forall|k: int|
                0 <= k < lines@.len() ==> (#[trigger] lines@[k]).start <= lines@[k].end
                    <= self.chars@.len(),
        ensures
            result@ == model::render_paragraph(self.chars@, sections_view(lines@)),
    {
        let ghost t = self.chars@;
        let ghost lv = sections_view(lines@);
        let mut setext: usize = 0;
        if lines.len() > 1 {
            let second = lines[1];
            proof {
                assert(lv[1] == second@);
            }
            let s2 = second.start;
            let e2 = second.end;
            if self.symbols[s2] == Symbol::EqualsSign {
                let r = self.sequence_length(Symbol::EqualsSign, s2);
                proof {
                    model::lemma_run_at(t, Symbol::EqualsSign, s2 as int);
                }
                if r > 1 && r == e2 - s2 {
                    setext = 1;
                }
            } else if self.symbols[s2] == Symbol::Hyphen {
                let r = self.sequence_length(Symbol::Hyphen, s2);
                proof {
                    model::lemma_run_at(t, Symbol::Hyphen, s2 as int);
                }
                if r > 1 && r == e2 - s2 {
                    setext = 2;
                }
            }
        }
        proof {
            assert(setext as int == model::setext_kind(t, lv));
        }
        if setext == 1 || setext == 2 {
            let first = lines[0];
            proof {
                assert(lv[0] == first@);
            }
            let mut out = String::from_str(if setext == 1 {
                "<h1>"
            } else {
                "<h2>"
            });
            out.append(copy_range(&self.chars, first.start, first.end).as_str());
            out.append(if setext == 1 {
                "</h1>"
            } else {
                "</h2>"
            });
            if lines.len() > 2 {
                out.append(self.convert_paragraph(lines, 2).as_str());
            } else {
                proof {
                    assert(out@ =~= out@ + Seq::<char>::empty());
                }
            }
            out
        } else {
            let f = self.flatten_lines(lines, 0);
            let passthrough: bool = f.len() > 0 && Symbol::from_char(f[0]) == Symbol::LessThan
                && find_symbol_from(&f, Symbol::GreaterThan, 0, f.len()) < f.len();
            if passthrough {
                let out = copy_range(&f, 0, f.len());
                proof {
                    assert(f@.subrange(0, f@.len() as int) =~= f@);
                }
                out
            } else {
                self.convert_paragraph(lines, 0)
            }
        }
    }

    /// Convert the whole buffer: segment it into blocks and concatenate
    /// their rendered fragments in document order.
    pub fn convert(&self) -> (result: String)
        requires
            self.wf(),
        ensures
            result@ == model::spec_convert(self.chars@),
    {
        let ghost t = self.chars@;
        let paragraphs = self.sections();
        let ghost bs = model::blocks(t);
        proof {
            model::lemma_blocks_wf(t);
        }
        let mut output = String::new();
        let mut i: usize = 0;
        proof {
            assert(model::spec_convert(t) =~= output@ + model::render_blocks_from(t, bs, 0));
        }
        while i < paragraphs.len()
            invariant
                self.wf(),
                t == self.chars@,
                bs == model::blocks(t),
                paragraphs_model(paragraphs@) == bs,
                0 <= i <= paragraphs@.len(),
                forall|j: int| 0 <= j < bs.len() ==> model::block_wf(t, #[trigger] bs[j]),
                model::spec_convert(t) == output@ + model::render_blocks_from(t, bs, i as int),
            decreases paragraphs@.len() - i,
        {
            let p: &Paragraph = &paragraphs[i];
            proof {
                assert(paragraphs_model(paragraphs@)[i as int] == p.model());
                assert(bs[i as int] == p.model());
                assert(model::block_wf(t, bs[i as int]));
                assert(sections_view(p.lines@).len() == p.lines@.len());
                assert forall|k: int|
                    0 <= k < p.lines@.len() implies (#[trigger] p.lines@[k]).start
                    <= p.lines@[k].end <= t.len() by {
                    assert(sections_view(p.lines@)[k] == p.lines@[k]@);
                }
            }
            let frag: String;
            if p.kind == LineType::Header {
                let sec = p.lines[0];
                proof {
                    assert(sections_view(p.lines@)[0] == sec@);
                }
                frag = self.convert_header(&sec);
                proof {
                    assert(model::render_block(t, bs[i as int]) == model::render_header(
                        t,
                        sec@,
                    ));
                }
            } else if p.kind == LineType::Paragraph {
                frag = self.convert_paragraph_block(&p.lines);
            } else if p.kind == LineType::Blockquote {
                frag = self.parse_blockquote(&p.lines);
            } else {
                proof {
                    assert(p.kind == LineType::Code);
                }
                frag = self.parse_code_block(&p.lines);
            }
            output.append(frag.as_str());
            proof {
                assert(model::render_blocks_from(t, bs, i as int) == model::render_block(
                    t,
                    bs[i as int],
                ) + model::render_blocks_from(t, bs, i + 1));
                assert(frag@ == model::render_block(t, bs[i as int]));
            }
            i = i + 1;
        }
        proof {
            assert(model::render_blocks_from(t, bs, i as int) == Seq::<char>::empty());
            assert(output@ =~= output@ + Seq::<char>::empty());
        }
        output
    }
}

} // verus!
