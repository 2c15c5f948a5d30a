//! The mathematical model of the conversion: specification functions that
//! pin down, character by character, what every stage of the engine
//! produces, together with the lemmas that characterize them.
//!
//! All positions are `int` offsets into one immutable character sequence;
//! lookahead past the end is modelled by the end-of-input sentinel.

use crate::content::LineType;
use crate::symbol::{blank_sym, classify, Symbol};
use vstd::prelude::*;

verus! {

/// The symbol at a position: the classification of the character there, or
/// the end-of-input sentinel outside the buffer.
pub open spec fn sym(t: Seq<char>, i: int) -> Symbol {
    if 0 <= i < t.len() {
        classify(t[i])
    } else {
        Symbol::EndInput
    }
}

/// Whether the position holds a whitespace-class character. Positions
/// outside the buffer count as non-blank, like the sentinel.
pub open spec fn blank_at(t: Seq<char>, i: int) -> bool {
    blank_sym(sym(t, i))
}

/// Length of the run of symbol `key` that starts at `i`, looking no
/// further than `hi`.
pub open spec fn run_in(t: Seq<char>, key: Symbol, i: int, hi: int) -> int
    decreases hi - i,
{
    if i < 0 || hi > t.len() || i >= hi {
        0
    } else if classify(t[i]) == key {
        1 + run_in(t, key, i + 1, hi)
    } else {
        0
    }
}

/// The first position in `[i, hi)` whose symbol is `key`, or `hi` if the
/// symbol does not occur there.
pub open spec fn find_sym_in(t: Seq<char>, key: Symbol, i: int, hi: int) -> int
    decreases hi - i,
{
    if !(0 <= i <= hi <= t.len()) {
        hi
    } else if i == hi {
        hi
    } else if classify(t[i]) == key {
        i
    } else {
        find_sym_in(t, key, i + 1, hi)
    }
}

/// The first position in `[i, hi)` holding a non-blank character, or `hi`
/// if the whole range is whitespace-class.
pub open spec fn strip_from(t: Seq<char>, i: int, hi: int) -> int
    decreases hi - i,
{
    if !(0 <= i <= hi <= t.len()) {
        hi
    } else if i == hi {
        hi
    } else if blank_sym(classify(t[i])) {
        strip_from(t, i + 1, hi)
    } else {
        i
    }
}

/// Where a stored line's content begins: the first non-blank position of
/// `[i, hi)` if one exists, and `i` itself when the whole range is
/// whitespace-class.
pub open spec fn strip_start(t: Seq<char>, i: int, hi: int) -> int {
    if !(0 <= i <= hi <= t.len()) {
        hi
    } else if strip_from(t, i, hi) < hi {
        strip_from(t, i, hi)
    } else {
        i
    }
}

/// Length of the run of symbol `key` starting at `i` in the
/// sentinel-extended symbol array: the end-of-input sentinel itself can
/// be the run's single member, but nothing stands beyond it.
pub open spec fn run_at(t: Seq<char>, key: Symbol, i: int) -> int
    decreases t.len() + 1 - i,
{
    if !(0 <= i <= t.len()) {
        0
    } else if sym(t, i) == key {
        1 + run_at(t, key, i + 1)
    } else {
        0
    }
}

/// Characterization of `run_at`: bounds, and agreement with the bounded
/// `run_in` for every key but the sentinel.
pub proof fn lemma_run_at(t: Seq<char>, key: Symbol, i: int)
    requires
        0 <= i <= t.len(),
    ensures
        0 <= run_at(t, key, i) <= t.len() + 1 - i,
        key != Symbol::EndInput ==> run_at(t, key, i) == run_in(t, key, i, t.len() as int),
    decreases t.len() + 1 - i,
{
    if sym(t, i) == key {
        if i < t.len() {
            lemma_run_at(t, key, i + 1);
        } else {
            assert(run_at(t, key, i + 1) == 0);
        }
    }
}

/// A run known position by position over the sentinel-extended symbol
/// array determines the value of `run_at`.
pub proof fn lemma_run_at_exact(t: Seq<char>, key: Symbol, i: int, j: int)
    requires
        0 <= i <= j <= t.len() + 1,
        forall|k: int| i <= k < j ==> sym(t, k) == key,
        j <= t.len() ==> sym(t, j) != key,
    ensures
        run_at(t, key, i) == j - i,
    decreases j - i,
{
    if i < j {
        assert(sym(t, i) == key);
        lemma_run_at_exact(t, key, i + 1, j);
    } else {
        if i > t.len() {
            assert(run_at(t, key, i) == 0);
        }
    }
}

/// Whether `m` consecutive characters of symbol `key` stand at `p`, wholly
/// inside the search bound `hi`.
pub open spec fn marker_at(t: Seq<char>, key: Symbol, m: int, p: int, hi: int) -> bool {
    p + m <= hi && forall|j: int| p <= j < p + m ==> classify(t[j]) == key
}

/// The first position `p >= i` where `m` consecutive characters of symbol
/// `key` stand wholly inside `[i, hi)`; `None` if there is no such place.
pub open spec fn find_marker(t: Seq<char>, key: Symbol, m: int, i: int, hi: int) -> Option<int>
    decreases hi - i,
{
    if !(0 <= i && i + m <= hi && hi <= t.len() && m >= 1) {
        None
    } else if marker_at(t, key, m, i, hi) {
        Some(i)
    } else {
        find_marker(t, key, m, i + 1, hi)
    }
}

/// The start of the next run of backticks in `[i, hi)` whose length is
/// exactly `n` (not more, not fewer); whole runs of another length are
/// stepped over. `None` if no such run exists.
pub open spec fn find_code_close(t: Seq<char>, n: int, i: int, hi: int) -> Option<int>
    decreases hi - i,
    via find_code_close_decreases
{
    if !(0 <= i <= hi <= t.len() && n >= 1) {
        None
    } else {
        let q = find_sym_in(t, Symbol::Code, i, hi);
        if q == hi {
            None
        } else {
            let k = run_in(t, Symbol::Code, q, hi);
            if k == n {
                Some(q)
            } else {
                find_code_close(t, n, q + k, hi)
            }
        }
    }
}

#[via_fn]
proof fn find_code_close_decreases(t: Seq<char>, n: int, i: int, hi: int) {
    if 0 <= i <= hi <= t.len() && n >= 1 {
        let q = find_sym_in(t, Symbol::Code, i, hi);
        lemma_find_sym_in(t, Symbol::Code, i, hi);
        if q < hi {
            lemma_run_in(t, Symbol::Code, q, hi);
        }
    }
}

/// Characterization of `run_in`: its length is bounded, the run itself is
/// all `key`, and the run is maximal within the bound.
pub proof fn lemma_run_in(t: Seq<char>, key: Symbol, i: int, hi: int)
    requires
        0 <= i <= hi <= t.len(),
    ensures
        0 <= run_in(t, key, i, hi) <= hi - i,
        forall|j: int| i <= j < i + run_in(t, key, i, hi) ==> classify(t[j]) == key,
        i + run_in(t, key, i, hi) < hi ==> classify(t[i + run_in(t, key, i, hi)]) != key,
        i < hi && classify(t[i]) == key ==> run_in(t, key, i, hi) >= 1,
    decreases hi - i,
{
    if i < hi && classify(t[i]) == key {
        lemma_run_in(t, key, i + 1, hi);
    }
}

/// A run known character by character determines the value of `run_in`.
pub proof fn lemma_run_in_exact(t: Seq<char>, key: Symbol, i: int, hi: int, j: int)
    requires
        0 <= i <= j <= hi <= t.len(),
        forall|k: int| i <= k < j ==> classify(t[k]) == key,
        j < hi ==> classify(t[j]) != key,
    ensures
        run_in(t, key, i, hi) == j - i,
    decreases hi - i,
{
    if i < j {
        assert(classify(t[i]) == key);
        lemma_run_in_exact(t, key, i + 1, hi, j);
    }
}

/// Characterization of `find_sym_in`: the result is the first position of
/// `key` in the range, or the upper bound when `key` does not occur.
pub proof fn lemma_find_sym_in(t: Seq<char>, key: Symbol, i: int, hi: int)
    requires
        0 <= i <= hi <= t.len(),
    ensures
        i <= find_sym_in(t, key, i, hi) <= hi,
        find_sym_in(t, key, i, hi) < hi ==> classify(t[find_sym_in(t, key, i, hi)]) == key,
        forall|j: int| i <= j < find_sym_in(t, key, i, hi) ==> classify(t[j]) != key,
    decreases hi - i,
{
    if i < hi && classify(t[i]) != key {
        lemma_find_sym_in(t, key, i + 1, hi);
    }
}

/// The first occurrence known character by character determines the value
/// of `find_sym_in`.
pub proof fn lemma_find_sym_in_exact(t: Seq<char>, key: Symbol, i: int, hi: int, p: int)
    requires
        0 <= i <= p <= hi <= t.len(),
        forall|j: int| i <= j < p ==> classify(t[j]) != key,
        p < hi ==> classify(t[p]) == key,
    ensures
        find_sym_in(t, key, i, hi) == p,
    decreases hi - i,
{
    if i < p {
        assert(classify(t[i]) != key);
        lemma_find_sym_in_exact(t, key, i + 1, hi, p);
    }
}

/// Characterization of `strip_from`: everything before the result is
/// whitespace-class, and the result itself is not.
pub proof fn lemma_strip_from(t: Seq<char>, i: int, hi: int)
    requires
        0 <= i <= hi <= t.len(),
    ensures
        i <= strip_from(t, i, hi) <= hi,
        forall|j: int| i <= j < strip_from(t, i, hi) ==> blank_sym(classify(t[j])),
        strip_from(t, i, hi) < hi ==> !blank_sym(classify(t[strip_from(t, i, hi)])),
    decreases hi - i,
{
    if i < hi && blank_sym(classify(t[i])) {
        lemma_strip_from(t, i + 1, hi);
    }
}

/// The first non-blank position known character by character determines
/// the value of `strip_from`.
pub proof fn lemma_strip_from_exact(t: Seq<char>, i: int, hi: int, p: int)
    requires
        0 <= i <= p <= hi <= t.len(),
        forall|j: int| i <= j < p ==> blank_sym(classify(t[j])),
        p < hi ==> !blank_sym(classify(t[p])),
    ensures
        strip_from(t, i, hi) == p,
    decreases hi - i,
{
    if i < p {
        assert(blank_sym(classify(t[i])));
        lemma_strip_from_exact(t, i + 1, hi, p);
    }
}

/// Characterization of `find_marker`: a found position is the first place
/// where the marker stands; `None` means the marker stands nowhere in range.
pub proof fn lemma_find_marker(t: Seq<char>, key: Symbol, m: int, i: int, hi: int)
    requires
        0 <= i,
        hi <= t.len(),
        m >= 1,
    ensures
        match find_marker(t, key, m, i, hi) {
            Some(p) => i <= p && p + m <= hi && marker_at(t, key, m, p, hi) && forall|q: int|
                i <= q < p ==> !marker_at(t, key, m, q, hi),
            None => forall|q: int| i <= q && q + m <= hi ==> !marker_at(t, key, m, q, hi),
        },
    decreases hi - i,
{
    if 0 <= i && i + m <= hi && hi <= t.len() && m >= 1 {
        if !marker_at(t, key, m, i, hi) {
            lemma_find_marker(t, key, m, i + 1, hi);
        }
    }
}

/// The first marker position known place by place determines the value
/// of `find_marker`.
pub proof fn lemma_find_marker_exact(t: Seq<char>, key: Symbol, m: int, i: int, hi: int, p: int)
    requires
        0 <= i <= p,
        p + m <= hi <= t.len(),
        m >= 1,
        marker_at(t, key, m, p, hi),
        forall|q: int| i <= q < p ==> !marker_at(t, key, m, q, hi),
    ensures
        find_marker(t, key, m, i, hi) == Some(p),
    decreases p - i,
{
    if i < p {
        assert(!marker_at(t, key, m, i, hi));
        lemma_find_marker_exact(t, key, m, i + 1, hi, p);
    }
}

/// Characterization of `find_code_close`: bounds for a found close.
pub proof fn lemma_find_code_close(t: Seq<char>, n: int, i: int, hi: int)
    requires
        0 <= i <= hi <= t.len(),
        n >= 1,
    ensures
        match find_code_close(t, n, i, hi) {
            Some(p) => i <= p && p + n <= hi && run_in(t, Symbol::Code, p, hi) == n && classify(
                t[p],
            ) == Symbol::Code,
            None => true,
        },
    decreases hi - i,
{
    let q = find_sym_in(t, Symbol::Code, i, hi);
    lemma_find_sym_in(t, Symbol::Code, i, hi);
    if q < hi {
        let k = run_in(t, Symbol::Code, q, hi);
        lemma_run_in(t, Symbol::Code, q, hi);
        if k != n {
            lemma_find_code_close(t, n, q + k, hi);
        }
    }
}

/// A backtick run known to be the first one, with exactly the right
/// length, determines the value of `find_code_close`.
pub proof fn lemma_find_code_close_exact(t: Seq<char>, n: int, i: int, hi: int, p: int)
    requires
        0 <= i <= p < hi <= t.len(),
        n >= 1,
        forall|j: int| i <= j < p ==> classify(t[j]) != Symbol::Code,
        classify(t[p]) == Symbol::Code,
        run_in(t, Symbol::Code, p, hi) == n,
    ensures
        find_code_close(t, n, i, hi) == Some(p),
{
    lemma_find_sym_in_exact(t, Symbol::Code, i, hi, p);
}

// ---------------------------------------------------------------------
// Lines and blocks
// ---------------------------------------------------------------------

/// Whether the whole line `[s, e)` is whitespace-class.
pub open spec fn line_blank(t: Seq<char>, s: int, e: int) -> bool {
    strip_from(t, s, e) == e
}

/// The structural kind of the line `[s, e)`, read off its leading
/// characters: a whitespace-only line is blank; a tab or more than three
/// leading spaces opens code; a run of `#` followed by a space is a
/// header; `>` opens a blockquote; anything else is paragraph text.
pub open spec fn line_type(t: Seq<char>, s: int, e: int) -> LineType {
    if line_blank(t, s, e) {
        LineType::Blank
    } else if sym(t, s) == Symbol::Tab {
        LineType::Code
    } else {
        let off = if sym(t, s) == Symbol::Space {
            run_in(t, Symbol::Space, s, t.len() as int)
        } else {
            0
        };
        if off > 3 {
            LineType::Code
        } else {
            let c = sym(t, s + off);
            if c == Symbol::NumberSign {
                if sym(t, s + off + run_in(t, Symbol::NumberSign, s + off, t.len() as int))
                    == Symbol::Space {
                    LineType::Header
                } else {
                    LineType::Paragraph
                }
            } else if c == Symbol::GreaterThan {
                LineType::Blockquote
            } else if c == Symbol::Tab {
                LineType::Code
            } else {
                LineType::Paragraph
            }
        }
    }
}

/// The lines of the buffer from position `i` on: half-open spans ending
/// just before each newline-class character, the last one at the buffer
/// end.
pub open spec fn split_lines_from(t: Seq<char>, i: int) -> Seq<(int, int)>
    decreases t.len() - i,
    via split_lines_from_decreases
{
    if !(0 <= i < t.len()) {
        Seq::empty()
    } else {
        let e = find_sym_in(t, Symbol::Newline, i, t.len() as int);
        if e >= t.len() {
            seq![(i, e)]
        } else {
            seq![(i, e)] + split_lines_from(t, e + 1)
        }
    }
}

#[via_fn]
proof fn split_lines_from_decreases(t: Seq<char>, i: int) {
    if 0 <= i < t.len() {
        lemma_find_sym_in(t, Symbol::Newline, i, t.len() as int);
    }
}

/// The lines of the whole buffer.
pub open spec fn doc_lines(t: Seq<char>) -> Seq<(int, int)> {
    split_lines_from(t, 0)
}

/// One structural block: its kind and its stored lines.
pub open spec fn block_wf(t: Seq<char>, b: (LineType, Seq<(int, int)>)) -> bool {
    &&& b.1.len() >= 1
    &&& forall|k: int| 0 <= k < b.1.len() ==> 0 <= (#[trigger] b.1[k]).0 <= b.1[k].1 <= t.len()
    &&& (b.0 == LineType::Paragraph || b.0 == LineType::Header || b.0 == LineType::Blockquote
        || b.0 == LineType::Code)
    &&& (b.0 == LineType::Header ==> b.1.len() == 1)
}

/// The block segmenter: fold the classified lines from index `i` on into
/// blocks, with `(cur_kind, cur)` the block being accumulated. Each
/// stored line is stripped of its leading whitespace-class characters.
///
/// A blank line closes the open block; a header line closes it and forms
/// a one-line block of its own; paragraph and code lines continue a
/// blockquote; code lines continue a paragraph; any other change of kind
/// closes the block and opens a new one.
pub open spec fn segment(
    t: Seq<char>,
    lines: Seq<(int, int)>,
    i: int,
    cur_kind: LineType,
    cur: Seq<(int, int)>,
) -> Seq<(LineType, Seq<(int, int)>)>
    decreases lines.len() - i,
{
    if !(0 <= i < lines.len()) {
        if cur.len() > 0 {
            seq![(cur_kind, cur)]
        } else {
            Seq::empty()
        }
    } else {
        let s = lines[i].0;
        let e = lines[i].1;
        let ty = line_type(t, s, e);
        let st = (strip_from(t, s, e), e);
        if ty == LineType::Blank {
            if cur.len() > 0 {
                seq![(cur_kind, cur)] + segment(t, lines, i + 1, LineType::Null, Seq::empty())
            } else {
                segment(t, lines, i + 1, LineType::Null, Seq::empty())
            }
        } else if ty == LineType::Header {
            if cur.len() > 0 {
                seq![(cur_kind, cur), (LineType::Header, seq![st])] + segment(
                    t,
                    lines,
                    i + 1,
                    LineType::Null,
                    Seq::empty(),
                )
            } else {
                seq![(LineType::Header, seq![st])] + segment(
                    t,
                    lines,
                    i + 1,
                    LineType::Null,
                    Seq::empty(),
                )
            }
        } else if cur.len() == 0 {
            segment(t, lines, i + 1, ty, seq![st])
        } else if ty == cur_kind || (cur_kind == LineType::Blockquote && (ty == LineType::Paragraph
            || ty == LineType::Code)) || (cur_kind == LineType::Paragraph && ty
            == LineType::Code) {
            segment(t, lines, i + 1, cur_kind, cur.push(st))
        } else {
            seq![(cur_kind, cur)] + segment(t, lines, i + 1, ty, seq![st])
        }
    }
}

/// The block list of the whole buffer.
pub open spec fn blocks(t: Seq<char>) -> Seq<(LineType, Seq<(int, int)>)> {
    segment(t, doc_lines(t), 0, LineType::Null, Seq::empty())
}

/// Every line produced by the splitter lies inside the buffer, at or
/// after the start position.
pub proof fn lemma_split_lines_wf(t: Seq<char>, i: int)
    requires
        0 <= i,
    ensures
        forall|k: int|
            0 <= k < split_lines_from(t, i).len() ==> i <= (#[trigger] split_lines_from(t, i)[k]).0
                <= split_lines_from(t, i)[k].1 <= t.len(),
    decreases t.len() - i,
{
    if 0 <= i < t.len() {
        let e = find_sym_in(t, Symbol::Newline, i, t.len() as int);
        lemma_find_sym_in(t, Symbol::Newline, i, t.len() as int);
        if e < t.len() {
            lemma_split_lines_wf(t, e + 1);
            let rest = split_lines_from(t, e + 1);
            let whole = split_lines_from(t, i);
            assert forall|k: int| 0 <= k < whole.len() implies i <= (#[trigger] whole[k]).0
                <= whole[k].1 <= t.len() by {
                if k > 0 {
                    assert(whole[k] == rest[k - 1]);
                }
            }
        }
    }
}

/// Every block produced by the segmenter is well-formed: at least one
/// line, every line inside the buffer, a kind among the four rendered
/// kinds, and a header block of exactly one line.
pub proof fn lemma_segment_wf(
    t: Seq<char>,
    lines: Seq<(int, int)>,
    i: int,
    cur_kind: LineType,
    cur: Seq<(int, int)>,
)
    requires
        0 <= i,
        forall|k: int| 0 <= k < lines.len() ==> 0 <= (#[trigger] lines[k]).0 <= lines[k].1
            <= t.len(),
        forall|k: int| 0 <= k < cur.len() ==> 0 <= (#[trigger] cur[k]).0 <= cur[k].1 <= t.len(),
        cur.len() > 0 ==> (cur_kind == LineType::Paragraph || cur_kind == LineType::Blockquote
            || cur_kind == LineType::Code),
    ensures
        forall|j: int|
            0 <= j < segment(t, lines, i, cur_kind, cur).len() ==> block_wf(
                t,
                #[trigger] segment(t, lines, i, cur_kind, cur)[j],
            ),
    decreases lines.len() - i,
{
    if !(0 <= i < lines.len()) {
    } else {
        let s = lines[i].0;
        let e = lines[i].1;
        let ty = line_type(t, s, e);
        let st = (strip_from(t, s, e), e);
        lemma_strip_from(t, s, e);
        let whole = segment(t, lines, i, cur_kind, cur);
        if ty == LineType::Blank {
            lemma_segment_wf(t, lines, i + 1, LineType::Null, Seq::empty());
            let rest = segment(t, lines, i + 1, LineType::Null, Seq::empty());
            assert forall|j: int| 0 <= j < whole.len() implies block_wf(t, #[trigger] whole[j]) by {
                if cur.len() > 0 && j > 0 {
                    assert(whole[j] == rest[j - 1]);
                }
            }
        } else if ty == LineType::Header {
            lemma_segment_wf(t, lines, i + 1, LineType::Null, Seq::empty());
            let rest = segment(t, lines, i + 1, LineType::Null, Seq::empty());
            assert(block_wf(t, (LineType::Header, seq![st])));
            assert forall|j: int| 0 <= j < whole.len() implies block_wf(t, #[trigger] whole[j]) by {
                if cur.len() > 0 {
                    if j >= 2 {
                        assert(whole[j] == rest[j - 2]);
                    }
                } else {
                    if j >= 1 {
                        assert(whole[j] == rest[j - 1]);
                    }
                }
            }
        } else if cur.len() == 0 {
            assert(ty == LineType::Paragraph || ty == LineType::Blockquote || ty == LineType::Code);
            lemma_segment_wf(t, lines, i + 1, ty, seq![st]);
            assert(whole == segment(t, lines, i + 1, ty, seq![st]));
        } else if ty == cur_kind || (cur_kind == LineType::Blockquote && (ty == LineType::Paragraph
            || ty == LineType::Code)) || (cur_kind == LineType::Paragraph && ty
            == LineType::Code) {
            lemma_segment_wf(t, lines, i + 1, cur_kind, cur.push(st));
            assert(whole == segment(t, lines, i + 1, cur_kind, cur.push(st)));
        } else {
            lemma_segment_wf(t, lines, i + 1, ty, seq![st]);
            let rest = segment(t, lines, i + 1, ty, seq![st]);
            assert forall|j: int| 0 <= j < whole.len() implies block_wf(t, #[trigger] whole[j]) by {
                if j > 0 {
                    assert(whole[j] == rest[j - 1]);
                }
            }
        }
    }
}

/// Every block of a whole buffer is well-formed.
pub proof fn lemma_blocks_wf(t: Seq<char>)
    ensures
        forall|j: int| 0 <= j < blocks(t).len() ==> block_wf(t, #[trigger] blocks(t)[j]),
{
    lemma_split_lines_wf(t, 0);
    lemma_segment_wf(t, doc_lines(t), 0, LineType::Null, Seq::empty());
}

// ---------------------------------------------------------------------
// The inline scanner
// ---------------------------------------------------------------------

/// `k` copies of one character.
pub open spec fn repeat_char(c: char, k: int) -> Seq<char> {
    if k <= 0 {
        Seq::empty()
    } else {
        Seq::new(k as nat, |i: int| c)
    }
}

/// The opening tag pair for an emphasis marker of length `m`.
pub open spec fn em_open(m: int) -> Seq<char> {
    if m == 1 {
        "<em>"@
    } else if m == 2 {
        "<strong>"@
    } else {
        "<strong><em>"@
    }
}

/// The closing tag pair for an emphasis marker of length `m`.
pub open spec fn em_close(m: int) -> Seq<char> {
    if m == 1 {
        "</em>"@
    } else if m == 2 {
        "</strong>"@
    } else {
        "</em></strong>"@
    }
}

/// Whether position `i` holds a whitespace-class character, counting
/// everything at or past the search bound `hi` as non-blank.
pub open spec fn blank_in(f: Seq<char>, i: int, hi: int) -> bool {
    i < hi && blank_at(f, i)
}

/// The accepted closing position for an asterisk run opening at `lo`, if
/// any: the run must not be followed by blank space (the flanking rule),
/// a marker of the capped length must stand somewhere ahead, and the
/// character just before it must not be blank either.
pub open spec fn emphasis_match(f: Seq<char>, lo: int, hi: int) -> Option<int> {
    let n = run_in(f, Symbol::Asterisk, lo, hi);
    let m = if n > 3 {
        3
    } else {
        n
    };
    if blank_in(f, lo + n, hi) {
        None
    } else {
        match find_marker(f, Symbol::Asterisk, m, lo + n, hi) {
            None => None,
            Some(p) => if blank_at(f, p - 1) {
                None
            } else {
                Some(p)
            },
        }
    }
}

/// What an inline code span starting at `lo` contributes: either the
/// verbatim content between two equal-length backtick fences wrapped in
/// a code tag, or, with no matching fence, the opening backticks alone.
pub open spec fn code_frag(f: Seq<char>, lo: int, hi: int) -> Seq<char> {
    let n = run_in(f, Symbol::Code, lo, hi);
    match find_code_close(f, n, lo + n, hi) {
        None => repeat_char('`', n),
        Some(p) => "<code>"@ + f.subrange(lo + n, p) + "</code>"@,
    }
}

/// Where scanning resumes after an inline code span starting at `lo`.
pub open spec fn code_next(f: Seq<char>, lo: int, hi: int) -> int {
    let n = run_in(f, Symbol::Code, lo, hi);
    match find_code_close(f, n, lo + n, hi) {
        None => lo + n,
        Some(p) => p + n,
    }
}

/// The inline scanner over the range `[lo, hi)` of a block's flattened
/// text: asterisk runs become emphasis spans when a flanked closing
/// marker exists and fall back to literal asterisks otherwise; backtick
/// runs become code spans closed only by an equal-length run; every
/// other character is copied through.
pub open spec fn inline_between(f: Seq<char>, lo: int, hi: int) -> Seq<char>
    decreases hi - lo,
    via inline_between_decreases
{
    if !(0 <= lo < hi && hi <= f.len()) {
        Seq::empty()
    } else if classify(f[lo]) == Symbol::Asterisk {
        let n = run_in(f, Symbol::Asterisk, lo, hi);
        let m = if n > 3 {
            3
        } else {
            n
        };
        match emphasis_match(f, lo, hi) {
            None => repeat_char('*', n) + inline_between(f, lo + n, hi),
            Some(p) => repeat_char('*', if n > 3 {
                n - 3
            } else {
                0
            }) + em_open(m) + inline_between(f, lo + n, p) + em_close(m) + inline_between(
                f,
                p + m,
                hi,
            ),
        }
    } else if classify(f[lo]) == Symbol::Code {
        code_frag(f, lo, hi) + inline_between(f, code_next(f, lo, hi), hi)
    } else {
        seq![f[lo]] + inline_between(f, lo + 1, hi)
    }
}

#[via_fn]
proof fn inline_between_decreases(f: Seq<char>, lo: int, hi: int) {
    if 0 <= lo < hi && hi <= f.len() {
        if classify(f[lo]) == Symbol::Asterisk {
            let n = run_in(f, Symbol::Asterisk, lo, hi);
            let m = if n > 3 {
                3
            } else {
                n
            };
            lemma_run_in(f, Symbol::Asterisk, lo, hi);
            if !blank_in(f, lo + n, hi) {
                lemma_find_marker(f, Symbol::Asterisk, m, lo + n, hi);
            }
        } else if classify(f[lo]) == Symbol::Code {
            lemma_code_next(f, lo, hi);
        }
    }
}

/// What an asterisk run starting at `lo` contributes: with an accepted
/// closing marker, any excess above three asterisks literally, then the
/// emphasis tags around the recursively scanned span; without one, the
/// whole run literally.
pub open spec fn emphasis_frag(f: Seq<char>, lo: int, hi: int) -> Seq<char> {
    let n = run_in(f, Symbol::Asterisk, lo, hi);
    let m = if n > 3 {
        3
    } else {
        n
    };
    match emphasis_match(f, lo, hi) {
        None => repeat_char('*', n),
        Some(p) => repeat_char('*', if n > 3 {
            n - 3
        } else {
            0
        }) + em_open(m) + inline_between(f, lo + n, p) + em_close(m),
    }
}

/// Where scanning resumes after an asterisk run starting at `lo`.
pub open spec fn emphasis_next(f: Seq<char>, lo: int, hi: int) -> int {
    let n = run_in(f, Symbol::Asterisk, lo, hi);
    let m = if n > 3 {
        3
    } else {
        n
    };
    match emphasis_match(f, lo, hi) {
        None => lo + n,
        Some(p) => p + m,
    }
}

/// One unfolding of the scanner at an asterisk.
pub proof fn lemma_inline_unfold_emphasis(f: Seq<char>, lo: int, hi: int)
    requires
        0 <= lo < hi <= f.len(),
        classify(f[lo]) == Symbol::Asterisk,
    ensures
        inline_between(f, lo, hi) == emphasis_frag(f, lo, hi) + inline_between(
            f,
            emphasis_next(f, lo, hi),
            hi,
        ),
{
    let n = run_in(f, Symbol::Asterisk, lo, hi);
    let m = if n > 3 {
        3
    } else {
        n
    };
    match emphasis_match(f, lo, hi) {
        None => {
            assert(inline_between(f, lo, hi) == repeat_char('*', n) + inline_between(
                f,
                lo + n,
                hi,
            ));
        },
        Some(p) => {
            assert(inline_between(f, lo, hi) == repeat_char('*', if n > 3 {
                n - 3
            } else {
                0
            }) + em_open(m) + inline_between(f, lo + n, p) + em_close(m) + inline_between(
                f,
                p + m,
                hi,
            ));
        },
    }
}

/// One unfolding of the scanner at a backtick.
pub proof fn lemma_inline_unfold_code(f: Seq<char>, lo: int, hi: int)
    requires
        0 <= lo < hi <= f.len(),
        classify(f[lo]) == Symbol::Code,
    ensures
        inline_between(f, lo, hi) == code_frag(f, lo, hi) + inline_between(
            f,
            code_next(f, lo, hi),
            hi,
        ),
{
}

/// One unfolding of the scanner at an ordinary character.
pub proof fn lemma_inline_unfold_other(f: Seq<char>, lo: int, hi: int)
    requires
        0 <= lo < hi <= f.len(),
        classify(f[lo]) != Symbol::Asterisk,
        classify(f[lo]) != Symbol::Code,
    ensures
        inline_between(f, lo, hi) == seq![f[lo]] + inline_between(f, lo + 1, hi),
{
}

/// Bounds for `code_next`: the cursor advances, and stays in range.
pub proof fn lemma_code_next(f: Seq<char>, lo: int, hi: int)
    requires
        0 <= lo < hi <= f.len(),
        classify(f[lo]) == Symbol::Code,
    ensures
        lo < code_next(f, lo, hi) <= hi,
{
    let n = run_in(f, Symbol::Code, lo, hi);
    lemma_run_in(f, Symbol::Code, lo, hi);
    lemma_find_code_close(f, n, lo + n, hi);
}

/// Bounds for an accepted emphasis match: strictly inside the range,
/// leaving room for the closing marker.
pub proof fn lemma_emphasis_match(f: Seq<char>, lo: int, hi: int)
    requires
        0 <= lo < hi <= f.len(),
        classify(f[lo]) == Symbol::Asterisk,
    ensures
        1 <= run_in(f, Symbol::Asterisk, lo, hi) <= hi - lo,
        match emphasis_match(f, lo, hi) {
            Some(p) => {
                let n = run_in(f, Symbol::Asterisk, lo, hi);
                let m = if n > 3 {
                    3
                } else {
                    n
                };
                lo + n <= p && p + m <= hi
            },
            None => true,
        },
{
    let n = run_in(f, Symbol::Asterisk, lo, hi);
    let m = if n > 3 {
        3
    } else {
        n
    };
    lemma_run_in(f, Symbol::Asterisk, lo, hi);
    if !blank_in(f, lo + n, hi) {
        lemma_find_marker(f, Symbol::Asterisk, m, lo + n, hi);
    }
}

// ---------------------------------------------------------------------
// The renderer
// ---------------------------------------------------------------------

/// What one stored line contributes to a block's flattened text: its
/// characters, and the line-ending character itself whenever the line
/// stops short of the buffer end.
pub open spec fn line_text(t: Seq<char>, sp: (int, int)) -> Seq<char> {
    if sp.1 < t.len() {
        t.subrange(sp.0, sp.1 + 1)
    } else {
        t.subrange(sp.0, sp.1)
    }
}

/// The flattened text of the stored lines from index `i` on.
pub open spec fn flatten_from(t: Seq<char>, lines: Seq<(int, int)>, i: int) -> Seq<char>
    decreases lines.len() - i,
{
    if !(0 <= i < lines.len()) {
        Seq::empty()
    } else {
        line_text(t, lines[i]) + flatten_from(t, lines, i + 1)
    }
}

/// The heading level for a counted `#` depth: one through five stand for
/// themselves, everything else clamps to six.
pub open spec fn heading_level(d: int) -> int {
    if 1 <= d <= 5 {
        d
    } else {
        6
    }
}

/// The opening tag of a heading level.
pub open spec fn h_open(d: int) -> Seq<char> {
    if d == 1 {
        "<h1>"@
    } else if d == 2 {
        "<h2>"@
    } else if d == 3 {
        "<h3>"@
    } else if d == 4 {
        "<h4>"@
    } else if d == 5 {
        "<h5>"@
    } else {
        "<h6>"@
    }
}

/// The closing tag of a heading level.
pub open spec fn h_close(d: int) -> Seq<char> {
    if d == 1 {
        "</h1>"@
    } else if d == 2 {
        "</h2>"@
    } else if d == 3 {
        "</h3>"@
    } else if d == 4 {
        "</h4>"@
    } else if d == 5 {
        "</h5>"@
    } else {
        "</h6>"@
    }
}

/// A header block's fragment: the `#` run sets the level, the text after
/// the run and its following blanks is copied literally. A remainder
/// that is wholly blank is kept as it stands.
pub open spec fn render_header(t: Seq<char>, sp: (int, int)) -> Seq<char> {
    let d = run_in(t, Symbol::NumberSign, sp.0, t.len() as int);
    let cs = strip_start(t, sp.0 + d, sp.1);
    h_open(heading_level(d)) + t.subrange(cs, sp.1) + h_close(heading_level(d))
}

/// The setext underline check on a paragraph block's stored lines: `1`
/// when the second line is a full-width run of two or more `=`, `2` for
/// `-`, `0` otherwise.
pub open spec fn setext_kind(t: Seq<char>, lines: Seq<(int, int)>) -> int {
    if lines.len() < 2 {
        0
    } else {
        let s2 = lines[1].0;
        let e2 = lines[1].1;
        if sym(t, s2) == Symbol::EqualsSign && run_in(t, Symbol::EqualsSign, s2, t.len() as int) > 1
            && run_in(t, Symbol::EqualsSign, s2, t.len() as int) == e2 - s2 {
            1
        } else if sym(t, s2) == Symbol::Hyphen && run_in(t, Symbol::Hyphen, s2, t.len() as int) > 1
            && run_in(t, Symbol::Hyphen, s2, t.len() as int) == e2 - s2 {
            2
        } else {
            0
        }
    }
}

/// A paragraph tag pair around the scanned flattened text of the stored
/// lines from index `i` on.
pub open spec fn render_paragraph_body(t: Seq<char>, lines: Seq<(int, int)>, i: int) -> Seq<char> {
    let f = flatten_from(t, lines, i);
    "<p>"@ + inline_between(f, 0, f.len() as int) + "</p>"@
}

/// A paragraph block's fragment. A full-width `=` or `-` underline as the
/// second line promotes the first line to a header, any remaining lines
/// forming a paragraph of their own; a block opening with `<` and holding
/// a later `>` passes through literally; everything else is scanned and
/// wrapped in a paragraph tag pair.
pub open spec fn render_paragraph(t: Seq<char>, lines: Seq<(int, int)>) -> Seq<char> {
    let sk = setext_kind(t, lines);
    if sk == 1 || sk == 2 {
        h_open(sk) + t.subrange(lines[0].0, lines[0].1) + h_close(sk) + if lines.len() > 2 {
            render_paragraph_body(t, lines, 2)
        } else {
            Seq::empty()
        }
    } else {
        let f = flatten_from(t, lines, 0);
        if f.len() > 0 && classify(f[0]) == Symbol::LessThan && find_sym_in(
            f,
            Symbol::GreaterThan,
            0,
            f.len() as int,
        ) < f.len() {
            f
        } else {
            render_paragraph_body(t, lines, 0)
        }
    }
}

/// A blockquote block's fragment: the flattened text, its leading `>`
/// marker dropped, scanned and wrapped as a paragraph inside a
/// blockquote tag pair.
pub open spec fn render_blockquote(t: Seq<char>, lines: Seq<(int, int)>) -> Seq<char> {
    let f = flatten_from(t, lines, 0);
    let inner = if f.len() > 0 && classify(f[0]) == Symbol::GreaterThan {
        1int
    } else {
        0int
    };
    "<blockquote>"@ + "<p>"@ + inline_between(f, inner, f.len() as int) + "</p>"@
        + "</blockquote>"@
}

/// A code block's fragment: the flattened stored lines, verbatim.
pub open spec fn render_code(t: Seq<char>, lines: Seq<(int, int)>) -> Seq<char> {
    "<pre><code>"@ + flatten_from(t, lines, 0) + "</code></pre>"@
}

/// The fragment of one block, by kind.
pub open spec fn render_block(t: Seq<char>, b: (LineType, Seq<(int, int)>)) -> Seq<char> {
    if b.0 == LineType::Header {
        render_header(t, b.1[0])
    } else if b.0 == LineType::Paragraph {
        render_paragraph(t, b.1)
    } else if b.0 == LineType::Blockquote {
        render_blockquote(t, b.1)
    } else if b.0 == LineType::Code {
        render_code(t, b.1)
    } else {
        Seq::empty()
    }
}

/// The concatenated fragments of the blocks from index `i` on.
pub open spec fn render_blocks_from(
    t: Seq<char>,
    bs: Seq<(LineType, Seq<(int, int)>)>,
    i: int,
) -> Seq<char>
    decreases bs.len() - i,
{
    if !(0 <= i < bs.len()) {
        Seq::empty()
    } else {
        render_block(t, bs[i]) + render_blocks_from(t, bs, i + 1)
    }
}

/// The whole conversion: the blocks of the buffer, rendered in document
/// order with nothing between them.
pub open spec fn spec_convert(t: Seq<char>) -> Seq<char> {
    render_blocks_from(t, blocks(t), 0)
}

} // verus!
