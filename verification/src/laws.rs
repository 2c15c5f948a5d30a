//! General properties of the conversion, stated and proved against the
//! model: what plain text renders to, that conversion is a pure
//! function, how over-long asterisk runs cap, how backtick fences match,
//! and when a setext underline promotes.

use crate::content::LineType;
use crate::model::{
    blocks, doc_lines, em_close, em_open, emphasis_match, find_code_close, find_marker,
    inline_between, lemma_find_code_close_exact, lemma_find_marker_exact, lemma_find_sym_in_exact,
    lemma_run_in_exact, lemma_strip_from_exact, line_type, repeat_char, run_in, segment,
    spec_convert, split_lines_from, strip_from,
};
use crate::symbol::{blank_sym, classify, Symbol};
use vstd::prelude::*;

verus! {

/// The conversion is a pure function of the input text alone: equal
/// inputs always yield equal outputs. (Nothing is claimed of applying
/// it to its own output.)
pub proof fn lemma_convert_pure(a: Seq<char>, b: Seq<char>)
    requires
        a == b,
    ensures
        spec_convert(a) == spec_convert(b),
{
}

/// A span holding neither asterisks nor backticks is copied through the
/// inline scanner unchanged.
pub proof fn lemma_inline_literal(f: Seq<char>, lo: int, hi: int)
    requires
        0 <= lo <= hi <= f.len(),
        forall|j: int|
            lo <= j < hi ==> classify(f[j]) != Symbol::Asterisk && classify(f[j]) != Symbol::Code,
    ensures
        inline_between(f, lo, hi) == f.subrange(lo, hi),
    decreases hi - lo,
{
    if lo < hi {
        lemma_inline_literal(f, lo + 1, hi);
        assert(inline_between(f, lo, hi) == seq![f[lo]] + f.subrange(lo + 1, hi));
        assert(seq![f[lo]] + f.subrange(lo + 1, hi) =~= f.subrange(lo, hi));
    } else {
        assert(f.subrange(lo, hi) =~= Seq::<char>::empty());
    }
}

/// A buffer without newline-class characters is a single line.
proof fn lemma_single_line(t: Seq<char>)
    requires
        t.len() >= 1,
        forall|j: int| 0 <= j < t.len() ==> classify(t[j]) != Symbol::Newline,
    ensures
        doc_lines(t) == seq![(0int, t.len() as int)],
{
    lemma_find_sym_in_exact(t, Symbol::Newline, 0, t.len() as int, t.len() as int);
    assert(split_lines_from(t, 0) == seq![(0int, t.len() as int)]);
}

/// The conditions under which one line is ordinary paragraph text: its
/// first character is not whitespace-class and opens no header, no
/// blockquote and no code indent.
pub open spec fn plain_opening(t: Seq<char>, s: int) -> bool {
    &&& !blank_sym(classify(t[s]))
    &&& classify(t[s]) != Symbol::NumberSign
    &&& classify(t[s]) != Symbol::GreaterThan
}

/// A line opening plainly has paragraph type and strips to itself.
proof fn lemma_plain_line_type(t: Seq<char>, s: int, e: int)
    requires
        0 <= s < e <= t.len(),
        plain_opening(t, s),
    ensures
        line_type(t, s, e) == LineType::Paragraph,
        strip_from(t, s, e) == s,
{
    lemma_strip_from_exact(t, s, e, s);
    assert(!crate::model::line_blank(t, s, e));
    assert(crate::model::sym(t, s) == classify(t[s]));
    assert(classify(t[s]) != Symbol::Space && classify(t[s]) != Symbol::Tab);
}

/// A one-line buffer of plain paragraph text forms exactly one
/// paragraph block holding that line.
proof fn lemma_single_paragraph_block(t: Seq<char>)
    requires
        t.len() >= 1,
        forall|j: int| 0 <= j < t.len() ==> classify(t[j]) != Symbol::Newline,
        plain_opening(t, 0),
    ensures
        blocks(t) == seq![(LineType::Paragraph, seq![(0int, t.len() as int)])],
{
    let n = t.len() as int;
    lemma_single_line(t);
    lemma_plain_line_type(t, 0, n);
    let dl = doc_lines(t);
    assert(dl[0] == (0int, n));
    assert(segment(t, dl, 1, LineType::Paragraph, seq![(0int, n)]) == seq![
        (LineType::Paragraph, seq![(0int, n)]),
    ]);
    assert(segment(t, dl, 0, LineType::Null, Seq::empty()) == segment(
        t,
        dl,
        1,
        LineType::Paragraph,
        seq![(0int, n)],
    ));
}

/// A one-line document of plain-opening paragraph text converts to its
/// own inline scan wrapped in one paragraph tag pair.
pub proof fn lemma_single_paragraph_render(t: Seq<char>)
    requires
        t.len() >= 1,
        forall|j: int| 0 <= j < t.len() ==> classify(#[trigger] t[j]) != Symbol::Newline,
        plain_opening(t, 0),
        classify(t[0]) != Symbol::LessThan,
    ensures
        spec_convert(t) == "<p>"@ + inline_between(t, 0, t.len() as int) + "</p>"@,
{
    let n = t.len() as int;
    lemma_single_paragraph_block(t);
    let bs = blocks(t);
    let lines = seq![(0int, n)];
    assert(spec_convert(t) == crate::model::render_block(t, bs[0]) + crate::model::render_blocks_from(
        t,
        bs,
        1,
    ));
    assert(crate::model::render_blocks_from(t, bs, 1) == Seq::<char>::empty());
    assert(crate::model::setext_kind(t, lines) == 0);
    let f = crate::model::flatten_from(t, lines, 0);
    assert(crate::model::line_text(t, lines[0]) == t.subrange(0, n));
    assert(crate::model::flatten_from(t, lines, 1) == Seq::<char>::empty());
    assert(f =~= t);
    assert(classify(f[0]) != Symbol::LessThan);
    assert(crate::model::render_paragraph(t, lines) == "<p>"@ + inline_between(f, 0, f.len() as int)
        + "</p>"@);
    assert(spec_convert(t) =~= "<p>"@ + inline_between(t, 0, n) + "</p>"@);
}

/// A character free of every block- and inline-significant class: it
/// opens no header, blockquote, code indent, setext underline, tag or
/// inline span, and is no tab.
pub open spec fn insignificant(c: char) -> bool {
    &&& classify(c) != Symbol::Tab
    &&& classify(c) != Symbol::Asterisk
    &&& classify(c) != Symbol::Code
    &&& classify(c) != Symbol::NumberSign
    &&& classify(c) != Symbol::GreaterThan
    &&& classify(c) != Symbol::LessThan
    &&& classify(c) != Symbol::EqualsSign
    &&& classify(c) != Symbol::Hyphen
}

/// A newline-class character stands at position `j`.
pub open spec fn newline_at(t: Seq<char>, j: int) -> bool {
    0 <= j < t.len() && classify(t[j]) == Symbol::Newline
}

/// Plain multi-line text: every character insignificant, and every
/// newline either the last character or followed by neither a newline
/// nor a space — no blank lines and no leading whitespace on any line.
pub open spec fn plain_text(t: Seq<char>) -> bool {
    &&& t.len() >= 1
    &&& forall|j: int| 0 <= j < t.len() ==> insignificant(#[trigger] t[j])
    &&& classify(t[0]) != Symbol::Newline && classify(t[0]) != Symbol::Space
    &&& forall|j: int|
        #[trigger] newline_at(t, j) ==> j == t.len() - 1 || (classify(t[j + 1]) != Symbol::Newline
            && classify(t[j + 1]) != Symbol::Space)
}

/// The flattened text of a concatenated line list, read from the second
/// part, is the flattened text of that part alone.
proof fn lemma_flatten_shift(t: Seq<char>, a: Seq<(int, int)>, b: Seq<(int, int)>, k: int)
    requires
        0 <= k,
    ensures
        crate::model::flatten_from(t, a + b, a.len() + k) == crate::model::flatten_from(t, b, k),
    decreases b.len() - k,
{
    if k < b.len() {
        assert((a + b)[a.len() + k] == b[k]);
        lemma_flatten_shift(t, a, b, k + 1);
    }
}

/// In plain text, every line from a plainly opening position on is
/// paragraph-typed, strips to its own start, and lies inside the buffer.
proof fn lemma_plain_tail_lines(t: Seq<char>, i: int)
    requires
        plain_text(t),
        0 <= i < t.len(),
        classify(t[i]) != Symbol::Newline,
        classify(t[i]) != Symbol::Space,
    ensures
        split_lines_from(t, i).len() >= 1,
        forall|k: int|
            0 <= k < split_lines_from(t, i).len() ==> i <= (#[trigger] split_lines_from(t, i)[k]).0
                < split_lines_from(t, i)[k].1 <= t.len() && line_type(
                t,
                split_lines_from(t, i)[k].0,
                split_lines_from(t, i)[k].1,
            ) == LineType::Paragraph && strip_from(
                t,
                split_lines_from(t, i)[k].0,
                split_lines_from(t, i)[k].1,
            ) == split_lines_from(t, i)[k].0,
    decreases t.len() - i,
{
    let n = t.len() as int;
    let e = crate::model::find_sym_in(t, Symbol::Newline, i, n);
    crate::model::lemma_find_sym_in(t, Symbol::Newline, i, n);
    assert(plain_opening(t, i));
    lemma_plain_line_type(t, i, e);
    let sl = split_lines_from(t, i);
    if e < n && e < n - 1 {
        assert(newline_at(t, e));
        assert(classify(t[e + 1]) != Symbol::Newline && classify(t[e + 1]) != Symbol::Space);
        lemma_plain_tail_lines(t, e + 1);
        let rest = split_lines_from(t, e + 1);
        assert(sl == seq![(i, e)] + rest);
        assert forall|k: int| 0 <= k < sl.len() implies i <= (#[trigger] sl[k]).0 < sl[k].1
            <= t.len() && line_type(t, sl[k].0, sl[k].1) == LineType::Paragraph && strip_from(
            t,
            sl[k].0,
            sl[k].1,
        ) == sl[k].0 by {
            if k > 0 {
                assert(sl[k] == rest[k - 1]);
            }
        }
    } else if e < n {
        assert(split_lines_from(t, e + 1) == Seq::<(int, int)>::empty());
        assert(sl =~= seq![(i, e)]);
    }
}

/// In plain text, the lines from a plainly opening position flatten
/// back to exactly the text from that position on.
proof fn lemma_plain_tail_flatten(t: Seq<char>, i: int)
    requires
        plain_text(t),
        0 <= i < t.len(),
        classify(t[i]) != Symbol::Newline,
        classify(t[i]) != Symbol::Space,
    ensures
        crate::model::flatten_from(t, split_lines_from(t, i), 0) == t.subrange(
            i,
            t.len() as int,
        ),
    decreases t.len() - i,
{
    let n = t.len() as int;
    let e = crate::model::find_sym_in(t, Symbol::Newline, i, n);
    crate::model::lemma_find_sym_in(t, Symbol::Newline, i, n);
    let sl = split_lines_from(t, i);
    if e >= n {
        assert(sl == seq![(i, e)]);
        assert(crate::model::flatten_from(t, sl, 1) == Seq::<char>::empty());
        assert(crate::model::line_text(t, (i, e)) == t.subrange(i, n));
        assert(crate::model::flatten_from(t, sl, 0) =~= t.subrange(i, n));
    } else if e == n - 1 {
        assert(sl == seq![(i, e)] + split_lines_from(t, e + 1));
        assert(split_lines_from(t, e + 1) == Seq::<(int, int)>::empty());
        assert(sl =~= seq![(i, e)]);
        assert(crate::model::flatten_from(t, sl, 1) == Seq::<char>::empty());
        assert(crate::model::line_text(t, (i, e)) == t.subrange(i, e + 1));
        assert(crate::model::flatten_from(t, sl, 0) =~= t.subrange(i, n));
    } else {
        assert(newline_at(t, e));
        assert(classify(t[e + 1]) != Symbol::Newline && classify(t[e + 1]) != Symbol::Space);
        lemma_plain_tail_flatten(t, e + 1);
        let rest = split_lines_from(t, e + 1);
        assert(sl == seq![(i, e)] + rest);
        lemma_flatten_shift(t, seq![(i, e)], rest, 0);
        assert(crate::model::flatten_from(t, sl, 1) == crate::model::flatten_from(t, rest, 0));
        assert(crate::model::line_text(t, (i, e)) == t.subrange(i, e + 1));
        assert(crate::model::flatten_from(t, sl, 0) == t.subrange(i, e + 1) + t.subrange(
            e + 1,
            n,
        ));
        assert(t.subrange(i, e + 1) + t.subrange(e + 1, n) =~= t.subrange(i, n));
    }
}

/// Folding paragraph-typed lines that strip to themselves into an open
/// paragraph block accumulates them all into that one block.
proof fn lemma_paragraph_accumulate(
    t: Seq<char>,
    dl: Seq<(int, int)>,
    k: int,
    cur: Seq<(int, int)>,
)
    requires
        0 <= k <= dl.len(),
        cur.len() >= 1,
        forall|j: int|
            k <= j < dl.len() ==> line_type(t, (#[trigger] dl[j]).0, dl[j].1)
                == LineType::Paragraph && strip_from(t, dl[j].0, dl[j].1) == dl[j].0,
    ensures
        segment(t, dl, k, LineType::Paragraph, cur) == seq![
            (LineType::Paragraph, cur + dl.subrange(k, dl.len() as int)),
        ],
    decreases dl.len() - k,
{
    if k >= dl.len() {
        assert(cur + dl.subrange(k, dl.len() as int) =~= cur);
        assert(segment(t, dl, k, LineType::Paragraph, cur) =~~= seq![
            (LineType::Paragraph, cur + dl.subrange(k, dl.len() as int)),
        ]);
    } else {
        let sp = dl[k];
        assert(line_type(t, sp.0, sp.1) == LineType::Paragraph);
        lemma_paragraph_accumulate(t, dl, k + 1, cur.push(sp));
        assert(segment(t, dl, k, LineType::Paragraph, cur) == segment(
            t,
            dl,
            k + 1,
            LineType::Paragraph,
            cur.push(sp),
        ));
        assert(cur.push(sp) + dl.subrange(k + 1, dl.len() as int) =~= cur + dl.subrange(
            k,
            dl.len() as int,
        ));
        assert(seq![(LineType::Paragraph, cur.push(sp) + dl.subrange(k + 1, dl.len() as int))]
            =~~= seq![(LineType::Paragraph, cur + dl.subrange(k, dl.len() as int))]);
    }
}

/// Plain text forms exactly one paragraph block holding all its lines.
proof fn lemma_plain_blocks(t: Seq<char>)
    requires
        plain_text(t),
    ensures
        blocks(t) == seq![(LineType::Paragraph, doc_lines(t))],
        doc_lines(t).len() >= 1,
        forall|k: int|
            0 <= k < doc_lines(t).len() ==> 0 <= (#[trigger] doc_lines(t)[k]).0
                < doc_lines(t)[k].1 <= t.len(),
{
    lemma_plain_tail_lines(t, 0);
    let dl = doc_lines(t);
    lemma_paragraph_accumulate(t, dl, 1, seq![dl[0]]);
    assert(line_type(t, dl[0].0, dl[0].1) == LineType::Paragraph);
    assert(strip_from(t, dl[0].0, dl[0].1) == dl[0].0);
    assert(segment(t, dl, 0, LineType::Null, Seq::empty()) == segment(
        t,
        dl,
        1,
        LineType::Paragraph,
        seq![dl[0]],
    ));
    assert(seq![dl[0]] + dl.subrange(1, dl.len() as int) =~= dl);
    assert(blocks(t) =~~= seq![(LineType::Paragraph, dl)]);
}

/// For input text holding no markdown-significant characters — over any
/// number of lines, with no blank line and no leading whitespace on any
/// line — the conversion is exactly the input wrapped in one paragraph
/// tag pair. (The soft line-break rule has nothing left to drop: the
/// conditions leave no whitespace after a newline.)
pub proof fn lemma_plain_text_paragraph(t: Seq<char>)
    requires
        plain_text(t),
    ensures
        spec_convert(t) == "<p>"@ + t + "</p>"@,
{
    let n = t.len() as int;
    lemma_plain_blocks(t);
    let dl = doc_lines(t);
    assert(spec_convert(t) == crate::model::render_block(t, blocks(t)[0])
        + crate::model::render_blocks_from(t, blocks(t), 1));
    assert(crate::model::render_blocks_from(t, blocks(t), 1) == Seq::<char>::empty());
    assert(blocks(t)[0] == (LineType::Paragraph, dl));
    if dl.len() >= 2 {
        assert(classify(t[dl[1].0]) != Symbol::EqualsSign && classify(t[dl[1].0])
            != Symbol::Hyphen);
    }
    assert(crate::model::setext_kind(t, dl) == 0);
    lemma_plain_tail_flatten(t, 0);
    let f = crate::model::flatten_from(t, dl, 0);
    assert(f == t.subrange(0, n));
    assert(f =~= t);
    assert(classify(f[0]) != Symbol::LessThan);
    lemma_inline_literal(f, 0, n);
    assert(t.subrange(0, n) =~= t);
    assert(crate::model::render_paragraph(t, dl) == "<p>"@ + inline_between(f, 0, f.len() as int)
        + "</p>"@);
    assert(spec_convert(t) =~= "<p>"@ + t + "</p>"@);
}

/// Capping of long asterisk runs: a run of more than three asterisks
/// around a plain word yields the excess above three literally, then a
/// strong-emphasis pair around the word, mirrored on the closing side.
pub proof fn lemma_asterisk_run_capping(t: Seq<char>, n: int, w: Seq<char>)
    requires
        n > 3,
        w.len() >= 1,
        forall|j: int|
            0 <= j < w.len() ==> classify(#[trigger] w[j]) != Symbol::Asterisk && classify(w[j])
                != Symbol::Code && !blank_sym(classify(w[j])),
        t == repeat_char('*', n) + w + repeat_char('*', n),
    ensures
        inline_between(t, 0, t.len() as int) == repeat_char('*', n - 3) + "<strong><em>"@ + w
            + "</em></strong>"@ + repeat_char('*', n - 3),
{
    let len = t.len() as int;
    let p = n + w.len() as int;
    assert(len == 2 * n + w.len());
    assert(forall|j: int| 0 <= j < n ==> t[j] == '*');
    assert(forall|j: int| n <= j < p ==> t[j] == w[j - n]);
    assert(forall|j: int| p <= j < len ==> t[j] == '*');
    assert(classify('*') == Symbol::Asterisk);
    assert(forall|j: int|
        n <= j < p ==> classify(#[trigger] t[j]) != Symbol::Asterisk && classify(t[j])
            != Symbol::Code && !blank_sym(classify(t[j])));
    // the opening run has length exactly n
    lemma_run_in_exact(t, Symbol::Asterisk, 0, len, n);
    assert(run_in(t, Symbol::Asterisk, 0, len) == n);
    // the character after the run is a word character, so the run opens
    assert(!crate::model::blank_in(t, n, len));
    // the first place three asterisks stand together is the closing run
    assert(crate::model::marker_at(t, Symbol::Asterisk, 3, p, len));
    assert forall|q: int| n <= q < p implies !crate::model::marker_at(
        t,
        Symbol::Asterisk,
        3,
        q,
        len,
    ) by {
        if q + 3 <= len {
            assert(classify(t[q]) != Symbol::Asterisk);
        }
    }
    lemma_find_marker_exact(t, Symbol::Asterisk, 3, n, len, p);
    // the character before the closing run is a word character
    assert(!crate::model::blank_at(t, p - 1));
    assert(emphasis_match(t, 0, len) == Some(p));
    // the inner span is the word, copied through
    lemma_inline_literal(t, n, p);
    assert(t.subrange(n, p) =~= w);
    // after the closing marker, the leftover asterisks close out literally
    lemma_run_in_exact(t, Symbol::Asterisk, p + 3, len, len);
    assert(run_in(t, Symbol::Asterisk, p + 3, len) == n - 3);
    assert(classify(t[p + 3]) == Symbol::Asterisk);
    assert(!crate::model::blank_in(t, p + 3 + (n - 3), len));
    assert(find_marker(t, Symbol::Asterisk, if n - 3 > 3 {
        3int
    } else {
        n - 3
    }, len, len) is None);
    assert(emphasis_match(t, p + 3, len) is None);
    assert(inline_between(t, len, len) == Seq::<char>::empty());
    assert(inline_between(t, p + 3, len) == repeat_char('*', n - 3) + Seq::<char>::empty());
    assert(inline_between(t, 0, len) == repeat_char('*', n - 3) + em_open(3) + inline_between(
        t,
        n,
        p,
    ) + em_close(3) + inline_between(t, p + 3, len));
    assert(inline_between(t, 0, len) =~= repeat_char('*', n - 3) + "<strong><em>"@ + w
        + "</em></strong>"@ + repeat_char('*', n - 3));
}

/// Equal-length backtick fence matching: a one-backtick span closes at
/// the next lone backtick and scanning resumes right after it, never
/// consuming past the closing fence.
pub proof fn lemma_backtick_fence(t: Seq<char>, a: Seq<char>, b: Seq<char>)
    requires
        a.len() >= 1,
        forall|j: int| 0 <= j < a.len() ==> classify(#[trigger] a[j]) != Symbol::Code,
        b.len() == 0 || classify(b[0]) != Symbol::Code,
        t == seq!['`'] + a + seq!['`'] + b,
    ensures
        inline_between(t, 0, t.len() as int) == "<code>"@ + a + "</code>"@ + inline_between(
            t,
            a.len() as int + 2,
            t.len() as int,
        ),
{
    let len = t.len() as int;
    let p: int = a.len() as int + 1;
    assert(len == a.len() + 2 + b.len());
    assert(t[0] == '`');
    assert(forall|j: int| 1 <= j < p ==> t[j] == a[j - 1]);
    assert(t[p] == '`');
    assert(forall|j: int| p + 1 <= j < len ==> t[j] == b[j - p - 1]);
    assert(classify('`') == Symbol::Code);
    assert(forall|j: int| 1 <= j < p ==> classify(#[trigger] t[j]) != Symbol::Code);
    // the opening run is a single backtick
    lemma_run_in_exact(t, Symbol::Code, 0, len, 1);
    assert(run_in(t, Symbol::Code, 0, len) == 1);
    // the closing run is the next backtick, and is a single one as well
    if p + 1 < len {
        assert(t[p + 1] == b[0]);
        assert(classify(t[p + 1]) != Symbol::Code);
    }
    lemma_run_in_exact(t, Symbol::Code, p, len, p + 1);
    assert(run_in(t, Symbol::Code, p, len) == 1);
    lemma_find_code_close_exact(t, 1, 1, len, p);
    assert(find_code_close(t, 1, 1, len) == Some(p));
    assert(crate::model::code_frag(t, 0, len) == "<code>"@ + t.subrange(1, p) + "</code>"@);
    assert(crate::model::code_next(t, 0, len) == p + 1);
    assert(t.subrange(1, p) =~= a);
    assert(inline_between(t, 0, len) == crate::model::code_frag(t, 0, len) + inline_between(
        t,
        p + 1,
        len,
    ));
}

/// Delimiter-run capping in arbitrary context: wherever an asterisk run
/// of more than three stands with an accepted closing marker ahead, the
/// scanner emits the excess above three literally, wraps the
/// recursively scanned inner span in the strong-emphasis pair, and
/// resumes right after the three-character closing marker — whatever
/// text surrounds the run.
pub proof fn lemma_asterisk_capping_in_context(f: Seq<char>, lo: int, hi: int)
    requires
        0 <= lo < hi <= f.len(),
        classify(f[lo]) == Symbol::Asterisk,
        run_in(f, Symbol::Asterisk, lo, hi) > 3,
        emphasis_match(f, lo, hi) is Some,
    ensures
        ({
            let n = run_in(f, Symbol::Asterisk, lo, hi);
            let p = emphasis_match(f, lo, hi)->Some_0;
            inline_between(f, lo, hi) == repeat_char('*', n - 3) + "<strong><em>"@
                + inline_between(f, lo + n, p) + "</em></strong>"@ + inline_between(f, p + 3, hi)
        }),
{
    crate::model::lemma_inline_unfold_emphasis(f, lo, hi);
}

/// The run-capping law end to end: a document that is one over-long
/// asterisk run around a word converts to a paragraph holding the
/// excess asterisks literally around the strong-emphasis span.
pub proof fn lemma_asterisk_run_capping_convert(t: Seq<char>, n: int, w: Seq<char>)
    requires
        n > 3,
        w.len() >= 1,
        forall|j: int|
            0 <= j < w.len() ==> classify(#[trigger] w[j]) != Symbol::Asterisk && classify(w[j])
                != Symbol::Code && !blank_sym(classify(w[j])),
        t == repeat_char('*', n) + w + repeat_char('*', n),
    ensures
        spec_convert(t) == "<p>"@ + (repeat_char('*', n - 3) + "<strong><em>"@ + w
            + "</em></strong>"@ + repeat_char('*', n - 3)) + "</p>"@,
{
    let len = t.len() as int;
    assert(classify('*') == Symbol::Asterisk);
    assert(forall|j: int| 0 <= j < n ==> t[j] == '*');
    assert(forall|j: int| n <= j < n + w.len() ==> t[j] == w[j - n]);
    assert(forall|j: int| n + w.len() <= j < len ==> t[j] == '*');
    assert(forall|j: int| 0 <= j < len ==> classify(#[trigger] t[j]) != Symbol::Newline);
    assert(plain_opening(t, 0));
    lemma_single_paragraph_render(t);
    lemma_asterisk_run_capping(t, n, w);
}

/// The fence law end to end: a document that is a one-backtick code
/// span followed by plain text converts to a paragraph holding the code
/// span and then that text, scanning never having consumed past the
/// closing fence.
pub proof fn lemma_backtick_fence_convert(t: Seq<char>, a: Seq<char>, b: Seq<char>)
    requires
        a.len() >= 1,
        forall|j: int|
            0 <= j < a.len() ==> classify(#[trigger] a[j]) != Symbol::Code && classify(a[j])
                != Symbol::Newline,
        forall|j: int|
            0 <= j < b.len() ==> classify(#[trigger] b[j]) != Symbol::Code && classify(b[j])
                != Symbol::Newline && classify(b[j]) != Symbol::Asterisk,
        t == seq!['`'] + a + seq!['`'] + b,
    ensures
        spec_convert(t) == "<p>"@ + ("<code>"@ + a + "</code>"@) + b + "</p>"@,
{
    let len = t.len() as int;
    let p: int = a.len() as int + 1;
    assert(classify('`') == Symbol::Code);
    assert(t[0] == '`');
    assert(forall|j: int| 1 <= j < p ==> t[j] == a[j - 1]);
    assert(t[p] == '`');
    assert(forall|j: int| p + 1 <= j < len ==> t[j] == b[j - p - 1]);
    assert(forall|j: int| 0 <= j < len ==> classify(#[trigger] t[j]) != Symbol::Newline);
    assert(plain_opening(t, 0));
    lemma_single_paragraph_render(t);
    lemma_backtick_fence(t, a, b);
    lemma_inline_literal(t, p + 1, len);
    assert(t.subrange(p + 1, len) =~= b);
    assert(inline_between(t, 0, len) =~= ("<code>"@ + a + "</code>"@) + b);
    assert("<p>"@ + inline_between(t, 0, len) + "</p>"@ =~= "<p>"@ + ("<code>"@ + a + "</code>"@)
        + b + "</p>"@);
}

/// Setext promotion requires a full-width underline: a plain paragraph
/// line followed by a line that is nothing but two or more `=` renders
/// as a level-one header of exactly the first line.
pub proof fn lemma_setext_promotion(t: Seq<char>, w: Seq<char>, k: int)
    requires
        w.len() >= 1,
        k >= 2,
        forall|j: int| 0 <= j < w.len() ==> classify(#[trigger] w[j]) != Symbol::Newline,
        plain_opening(w, 0),
        classify(w[0]) != Symbol::Tab,
        t == w + seq!['\n'] + repeat_char('=', k),
    ensures
        spec_convert(t) == "<h1>"@ + w + "</h1>"@,
{
    let len = t.len() as int;
    let wl = w.len() as int;
    let s2 = wl + 1;
    assert(len == wl + 1 + k);
    assert(forall|j: int| 0 <= j < wl ==> t[j] == w[j]);
    assert(t[wl] == '\n');
    assert(forall|j: int| s2 <= j < len ==> t[j] == '=');
    assert(classify('\n') == Symbol::Newline);
    assert(classify('=') == Symbol::EqualsSign);
    assert(forall|j: int| 0 <= j < wl ==> classify(#[trigger] t[j]) == classify(w[j]));
    // the two lines
    lemma_find_sym_in_exact(t, Symbol::Newline, 0, len, wl);
    assert(split_lines_from(t, s2) == seq![(s2, len)]) by {
        lemma_find_sym_in_exact(t, Symbol::Newline, s2, len, len);
    }
    assert(doc_lines(t) == seq![(0int, wl)] + seq![(s2, len)]);
    let dl = doc_lines(t);
    assert(dl =~= seq![(0int, wl), (s2, len)]);
    assert(dl[0] == (0int, wl) && dl[1] == (s2, len) && dl.len() == 2);
    // both lines classify as paragraph text
    assert(plain_opening(t, 0));
    lemma_plain_line_type(t, 0, wl);
    assert(plain_opening(t, s2));
    lemma_plain_line_type(t, s2, len);
    // one paragraph block of the two stripped lines
    let cur1 = seq![(0int, wl)];
    let cur2 = cur1.push((s2, len));
    assert(segment(t, dl, 2, LineType::Paragraph, cur2) == seq![(LineType::Paragraph, cur2)]);
    assert(segment(t, dl, 1, LineType::Paragraph, cur1) == segment(
        t,
        dl,
        2,
        LineType::Paragraph,
        cur2,
    ));
    assert(segment(t, dl, 0, LineType::Null, Seq::empty()) == segment(
        t,
        dl,
        1,
        LineType::Paragraph,
        cur1,
    ));
    assert(blocks(t) == seq![(LineType::Paragraph, cur2)]);
    // the underline is full width, so the block promotes to a header
    lemma_run_in_exact(t, Symbol::EqualsSign, s2, len, len);
    assert(run_in(t, Symbol::EqualsSign, s2, t.len() as int) == k);
    assert(crate::model::setext_kind(t, cur2) == 1);
    assert(crate::model::render_paragraph(t, cur2) == crate::model::h_open(1) + t.subrange(0, wl)
        + crate::model::h_close(1) + Seq::<char>::empty());
    assert(t.subrange(0, wl) =~= w);
    assert(spec_convert(t) == crate::model::render_block(t, blocks(t)[0])
        + crate::model::render_blocks_from(t, blocks(t), 1));
    assert(spec_convert(t) =~= "<h1>"@ + w + "</h1>"@);
}

} // verus!
