use johnmark::content::{Content, LineType};
use johnmark::convert;
use johnmark::line::Line;
use johnmark::link::LinkMetadata;
use johnmark::output::Output;
use johnmark::paragraph::Paragraph;
use johnmark::section::Section;
use johnmark::symbol::Symbol;

#[test]
fn end_to_end_scenarios() {
    assert_eq!("<h2>Header</h2>", convert("## Header"));
    assert_eq!("<h1>Header</h1>", convert("Header\n==="));
    assert_eq!("<p><strong>bold</strong></p>", convert("**bold**"));
    assert_eq!("<p><strong><em>bold</em></strong></p>", convert("***bold***"));
    assert_eq!("<p>*<strong><em>bold</em></strong>*</p>", convert("****bold****"));
    assert_eq!("<p>Some <code>*code*</code></p>", convert("Some `*code*`"));
    assert_eq!("<pre><code>Foo\n</code></pre><p>Bar</p>", convert("\tFoo\nBar"));
    assert_eq!("<blockquote><p>Quote</p></blockquote>", convert(">Quote"));
}

#[test]
fn plain_text_is_wrapped_verbatim() {
    assert_eq!("<p>just words</p>", convert("just words"));
    assert_eq!("<p>a-b=c (d) [e] 'f' \"g\" &h;</p>", convert("a-b=c (d) [e] 'f' \"g\" &h;"));
}

#[test]
fn conversion_is_repeatable() {
    let first = convert("x **y** `z`");
    let second = convert("x **y** `z`");
    assert_eq!(first, second);
}

#[test]
fn asterisk_run_capping() {
    // five stars leave two literal asterisks on each side of the span
    assert_eq!("<p>**<strong><em>bold</em></strong>**</p>", convert("*****bold*****"));
}

#[test]
fn backtick_fences_match_exact_runs() {
    // the double backtick run cannot close the single-backtick fence
    assert_eq!("<p><code>hi``lo</code></p>", convert("`hi``lo`"));
    // an unmatched trailing backtick stays literal
    assert_eq!("<p><code>hi</code>lo`</p>", convert("`hi`lo`"));
}

#[test]
fn setext_underline_must_be_full_width() {
    assert_eq!("<h1>Header</h1>", convert("Header\n=="));
    assert_eq!("<h2>Header</h2>", convert("Header\n--"));
    assert_eq!("<p>Header\n=foo=</p>", convert("Header\n=foo="));
    assert_eq!("<p>Header\n=</p>", convert("Header\n="));
}

#[test]
fn flanking_rules_for_emphasis() {
    assert_eq!("<p>* foo *</p>", convert("* foo *"));
    assert_eq!("<p>*foo</p>", convert("*foo"));
    assert_eq!("<p>*foo <em>bar</em>baz*</p>", convert("*foo *bar*baz*"));
}

#[test]
fn header_depth_clamps_at_six() {
    assert_eq!("<h1>H</h1>", convert("# H"));
    assert_eq!("<h6>H</h6>", convert("###### H"));
    assert_eq!("<h6>H</h6>", convert("####### H"));
}

#[test]
fn hash_run_without_space_is_text() {
    assert_eq!("<p>#foo</p>", convert("#foo"));
}

#[test]
fn header_with_blank_text_keeps_it() {
    assert_eq!("<h1> </h1>", convert("# "));
    assert_eq!("<h2>  </h2>", convert("##  "));
}

#[test]
fn unicode_letters_classify_alphanumeric() {
    assert_eq!(Symbol::Alphanumeric, Symbol::from_char('\u{00e9}'));
    assert_eq!(Symbol::Alphanumeric, Symbol::from_char('7'));
    assert_eq!(Symbol::Other, Symbol::from_char('$'));
    assert_eq!("<p>caf\u{00e9}</p>", convert("caf\u{00e9}"));
}

#[test]
fn empty_and_blank_inputs_render_nothing() {
    assert_eq!("", convert(""));
    assert_eq!("", convert("\n\n"));
    assert_eq!("", convert("   \n\t\n"));
}

#[test]
fn blockquote_keeps_later_lines() {
    assert_eq!("<blockquote><p>q1\n>q2</p></blockquote>", convert(">q1\n>q2"));
}

#[test]
fn inline_html_passes_through() {
    assert_eq!("<div>x</div>", convert("<div>x</div>"));
    assert_eq!("<p>< no tag</p>", convert("< no tag"));
}

#[test]
fn carriage_return_splits_lines() {
    assert_eq!("<p>a\rb</p>", convert("a\rb"));
}

#[test]
fn trailing_newline_is_kept() {
    assert_eq!("<p>foo\n</p>", convert("foo\n"));
}

#[test]
fn symbol_array_has_sentinel() {
    let symbols = Symbol::from_str("# Header.");
    assert_eq!(10, symbols.len());
    assert_eq!(Symbol::EndInput, symbols[9]);
    assert_eq!(Symbol::NumberSign, symbols[0]);
    assert_eq!(Symbol::Space, symbols[1]);
    assert_eq!(Symbol::Alphanumeric, symbols[2]);
    assert_eq!(Symbol::Other, symbols[8]);
}

#[test]
fn symbol_classes() {
    assert_eq!(Symbol::LeftBracket, Symbol::from_char('['));
    assert_eq!(Symbol::Escape, Symbol::from_char('\\'));
    assert_eq!(Symbol::Newline, Symbol::from_char('\r'));
    assert!(Symbol::from_char('&').is_char_entity());
    assert!(Symbol::from_char('<').is_char_entity());
    assert!(!Symbol::from_char('x').is_char_entity());
    assert!(Symbol::from_char(' ').is_blank());
    assert!(Symbol::from_char('\t').is_blank());
    assert!(!Symbol::from_char('q').is_blank());
}

#[test]
fn section_expansion() {
    let sections = vec![Section::new(0, 2), Section::new(5, 6)];
    assert_eq!(vec![0, 1, 2, 5, 6], Section::to_index(&sections));
    assert_eq!(vec![0, 1, 2, 5, 6], Section::slice_to_index(&sections[..]));
}

#[test]
fn support_types_hold_their_fields() {
    let line = Line::new(LineType::Header, 3, 9);
    assert_eq!(3, line.section.start);
    assert_eq!(9, line.section.end);
    let paragraph = Paragraph::new(vec![Section::new(1, 4)], LineType::Code);
    assert_eq!(1, paragraph.lines[0].start);
    let output = Output::new("abc".to_string(), 7);
    assert_eq!("abc", output.string);
    assert_eq!(7, output.offset);
    let output = Output::from_str("xyz", 2);
    assert_eq!("xyz", output.string);
}

#[test]
fn link_metadata_edge_cases() {
    // a wholly blank span has no destination
    let content = Content::from_str("   ");
    let section = Section::new(0, 3);
    assert!(LinkMetadata::from_inline(&content, &section).is_none());

    // a parenthesis pair can carry the title
    let text = "url (Title)";
    let content = Content::from_str(text);
    let section = Section::new(0, text.len());
    let metadata = LinkMetadata::from_inline(&content, &section).unwrap();
    assert_eq!("url", metadata.href);
    assert_eq!(Some("Title".to_string()), metadata.title);

    // an unterminated title is dropped
    let text = "url 'Title";
    let content = Content::from_str(text);
    let section = Section::new(0, text.len());
    let metadata = LinkMetadata::from_inline(&content, &section).unwrap();
    assert_eq!("url", metadata.href);
    assert_eq!(None, metadata.title);
}

#[test]
fn blank_line_separates_paragraphs() {
    let content = Content::from_str("a\n\nb");
    assert_eq!("<p>a\n</p><p>b</p>", content.convert());
}
