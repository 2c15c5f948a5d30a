//! Tests based on commonmark examples.

use johnmark::convert;

#[test]
fn blank_lines() {
    assert_eq!("<p>aaa\n</p><h1>aaa</h1>", convert("  \n\naaa\n  \n\n# aaa\n\n  "));
}

#[test]
fn inlines() {
    // http://spec.commonmark.org/0.19/#example-227
    assert_eq!("<p><code>hi</code>lo`</p>", convert("`hi`lo`"));
}

#[test]
fn textual_content() {
    // http://spec.commonmark.org/0.19/#example-546
    assert_eq!("<p>hello $.;'there</p>", convert("hello $.;'there"));

    // http://spec.commonmark.org/0.19/#example-548
    assert_eq!("<p>Multiple     spaces</p>", convert("Multiple     spaces"));
}
