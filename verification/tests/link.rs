use johnmark::content::Content;
use johnmark::link::{Link, LinkMetadata};
use johnmark::section::Section;

#[test]
fn simple_link() {
    let link = Link::new("link", "http://carlcolglazier.com/", "Sample Link.");
    assert_eq!(
        "<a href=\"http://carlcolglazier.com/\" title=\"Sample Link.\">link</a>",
        link.to_string()
    );
}

#[test]
fn no_title() {
    let link = Link::new("link", "http://carlcolglazier.com/", "");
    assert_eq!("<a href=\"http://carlcolglazier.com/\">link</a>", link.to_string());
}

#[test]
fn parse_link_metadata() {
    // Just the link.
    let content_str = "http://carlcolglazier.com";
    let content = Content::from_str(content_str);
    let section = Section::new(0, content_str.len());
    let link_metadata = match LinkMetadata::from_inline(&content, &section) {
        None => panic!("Parsing error."),
        Some(m) => m,
    };
    assert_eq!(content_str, link_metadata.href);

    // Extra spaces.
    let extra_content_str = "      http://carlcolglazier.com         ";
    let content = Content::from_str(extra_content_str);
    let section = Section::new(0, extra_content_str.len());
    let link_metadata = match LinkMetadata::from_inline(&content, &section) {
        None => panic!("Parsing error."),
        Some(m) => m,
    };
    assert_eq!(content_str, link_metadata.href);

    // Include a title.
    let title_content_str = "http://carlcolglazier.com 'Title'";
    let content = Content::from_str(title_content_str);
    let section = Section::new(0, title_content_str.len());
    let link_metadata = match LinkMetadata::from_inline(&content, &section) {
        None => panic!("Parsing error."),
        Some(m) => m,
    };
    assert_eq!(content_str, link_metadata.href);
    assert_eq!(Some("Title".to_string()), link_metadata.title);
}
