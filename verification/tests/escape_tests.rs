//! Tests for the escaping engine and the display helpers.

use format_xml::escape::escape;
use format_xml::escape::EscapeText;
use format_xml::escape::EscapeAttrValue;
use format_xml::escape::EscapeComment;
use format_xml::escape::EscapeCharData;
use format_xml::util::join;
use format_xml::util::spaced;
use format_xml::util::csv;
use format_xml::util::spaced_comma_set;
use format_xml::util::Escape;
use format_xml::util::CommaFmt;
use format_xml::util::SpacedSet;

#[test]
fn test_comment() {
    fn check(input: &str, escaped: &str) {
        let mut writer = EscapeComment { inner: String::new() };
        writer.write_str(input).unwrap();
        assert_eq!(writer.inner, escaped);
    }

    check("", "");
    check(" ", " ");
    check("--", "");
    check(" --", " ");
    check("-- ", " ");
}

#[test]
fn test_cdata() {
    fn check(input: &str, escaped: &str) {
        let mut writer = EscapeCharData { inner: String::new() };
        writer.write_str(input).unwrap();
        assert_eq!(writer.inner, escaped);
    }

    check("", "");
    check(" ", " ");
    check("]]>", "]]]]><![CDATA[>");
    check(" ]]>", " ]]]]><![CDATA[>");
    check("]]> ", "]]]]><![CDATA[> ");
}

#[test]
fn test_escape() {
    fn check(input: &str, escaped: &str) {
        assert_eq!(escape(input), escaped);
    }
    check("hello", "hello");
    check("'world'", "&apos;world&apos;");
    check("pre<script>post", "pre&lt;script&gt;post");
    check("&<>\"\'", "&amp;&lt;&gt;&quot;&apos;");
    check("&a'b<c>", "&amp;a&apos;b&lt;c&gt;");
}

#[test]
fn text_writer_escapes_text_set_only() {
    fn check(input: &str, escaped: &str) {
        let mut writer = EscapeText::wrap(String::new());
        writer.write_str(input).unwrap();
        assert_eq!(writer.into_inner(), escaped);
    }
    check("", "");
    check("&", "&amp;");
    check(" &", " &amp;");
    check("& ", "&amp; ");
    check("hello", "hello");
    check("'world'", "'world'");
    check("pre<script>post", "pre&lt;script&gt;post");
    check("&<>\"\'", "&amp;&lt;&gt;\"\'");
    check("&a'b<c>", "&amp;a'b&lt;c&gt;");
}

#[test]
fn attr_writer_escapes_attr_set() {
    let mut writer = EscapeAttrValue::wrap(String::new());
    writer.write_fmt("<&>'\"").unwrap();
    assert_eq!(writer.into_inner(), "&lt;&amp;&gt;&apos;&quot;");
}

#[test]
fn escaping_is_identity_on_safe_input() {
    // No reserved character of the context: the string comes through
    // unchanged, for every context.
    let mut t = EscapeText::wrap(String::new());
    t.write_str("plain text, quotes ' \" allowed").unwrap();
    assert_eq!(t.into_inner(), "plain text, quotes ' \" allowed");

    let mut a = EscapeAttrValue::wrap(String::new());
    a.write_str("plain text; no quotes").unwrap();
    assert_eq!(a.into_inner(), "plain text; no quotes");

    let mut c = EscapeComment::wrap(String::new());
    c.write_str("a-b-c - - still fine").unwrap();
    assert_eq!(c.into_inner(), "a-b-c - - still fine");

    let mut d = EscapeCharData::wrap(String::new());
    d.write_str("]] > ] ]> fine").unwrap();
    assert_eq!(d.into_inner(), "]] > ] ]> fine");
}

#[test]
fn text_escaping_exact_entities() {
    let mut t = EscapeText::wrap(String::new());
    t.write_str("<&>").unwrap();
    assert_eq!(t.into_inner(), "&lt;&amp;&gt;");
}

#[test]
fn comment_escaping_deletes() {
    let mut c = EscapeComment::wrap(String::new());
    c.write_str("a--b").unwrap();
    assert_eq!(c.into_inner(), "ab");
    let mut c2 = EscapeComment::wrap(String::new());
    c2.write_str("--").unwrap();
    assert_eq!(c2.into_inner(), "");
    // Greedy left-to-right scan: three dashes leave one.
    let mut c3 = EscapeComment::wrap(String::new());
    c3.write_str("---").unwrap();
    assert_eq!(c3.into_inner(), "-");
}

#[test]
fn cdata_escaping_splits_section() {
    let mut d = EscapeCharData::wrap(String::new());
    d.write_str("]]>").unwrap();
    assert_eq!(d.into_inner(), "]]]]><![CDATA[>");
}

#[test]
fn join_spaced_csv() {
    let items = vec!["1".to_string(), "2".to_string(), "3".to_string(), "4".to_string()];
    assert_eq!(join("--", &items), "1--2--3--4");
    assert_eq!(spaced(&items), "1 2 3 4");
    assert_eq!(csv(&items), "1,2,3,4");
    let empty: Vec<String> = vec![];
    assert_eq!(join("--", &empty), "");
    let one = vec!["x".to_string()];
    assert_eq!(join("--", &one), "x");
}

#[test]
fn escape_comma_spaced_wrappers() {
    assert_eq!(Escape("&<>\"\'".to_string()).to_string(), "&amp;&lt;&gt;&quot;&apos;");
    assert_eq!(CommaFmt(vec!["1".to_string(), "2".to_string()]).to_string(), "1,2");
    let set = SpacedSet(vec!["a".to_string(), "b".to_string()]);
    assert_eq!(set.to_string(), "a b ");
}

#[test]
fn spaced_comma_set_groups() {
    let groups = vec![
        CommaFmt(vec!["1".to_string(), "2".to_string()]),
        CommaFmt(vec!["13".to_string(), "42".to_string()]),
        CommaFmt(vec!["-5".to_string(), "100".to_string()]),
    ];
    let set = spaced_comma_set(groups);
    assert_eq!(set.to_string(), "1,2 13,42 -5,100 ");
}
