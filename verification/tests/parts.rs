use jsdoc_parts::JSDocCommentPart;
use jsdoc_parts::JSDocTagKindPart;
use jsdoc_parts::JSDocTagTypeNamePart;
use jsdoc_parts::JSDocTagTypePart;
use jsdoc_parts::Span;

fn span_of(text: &str) -> Span {
    Span::new(0, u32::try_from(text.len()).unwrap())
}

fn slice_of(text: &str, span: Span) -> &str {
    &text[span.start as usize..span.end as usize]
}

#[test]
fn comment_part_parsed() {
    for (actual, expect) in [
        ("", ""),
        ("hello  ", "hello"),
        ("  * single line", "* single line"),
        (" * ", "*"),
        (" * * ", "* *"),
        ("***", "***"),
        (
            "
      trim
    ",
            "trim",
        ),
        (
            "

    ", "",
        ),
        (
            "
                    *
                    *
                    ",
            "",
        ),
        (
            "
     * asterisk
    ",
            "asterisk",
        ),
        (
            "
     * * li
     * * li
    ",
            "* li\n* li",
        ),
        (
            "
    * list
    * list
    ",
            "list\nlist",
        ),
        (
            "
     * * 1
     ** 2
    ",
            "* 1\n* 2",
        ),
        (
            "
    1

    2

    3
                ",
            "1\n2\n3",
        ),
    ] {
        // `Span` is not used in this test
        let comment_part = JSDocCommentPart::new(actual, Span::new(0, 0));
        assert_eq!(comment_part.parsed(), expect);
    }
}

#[test]
fn comment_part_span_trimmed() {
    for (actual, expect) in [
        ("", ""),
        ("\n", ""),
        ("\n\n\n", ""),
        ("...", "..."),
        ("c1\n", "c1"),
        ("\nc2\n", "c2"),
        (" c 3\n", "c 3"),
        ("\nc4\n * ...\n ", "c4"),
        (
            "
 extra text
*
",
            "extra text",
        ),
        (
            "
 * foo
 * bar
",
            "* foo",
        ),
    ] {
        let comment_part = JSDocCommentPart::new(actual, span_of(actual));
        assert_eq!(slice_of(actual, comment_part.span_trimmed_first_line()), expect);
    }
}

#[test]
fn kind_part_parsed() {
    for (actual, expect) in [("@foo", "foo"), ("@", ""), ("@かいんど", "かいんど")] {
        // `Span` is not used in this test
        let kind_part = JSDocTagKindPart::new(actual, Span::new(0, 0));
        assert_eq!(kind_part.parsed(), expect);
    }
}

#[test]
fn type_part_parsed() {
    for (actual, expect) in [
        ("{}", ""),
        ("{-}", "-"),
        ("{string}", "string"),
        ("{ string}", "string"),
        ("{ bool  }", "bool"),
        ("{{x:1}}", "{x:1}"),
        ("{[1,2,3]}", "[1,2,3]"),
    ] {
        // `Span` is not used in this test
        let type_part = JSDocTagTypePart::new(actual, Span::new(0, 0));
        assert_eq!(type_part.parsed(), expect);
    }
}

#[test]
fn type_name_part_parsed() {
    for (actual, expect) in [
        ("foo", "foo"),
        ("Bar", "Bar"),
        ("変数", "変数"),
        ("[opt]", "opt"),
        ("[ opt2 ]", "opt2"),
        ("[def1 = [ 1 ]]", "def1"),
        (r#"[def2 = "foo bar"]"#, "def2"),
    ] {
        // `Span` is not used in this test
        let type_name_part = JSDocTagTypeNamePart::new(actual, Span::new(0, 0));
        assert_eq!(type_name_part.parsed(), expect);
    }
}

#[test]
fn comment_part_parsed_whitespace_only() {
    for actual in ["", "   ", "\t \t"] {
        let comment_part = JSDocCommentPart::new(actual, Span::new(0, 0));
        assert_eq!(comment_part.parsed(), "");
    }
}

#[test]
fn comment_part_parsed_marker_lines() {
    let comment_part = JSDocCommentPart::new("\n * foo\n * bar\n", Span::new(0, 0));
    assert_eq!(comment_part.parsed(), "foo\nbar");
    // A multi-line `"**"` line keeps its second asterisk: only one marker is
    // ever stripped per line.
    let comment_part = JSDocCommentPart::new("\n**\n*\n", Span::new(0, 0));
    assert_eq!(comment_part.parsed(), "*");
}

#[test]
fn comment_part_span_trimmed_positions() {
    // All-whitespace input: a zero-length span at the original start offset.
    for actual in ["", "\n\n\n", "  \t "] {
        let comment_part =
            JSDocCommentPart::new(actual, Span::new(7, 7 + u32::try_from(actual.len()).unwrap()));
        let trimmed = comment_part.span_trimmed_first_line();
        assert_eq!(trimmed, Span::new(7, 7));
    }
    // Nothing to trim: the span is returned unchanged.
    let comment_part = JSDocCommentPart::new("...", span_of("..."));
    assert_eq!(comment_part.span_trimmed_first_line(), Span::new(0, 3));
    // The offsets count bytes, not characters.
    let actual = " かいんど \n x";
    let comment_part = JSDocCommentPart::new(actual, span_of(actual));
    assert_eq!(slice_of(actual, comment_part.span_trimmed_first_line()), "かいんど ");
    let actual = " あ ";
    let comment_part = JSDocCommentPart::new(actual, span_of(actual));
    assert_eq!(slice_of(actual, comment_part.span_trimmed_first_line()), "あ");
}

#[test]
fn type_name_part_flags() {
    let plain = JSDocTagTypeNamePart::new("foo", Span::new(0, 0));
    assert!(!plain.optional);
    assert!(!plain.default);
    assert_eq!(plain.parsed(), "foo");

    let optional = JSDocTagTypeNamePart::new("[opt]", Span::new(0, 0));
    assert!(optional.optional);
    assert!(!optional.default);
    assert_eq!(optional.parsed(), "opt");

    let defaulted = JSDocTagTypeNamePart::new("[def=1]", Span::new(0, 0));
    assert!(defaulted.optional);
    assert!(defaulted.default);
    assert_eq!(defaulted.parsed(), "def");

    let quoted = JSDocTagTypeNamePart::new("[def2 = \"foo bar\"]", Span::new(0, 0));
    assert!(quoted.optional);
    assert!(quoted.default);
    assert_eq!(quoted.parsed(), "def2");
}

#[test]
fn parsed_is_repeatable() {
    let comment_part = JSDocCommentPart::new("\n * foo\n * bar\n", Span::new(0, 0));
    assert_eq!(comment_part.parsed(), comment_part.parsed());

    let kind_part = JSDocTagKindPart::new("@param", Span::new(0, 0));
    assert_eq!(kind_part.parsed(), kind_part.parsed());

    let type_part = JSDocTagTypePart::new("{ bool  }", Span::new(0, 0));
    assert_eq!(type_part.parsed(), type_part.parsed());

    let type_name_part = JSDocTagTypeNamePart::new("[def1 = [ 1 ]]", Span::new(0, 0));
    assert_eq!(type_name_part.parsed(), type_name_part.parsed());
}
