use food_generator2::share_str::ShareStr;
use food_generator2::syntax::compiler::place::{byte_offset_of, place_in_source};
use food_generator2::syntax::compiler::parse_tokens::{
    end_spaces, parse, remove_comments, section_header, string_expr, string_trim_end,
    string_trim_start, ExprSeg, FileItem, ParseErrorKind, SectionHeader, SyntaxParser,
};

fn items(src: &str) -> Vec<FileItem> {
    match SyntaxParser::parse_file(&ShareStr::new("main.txt"), src) {
        Ok(items) => items,
        Err(e) => panic!("{:?}", e),
    }
}

fn failure(src: &str) -> (ParseErrorKind, usize) {
    match SyntaxParser::parse_file(&ShareStr::new("main.txt"), src) {
        Ok(items) => panic!("{:?}", items),
        Err(e) => {
            assert_eq!(e.file.as_str(), "main.txt");
            (e.kind, e.offset)
        }
    }
}

fn show(seg: &ExprSeg) -> String {
    match seg {
        ExprSeg::Text(t) => format!("T:{}", t.as_str()),
        ExprSeg::Use(n) => format!("U:{}", n.as_str()),
    }
}

fn shape(src: &str) -> Vec<(String, Vec<Vec<String>>)> {
    items(src)
        .iter()
        .map(|item| match item {
            FileItem::Include(path) => (format!("include {}", path.as_str()), Vec::new()),
            FileItem::Section(s) => {
                assert_eq!(s.info.file.as_str(), "main.txt");
                (
                    s.info.name.as_str(),
                    s.rules.iter().map(|r| r.iter().map(show).collect()).collect(),
                )
            }
        })
        .collect()
}

fn rules(list: &[&[&str]]) -> Vec<Vec<String>> {
    list.iter().map(|r| r.iter().map(|s| s.to_string()).collect()).collect()
}

#[test]
fn sections_and_rules() {
    let src = "[entry]\nhello {name}!\ngood bye\n\n[name]\nworld\n";
    assert_eq!(
        shape(src),
        vec![
            ("entry".to_string(), rules(&[&["T:hello ", "U:name", "T:!"], &["T:good bye"]])),
            ("name".to_string(), rules(&[&["T:world"]])),
        ]
    );
}

#[test]
fn empty_source_has_no_sections() {
    assert!(items("").is_empty());
}

#[test]
fn source_of_white_space_alone_is_refused() {
    assert_eq!(failure("\n"), (ParseErrorKind::UnexpectedText, 0));
    assert_eq!(failure("  \n\n"), (ParseErrorKind::UnexpectedText, 0));
}

#[test]
fn section_without_rules() {
    assert_eq!(shape("[entry]"), vec![("entry".to_string(), rules(&[]))]);
    assert_eq!(
        shape("[a]\n[b]\nx"),
        vec![("a".to_string(), rules(&[])), ("b".to_string(), rules(&[&["T:x"]]))]
    );
}

#[test]
fn include_header() {
    let src = "[include \"sub/food.txt\"]\n[entry]\n{food}\n";
    assert_eq!(
        shape(src),
        vec![
            ("include sub/food.txt".to_string(), rules(&[])),
            ("entry".to_string(), rules(&[&["U:food"]])),
        ]
    );
}

#[test]
fn include_without_a_path_names_a_section() {
    assert_eq!(shape("[include]\nx\n"), vec![("include".to_string(), rules(&[&["T:x"]]))]);
}

#[test]
fn include_with_a_broken_path_is_refused() {
    assert_eq!(failure("[include nothing]\n"), (ParseErrorKind::UnexpectedText, 0));
    assert_eq!(failure("[include \"a\" b]\n"), (ParseErrorKind::UnexpectedText, 0));
}

#[test]
fn comments_are_removed() {
    let src = "# leading\n[entry] # the first section\nsoup # tasty\n# a line of its own\nstew\n";
    assert_eq!(shape(src), vec![("entry".to_string(), rules(&[&["T:soup"], &["T:stew"]]))]);
}

#[test]
fn strings_shield_the_comment_sign() {
    let raw = ShareStr::new("a \"b # c\" d # e\nf");
    let clean: String = remove_comments(&raw).unwrap().into_iter().collect();
    assert_eq!(clean, "a \"b # c\" d \nf");
}

#[test]
fn comment_signs_within_a_comment() {
    let raw = ShareStr::new("x # one \" two # three\ny#");
    let clean: String = remove_comments(&raw).unwrap().into_iter().collect();
    assert_eq!(clean, "x \ny");
}

#[test]
fn broken_strings_are_refused() {
    assert_eq!(remove_comments(&ShareStr::new("ab\"cd")), Err(2));
    assert_eq!(remove_comments(&ShareStr::new("\"\"")), Err(0));
    assert_eq!(remove_comments(&ShareStr::new("x \"ab\ncd\"")), Err(2));
    assert_eq!(failure("[entry]\nsay \"hi\n"), (ParseErrorKind::BrokenString, 12));
}

#[test]
fn rules_are_trimmed_at_both_ends() {
    let src = "[entry]\nsoup   \n\u{a0}stew {x} \u{3000}\n{x}  tail\t\n";
    assert_eq!(
        shape(src),
        vec![(
            "entry".to_string(),
            rules(&[&["T:soup"], &["T:stew ", "U:x", "T:"], &["U:x", "T:  tail"]])
        )]
    );
}

#[test]
fn trimming_cuts_unicode_white_space() {
    assert_eq!(string_trim_start(&ShareStr::new(" \u{2003}\tab c ")).as_str(), "ab c ");
    assert_eq!(string_trim_end(&ShareStr::new(" ab c \u{2003}\n")).as_str(), " ab c");
    assert_eq!(string_trim_start(&ShareStr::new("   ")).as_str(), "");
    assert_eq!(string_trim_end(&ShareStr::new("   ")).as_str(), "");
    assert_eq!(string_trim_end(&ShareStr::new("")).as_str(), "");
    assert_eq!(string_trim_start(&ShareStr::new("_a")).as_str(), "_a");
}

#[test]
fn reference_names_are_identifiers() {
    assert_eq!(
        shape("[entry]\n{汤_1}{b2}\n"),
        vec![("entry".to_string(), rules(&[&["U:汤_1", "U:b2"]]))]
    );
}

#[test]
fn reference_without_a_name_is_refused() {
    assert_eq!(failure("[entry]\nab{}\n"), (ParseErrorKind::ExpectedName, 11));
    assert_eq!(failure("[entry]\n{-x}\n"), (ParseErrorKind::ExpectedName, 9));
    assert_eq!(failure("[entry]\n{"), (ParseErrorKind::ExpectedName, 9));
}

#[test]
fn reference_that_is_not_closed_is_refused() {
    assert_eq!(failure("[entry]\n{abc\n"), (ParseErrorKind::ExpectedClose, 12));
    assert_eq!(failure("[entry]\n{a b}\n"), (ParseErrorKind::ExpectedClose, 10));
}

#[test]
fn text_before_the_first_header_is_refused() {
    assert_eq!(failure("soup\n[entry]\n"), (ParseErrorKind::UnexpectedText, 0));
}

#[test]
fn header_must_end_its_line() {
    assert_eq!(failure("[entry] soup\n"), (ParseErrorKind::UnexpectedText, 0));
    assert_eq!(failure("[entry\n"), (ParseErrorKind::UnexpectedText, 0));
    assert_eq!(failure("[]\n"), (ParseErrorKind::UnexpectedText, 0));
}

#[test]
fn header_within_a_line_of_text_is_refused() {
    assert_eq!(failure("[entry]\nsoup[more]\n"), (ParseErrorKind::UnexpectedText, 8));
}

#[test]
fn header_parts() {
    let s = ShareStr::new("  \n[soup]  \n  rest");
    match section_header(&s, 0) {
        Some((SectionHeader::Inline(name), end)) => {
            assert_eq!(name.as_str(), "soup");
            assert_eq!(end, 14);
        }
        other => panic!("{:?}", other),
    }
    let s = ShareStr::new("[include \t\"a b.txt\"]");
    match section_header(&s, 0) {
        Some((SectionHeader::File(path), end)) => {
            assert_eq!(path.as_str(), "a b.txt");
            assert_eq!(end, 20);
        }
        other => panic!("{:?}", other),
    }
    assert!(section_header(&ShareStr::new("x[soup]"), 0).is_none());
}

#[test]
fn strings_and_line_ends() {
    let s = ShareStr::new("\"ab\" \"\" \"c");
    assert_eq!(string_expr(&s, 0), Some(3));
    assert_eq!(string_expr(&s, 5), None);
    assert_eq!(string_expr(&s, 8), None);
    assert_eq!(string_expr(&s, 1), None);
    let s = ShareStr::new("a \t\r\n  b  ");
    assert_eq!(end_spaces(&s, 1), Some(7));
    assert_eq!(end_spaces(&s, 5), None);
    assert_eq!(end_spaces(&s, 8), Some(10));
    assert_eq!(end_spaces(&s, 10), Some(10));
    assert_eq!(end_spaces(&s, 0), None);
}

#[test]
fn reader_asks_for_included_files_in_their_place() {
    let entry = "[first]\na\n[include \"mid.txt\"]\n[last]\nz\n";
    let mid = "[include \"deep.txt\"]\n[middle]\nm\n";
    let deep = "[deepest]\nd\n";
    let mut parser = parse(ShareStr::new("dir/entry.txt"), entry).unwrap();
    let request = parser.next_include().unwrap();
    assert_eq!(request.from.as_str(), "dir/entry.txt");
    assert_eq!(request.path.as_str(), "mid.txt");
    parser.read_file(ShareStr::new("dir/mid.txt"), mid).unwrap();
    let request = parser.next_include().unwrap();
    assert_eq!(request.from.as_str(), "dir/mid.txt");
    assert_eq!(request.path.as_str(), "deep.txt");
    parser.read_file(ShareStr::new("dir/deep.txt"), deep).unwrap();
    assert!(parser.next_include().is_none());
    let names: Vec<(String, String)> =
        parser.sections.iter().map(|s| (s.info.name.as_str(), s.info.file.as_str())).collect();
    let expected: Vec<(String, String)> = [
        ("first", "dir/entry.txt"),
        ("deepest", "dir/deep.txt"),
        ("middle", "dir/mid.txt"),
        ("last", "dir/entry.txt"),
    ]
    .iter()
    .map(|(a, b)| (a.to_string(), b.to_string()))
    .collect();
    assert_eq!(names, expected);
}

#[test]
fn reader_reports_the_file_that_is_broken() {
    let mut parser = parse(ShareStr::new("entry.txt"), "[include \"bad.txt\"]\n").unwrap();
    assert!(parser.next_include().is_some());
    let error = parser.read_file(ShareStr::new("bad.txt"), "[x]\n{oops\n").unwrap_err();
    assert_eq!(error.kind, ParseErrorKind::ExpectedClose);
    assert_eq!(error.file.as_str(), "bad.txt");
    assert_eq!(error.offset, 9);
    assert!(parse(ShareStr::new("entry.txt"), "text").is_err());
}

#[test]
fn faults_are_located_in_the_text_as_given() {
    assert_eq!(failure("[entry] # first\n{abc\n"), (ParseErrorKind::ExpectedClose, 20));
    assert_eq!(failure("# one\n# two\nsoup\n"), (ParseErrorKind::UnexpectedText, 5));
    assert_eq!(failure("[entry]\n{#x"), (ParseErrorKind::ExpectedName, 11));
    assert_eq!(failure("[entry]\n{ # x"), (ParseErrorKind::ExpectedName, 9));
}

#[test]
fn faults_are_located_by_bytes() {
    assert_eq!(failure("[entry]\n\u{e9}{abc\n"), (ParseErrorKind::ExpectedClose, 14));
    assert_eq!(failure("[entry]\n\u{4e2d}\u{1f600}{\n"), (ParseErrorKind::ExpectedName, 16));
    assert_eq!(failure("# \u{e9}\n[entry]\nsay \"hi\n"), (ParseErrorKind::BrokenString, 17));
}

#[test]
fn bytes_before_a_character() {
    let text = ShareStr::new("a\u{e9}\u{4e2d}\u{1f600}z");
    let offsets: Vec<usize> = (0..=5).map(|n| byte_offset_of(&text, n)).collect();
    assert_eq!(offsets, vec![0, 1, 3, 6, 10, 11]);
    assert_eq!(byte_offset_of(&ShareStr::new(""), 0), 0);
}

#[test]
fn places_of_the_characters_that_are_kept() {
    let raw = ShareStr::new("ab#cd\nef\"#\"g#h");
    let clean: String = remove_comments(&raw).unwrap().into_iter().collect();
    assert_eq!(clean, "ab\nef\"#\"g");
    let places: Vec<usize> = (0..=10).map(|at| place_in_source(&raw, at)).collect();
    assert_eq!(places, vec![0, 1, 5, 6, 7, 8, 9, 10, 11, 14, 14]);
    assert_eq!(place_in_source(&ShareStr::new("#x"), 0), 2);
    assert_eq!(place_in_source(&ShareStr::new(""), 3), 0);
}
