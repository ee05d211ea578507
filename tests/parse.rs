use ini_parser::{parse_ini, strip_comments, Ini, IniParser, ParseError};

fn parse(src: &str) -> Result<Ini, ParseError> {
    parse_ini(src.to_string())
}

fn value(doc: &Ini, section: &str, key: &str) -> Option<String> {
    doc.section(section).get(key).cloned()
}

fn malformed(line_number: usize, text: &str) -> ParseError {
    ParseError::MalformedLine { line_number, text: text.to_string() }
}

#[test]
fn single_section_single_key() {
    let doc = parse("[A]\nx = 1\n").unwrap();
    assert_eq!(doc.len(), 1);
    assert_eq!(doc.section("A").len(), 1);
    assert_eq!(value(&doc, "A", "x"), Some("1".to_string()));
}

#[test]
fn comment_line_between_sections() {
    let doc = parse("[A]\n;comment\n[B]\ny=2\n").unwrap();
    assert_eq!(doc.section_names(), vec!["A".to_string(), "B".to_string()]);
    assert!(doc.section("A").is_empty());
    assert_eq!(doc.section("B").len(), 1);
    assert_eq!(value(&doc, "B", "y"), Some("2".to_string()));
}

#[test]
fn pair_before_any_header_is_rejected() {
    assert_eq!(parse("x = 1\n"), Err(malformed(1, "x = 1")));
}

#[test]
fn line_without_separator_is_rejected() {
    assert_eq!(parse("[A]\nbadline\n"), Err(malformed(2, "badline")));
}

#[test]
fn repeated_section_merges_keys() {
    let doc = parse("[A]\nx=1\n[A]\ny=2\n").unwrap();
    assert_eq!(doc.len(), 1);
    assert_eq!(doc.section("A").len(), 2);
    assert_eq!(value(&doc, "A", "x"), Some("1".to_string()));
    assert_eq!(value(&doc, "A", "y"), Some("2".to_string()));
}

#[test]
fn empty_input_gives_empty_document() {
    let doc = parse("").unwrap();
    assert!(doc.is_empty());
    assert_eq!(doc.len(), 0);
}

#[test]
fn blank_and_whitespace_only_input() {
    let doc = parse("\n   \n\t\n").unwrap();
    assert!(doc.is_empty());
}

#[test]
fn missing_section_is_empty() {
    let doc = parse("[A]\nx=1\n").unwrap();
    let s = doc.section("B");
    assert!(s.is_empty());
    assert_eq!(s.get("x"), None);
    assert_eq!(doc.section("A").get("y"), None);
}

#[test]
fn later_duplicate_key_wins() {
    let doc = parse("[A]\nx=1\nx=2\n").unwrap();
    assert_eq!(doc.section("A").len(), 1);
    assert_eq!(value(&doc, "A", "x"), Some("2".to_string()));
}

#[test]
fn value_keeps_further_separators() {
    let doc = parse("[A]\nurl = a=b=c\n").unwrap();
    assert_eq!(value(&doc, "A", "url"), Some("a=b=c".to_string()));
}

#[test]
fn key_and_value_are_trimmed() {
    let doc = parse("  [ A ]  \n  key   =   some value  \n").unwrap();
    assert_eq!(doc.section_names(), vec!["A".to_string()]);
    assert_eq!(value(&doc, "A", "key"), Some("some value".to_string()));
}

#[test]
fn empty_value_is_kept() {
    let doc = parse("[A]\nk =\n").unwrap();
    assert_eq!(value(&doc, "A", "k"), Some(String::new()));
}

#[test]
fn trailing_comments_are_dropped() {
    let doc = parse("[A] ; first\nx = 1 # second\ny = 2;3\n").unwrap();
    assert_eq!(value(&doc, "A", "x"), Some("1".to_string()));
    assert_eq!(value(&doc, "A", "y"), Some("2".to_string()));
}

#[test]
fn header_inside_comment_is_not_a_header() {
    assert_eq!(parse("[A]\n[B;]\n"), Err(malformed(2, "[B")));
}

#[test]
fn unterminated_header_is_rejected() {
    assert_eq!(parse("[A]\nx=1\n[unterminated\n"), Err(malformed(3, "[unterminated")));
}

#[test]
fn unterminated_header_with_separator_is_a_pair() {
    let doc = parse("[A]\n[b = 3\n").unwrap();
    assert_eq!(value(&doc, "A", "[b"), Some("3".to_string()));
}

#[test]
fn error_reports_original_line_number() {
    let src = "; heading\n\n[A]\nx = 1\n\n  oops ; trailing\n[B]\n";
    assert_eq!(parse(src), Err(malformed(6, "oops")));
}

#[test]
fn first_error_wins() {
    assert_eq!(parse("[A]\nbad\nworse\n"), Err(malformed(2, "bad")));
}

#[test]
fn crlf_line_endings() {
    let doc = parse("[A]\r\nx = 1\r\n").unwrap();
    assert_eq!(value(&doc, "A", "x"), Some("1".to_string()));
}

#[test]
fn last_line_without_newline() {
    let doc = parse("[A]\nx = 1").unwrap();
    assert_eq!(value(&doc, "A", "x"), Some("1".to_string()));
}

#[test]
fn header_resets_current_section_whatever_came_before() {
    let doc = parse("[A]\nx=1\n[B]\ny=2\n[A]\nz=3\n").unwrap();
    assert_eq!(doc.section_names(), vec!["A".to_string(), "B".to_string()]);
    assert_eq!(value(&doc, "A", "z"), Some("3".to_string()));
    assert_eq!(value(&doc, "B", "z"), None);
}

#[test]
fn empty_header_names_a_section() {
    let doc = parse("[]\nx=1\n").unwrap();
    assert_eq!(value(&doc, "", "x"), Some("1".to_string()));
}

#[test]
fn unicode_whitespace_is_trimmed() {
    let doc = parse("\u{3000}[A]\u{00A0}\nx\u{2003}=\u{2003}1\n").unwrap();
    assert_eq!(value(&doc, "A", "x"), Some("1".to_string()));
}

#[test]
fn strip_picks_earlier_marker() {
    assert_eq!(strip_comments("a#b;c\n"), "a\n");
    assert_eq!(strip_comments("a;b#c\n"), "a\n");
    assert_eq!(strip_comments("x = 1 # c ; d"), "x = 1 \n");
}

#[test]
fn strip_trims_and_ends_every_line() {
    assert_eq!(strip_comments("  a  \n\n b"), "a\n\nb\n");
    assert_eq!(strip_comments(""), "");
    assert_eq!(strip_comments("\n"), "\n");
}

#[test]
fn strip_is_idempotent_on_clean_lines() {
    let once = strip_comments("[A];c\n  x = 1#d\n  y=2  \n\n");
    assert_eq!(once, "[A]\nx = 1\ny=2\n\n");
    assert_eq!(strip_comments(&once), once);
}

#[test]
fn parser_removes_comments_in_place() {
    let mut p = IniParser::new("[A] ;c\nx=1\n".to_string());
    p.remove_comments();
    assert_eq!(p.as_str(), "[A] \nx=1\n");
    let mut q = IniParser::new("[A]\nx=1 ; note\n".to_string());
    let doc = q.parse().unwrap();
    assert_eq!(q.as_str(), "[A]\nx=1 \n");
    assert_eq!(value(&doc, "A", "x"), Some("1".to_string()));
}

#[test]
fn render_writes_sections_in_order() {
    let doc = parse("[A]\nx=1\ny = two words\n[B]\n[C]\nk=\n").unwrap();
    assert_eq!(doc.render(), "[A]\nx = 1\ny = two words\n[B]\n[C]\nk = \n");
    assert_eq!(Ini::new().render(), "");
}

#[test]
fn render_then_parse_round_trips() {
    let doc = parse("[server]\nhost = example.org\nport = 80\n[empty]\n[paths]\nroot = /var/www\nnone =\n").unwrap();
    let again = parse(&doc.render()).unwrap();
    assert_eq!(again, doc);
}

#[test]
fn section_insert_overwrites() {
    let mut doc = parse("[A]\nx=1\n").unwrap();
    let i = doc.open_section("B".to_string());
    doc.insert_at(i, "k".to_string(), "v".to_string());
    doc.insert_at(i, "k".to_string(), "w".to_string());
    assert_eq!(value(&doc, "B", "k"), Some("w".to_string()));
    let j = doc.open_section("A".to_string());
    assert_eq!(j, 0);
    assert_eq!(doc.len(), 2);
}

#[test]
fn clone_keeps_every_section() {
    let doc = parse("[A]\nx=1\n[B]\ny=2\n").unwrap();
    let copy = doc.clone();
    assert_eq!(copy, doc);
    assert_eq!(copy.section("B").clone(), doc.section("B"));
    assert_eq!(value(&copy, "B", "y"), Some("2".to_string()));
}
