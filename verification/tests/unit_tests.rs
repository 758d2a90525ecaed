use template_fill::dir::{content_file_path, load, DirEntry, Directory, LoadError};
use template_fill::scan::{extract_identifier, find_markers};
use template_fill::subst::replace_all;

fn markers_of(doc: &str) -> Vec<String> {
    find_markers(&doc.as_bytes().to_vec())
        .into_iter()
        .map(|m| String::from_utf8(m).unwrap())
        .collect()
}

#[test]
fn finds_markers_in_order() {
    assert_eq!(markers_of("a {{x}} b {{yy}} c"), vec!["{{x}}", "{{yy}}"]);
}

#[test]
fn finds_adjacent_markers() {
    assert_eq!(markers_of("{{a}}{{bb}}"), vec!["{{a}}", "{{bb}}"]);
}

#[test]
fn extra_brace_before_marker_is_skipped() {
    assert_eq!(markers_of("{{{ab}}"), vec!["{{ab}}"]);
}

#[test]
fn no_markers_in_plain_text() {
    assert_eq!(markers_of("nothing here"), Vec::<String>::new());
}

#[test]
fn punctuation_stops_a_marker() {
    assert_eq!(markers_of("{{a-b}} {{a_b}} {{a b}}"), Vec::<String>::new());
}

#[test]
fn unterminated_marker_is_not_matched() {
    assert_eq!(markers_of("{{abc} {{abc"), Vec::<String>::new());
}

#[test]
fn duplicate_markers_are_reported_per_occurrence() {
    assert_eq!(markers_of("{{a}} {{a}}"), vec!["{{a}}", "{{a}}"]);
}

#[test]
fn extracts_the_identifier() {
    let id = extract_identifier(&"{{abc}}".as_bytes().to_vec());
    assert_eq!(id, b"abc".to_vec());
}

#[test]
fn builds_the_content_path() {
    let path = content_file_path(&b"sections".to_vec(), &b"bio".to_vec());
    assert_eq!(path, b"sections/bio.md".to_vec());
}

#[test]
fn load_returns_the_first_matching_text() {
    let directory = Directory {
        entries: vec![
            DirEntry { name: b"a".to_vec(), content: Ok(b"alpha".to_vec()) },
            DirEntry { name: b"b".to_vec(), content: Ok(b"beta".to_vec()) },
        ],
    };
    assert_eq!(load(&b"b".to_vec(), &directory).unwrap(), b"beta".to_vec());
}

#[test]
fn load_reports_not_found() {
    let directory = Directory { entries: vec![] };
    match load(&b"a".to_vec(), &directory) {
        Err(LoadError::NotFound) => {}
        _ => panic!("expected NotFound"),
    }
}

#[test]
fn load_reports_a_read_failure_with_its_message() {
    let directory = Directory {
        entries: vec![DirEntry { name: b"a".to_vec(), content: Err("bad bytes".to_string()) }],
    };
    match load(&b"a".to_vec(), &directory) {
        Err(LoadError::Io(message)) => assert_eq!(message, "bad bytes"),
        _ => panic!("expected an Io failure"),
    }
}

#[test]
fn replace_all_replaces_every_occurrence() {
    let got = replace_all(&b"abcabca".to_vec(), &b"bc".to_vec(), &b"X".to_vec());
    assert_eq!(got, b"aXaXa".to_vec());
}

#[test]
fn replace_all_does_not_overlap() {
    let got = replace_all(&b"aaa".to_vec(), &b"aa".to_vec(), &b"b".to_vec());
    assert_eq!(got, b"ba".to_vec());
}

#[test]
fn replace_all_does_not_rescan_the_replacement() {
    let got = replace_all(&b"ab".to_vec(), &b"ab".to_vec(), &b"abab".to_vec());
    assert_eq!(got, b"abab".to_vec());
}
