use pam_env::env::{format_env_line, parse_env_line, DecodeError, PamEnvList, SEPARATOR};
use pam_env::release::{release_plan, ReleaseStep, ReleaseStrategy};

fn pair(name: &str, value: &str) -> (Vec<u8>, Vec<u8>) {
    (name.as_bytes().to_vec(), value.as_bytes().to_vec())
}

fn lines(items: &[&str]) -> Vec<Vec<u8>> {
    items.iter().map(|s| s.as_bytes().to_vec()).collect()
}

#[test]
fn parse_splits_name_and_value() {
    assert_eq!(parse_env_line(b"FOO=bar"), Some(pair("FOO", "bar")));
}

#[test]
fn parse_allows_empty_name() {
    assert_eq!(parse_env_line(b"=x"), Some(pair("", "x")));
}

#[test]
fn parse_allows_empty_value() {
    assert_eq!(parse_env_line(b"x="), Some(pair("x", "")));
}

#[test]
fn parse_lone_separator() {
    assert_eq!(parse_env_line(b"="), Some(pair("", "")));
}

#[test]
fn parse_empty_line_gives_nothing() {
    assert_eq!(parse_env_line(b""), None);
}

#[test]
fn parse_line_without_separator_gives_nothing() {
    assert_eq!(parse_env_line(b"BADENTRY"), None);
}

#[test]
fn parse_keeps_later_separators_in_value() {
    assert_eq!(parse_env_line(b"A=B=C"), Some(pair("A", "B=C")));
}

#[test]
fn parse_keeps_raw_bytes() {
    assert_eq!(
        parse_env_line(&[0xff, 0x3d, 0x00, 0xfe]),
        Some((vec![0xff], vec![0x00, 0xfe]))
    );
}

#[test]
fn separator_is_equals_sign() {
    assert_eq!(SEPARATOR, b'=');
}

#[test]
fn from_entries_drops_malformed_lines() {
    let list = PamEnvList::from_entries(&lines(&["FOO=bar", "BADENTRY", "BAZ=", "=weird"]));
    assert_eq!(
        list.entries(),
        &vec![pair("FOO", "bar"), pair("BAZ", ""), pair("", "weird")]
    );
    assert_eq!(list.len(), 3);
}

#[test]
fn from_entries_keeps_duplicate_names() {
    let list = PamEnvList::from_entries(&lines(&["A=1", "A=2"]));
    assert_eq!(list.entries(), &vec![pair("A", "1"), pair("A", "2")]);
}

#[test]
fn from_entries_of_nothing_is_empty() {
    let list = PamEnvList::from_entries(&Vec::new());
    assert_eq!(list.len(), 0);
}

#[test]
fn fetched_null_is_absent() {
    assert!(PamEnvList::from_fetched(None).is_none());
}

#[test]
fn fetched_empty_array_is_empty_list() {
    let list = PamEnvList::from_fetched(Some(Vec::new())).unwrap();
    assert_eq!(list.len(), 0);
}

#[test]
fn fetched_array_is_parsed() {
    let list = PamEnvList::from_fetched(Some(lines(&["FOO=bar", "BADENTRY", "BAZ=", "=weird"])))
        .unwrap();
    assert_eq!(
        list.entries(),
        &vec![pair("FOO", "bar"), pair("BAZ", ""), pair("", "weird")]
    );
}

#[test]
fn format_writes_name_separator_value() {
    assert_eq!(format_env_line(b"HOME", b"/root"), b"HOME=/root".to_vec());
    assert_eq!(format_env_line(b"", b""), b"=".to_vec());
}

#[test]
fn to_lines_writes_each_pair() {
    let list = PamEnvList::from_pairs(vec![pair("A", "1"), pair("B", "x=y")]);
    assert_eq!(list.to_lines(), lines(&["A=1", "B=x=y"]));
}

#[test]
fn round_trip_keeps_pairs_and_order() {
    let pairs = vec![pair("PATH", "/bin:/usr/bin"), pair("EMPTY", ""), pair("Z", "a=b"), pair("A", "1")];
    let list = PamEnvList::from_pairs(pairs.clone());
    let again = PamEnvList::from_entries(&list.to_lines());
    assert_eq!(again.entries(), &pairs);
}

#[test]
fn to_vec_decodes_text() {
    let list = PamEnvList::from_pairs(vec![pair("LANG", "C.UTF-8"), pair("NAME", "caf\u{e9}")]);
    assert_eq!(
        list.to_vec(),
        Ok(vec![
            ("LANG".to_string(), "C.UTF-8".to_string()),
            ("NAME".to_string(), "caf\u{e9}".to_string()),
        ])
    );
}

#[test]
fn to_vec_names_first_pair_that_is_not_text() {
    let list = PamEnvList::from_pairs(vec![
        pair("OK", "1"),
        (b"BAD".to_vec(), vec![0xff]),
        (vec![0xc3], b"x".to_vec()),
    ]);
    assert_eq!(list.to_vec(), Err(DecodeError { entry: 1 }));
}

#[test]
fn to_vec_of_empty_list() {
    let list = PamEnvList::from_entries(&Vec::new());
    assert_eq!(list.to_vec(), Ok(Vec::new()));
}

#[test]
fn release_each_then_array_frees_each_once() {
    let n = 5;
    let plan = release_plan(ReleaseStrategy::EachThenArray, n);
    assert_eq!(plan.len(), n + 1);
    for k in 0..n {
        assert_eq!(plan.iter().filter(|s| **s == ReleaseStep::Element(k)).count(), 1);
    }
    let elements = plan.iter().filter(|s| matches!(s, ReleaseStep::Element(_))).count();
    assert_eq!(elements, n);
    assert_eq!(plan.iter().filter(|s| **s == ReleaseStep::Array).count(), 1);
    assert_eq!(plan[n], ReleaseStep::Array);
}

#[test]
fn release_of_empty_array_frees_only_array() {
    assert_eq!(release_plan(ReleaseStrategy::EachThenArray, 0), vec![ReleaseStep::Array]);
}

#[test]
fn release_bulk_is_one_call() {
    assert_eq!(release_plan(ReleaseStrategy::Bulk, 4), vec![ReleaseStep::WholeList]);
}
