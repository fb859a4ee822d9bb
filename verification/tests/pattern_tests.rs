use wordscan::pattern::find;
use wordscan::pattern::find_within;
use wordscan::pattern::parse_tofind;
use wordscan::pattern::Pattern;
use wordscan::pattern::PatternError;

#[test]
fn parse_tofind_keeps_the_bytes() {
    let t = parse_tofind("beta").unwrap();
    assert_eq!(t.value, vec![98u8, 101, 116, 97]);
}

#[test]
fn parse_tofind_marks_first_and_second_byte_only() {
    let t = parse_tofind("beta").unwrap();
    for b in 0..256usize {
        assert_eq!(t.start[b], b == b'b' as usize);
        assert_eq!(t.second[b], b == b'e' as usize);
    }
}

#[test]
fn parse_tofind_single_byte_has_no_second() {
    let t = parse_tofind("a").unwrap();
    assert!(t.start[b'a' as usize]);
    assert!(t.second.iter().all(|m| !*m));
}

#[test]
fn parse_tofind_takes_utf8_bytes() {
    let t = parse_tofind("é").unwrap();
    assert_eq!(t.value, vec![0xc3u8, 0xa9]);
    assert!(t.start[0xc3]);
    assert!(t.second[0xa9]);
}

#[test]
fn parse_tofind_refuses_the_empty_string() {
    assert!(matches!(parse_tofind(""), Err(PatternError::Empty)));
}

#[test]
fn find_is_equality_with_the_value() {
    let t = parse_tofind("beta").unwrap();
    assert!(find(&t, b"beta"));
    assert!(!find(&t, b"betas"));
    assert!(!find(&t, b"bet"));
    assert!(!find(&t, b"b"));
    assert!(!find(&t, b"aeta"));
    assert!(!find(&t, b"bxta"));
    assert!(!find(&t, b"betb"));
    assert!(!find(&t, b""));
}

#[test]
fn find_with_single_byte_value() {
    let t = parse_tofind("a").unwrap();
    assert!(find(&t, b"a"));
    assert!(!find(&t, b"ab"));
    assert!(!find(&t, b"b"));
}

#[test]
fn find_within_slides_over_the_line() {
    let t = parse_tofind("alph").unwrap();
    assert!(find_within(&t, b"alpha"));
    assert!(find_within(&t, b"xxalph"));
    assert!(find_within(&t, b"alph"));
    assert!(!find_within(&t, b"alp"));
    assert!(!find_within(&t, b"alpxh"));
    assert!(!find_within(&t, b""));
}

#[test]
fn find_within_finds_a_late_window() {
    let t = parse_tofind("ab").unwrap();
    assert!(find_within(&t, b"aaaaab"));
    assert!(!find_within(&t, b"aaaaaa"));
    assert!(!find_within(&t, b"bbbbba"));
}

#[test]
fn build_prefers_regex_over_exact() {
    assert!(matches!(Pattern::build("beta", true, true), Ok(Pattern::Regex(_))));
    assert!(matches!(Pattern::build("beta", false, true), Ok(Pattern::Regex(_))));
    assert!(matches!(Pattern::build("beta", true, false), Ok(Pattern::ExactEqual(_))));
    assert!(matches!(Pattern::build("beta", false, false), Ok(Pattern::Substring(_))));
}

#[test]
fn build_refuses_an_empty_literal() {
    assert!(matches!(Pattern::build("", true, false), Err(PatternError::Empty)));
    assert!(matches!(Pattern::build("", false, false), Err(PatternError::Empty)));
}

#[test]
fn build_reports_a_regex_that_does_not_compile() {
    assert!(matches!(Pattern::build("foo(bar", false, true), Err(PatternError::Regex(_))));
}

#[test]
fn build_does_not_compile_a_literal() {
    assert!(Pattern::build("foo(bar", false, false).is_ok());
    assert!(Pattern::build("foo(bar", true, false).is_ok());
}

#[test]
fn regex_pattern_remembers_its_source() {
    match Pattern::build("^g.*a$", false, true) {
        Ok(Pattern::Regex(re)) => assert_eq!(re.as_str(), "^g.*a$"),
        _ => panic!("a regular expression was expected"),
    }
}

#[test]
fn regex_pattern_matches_as_the_regex_does() {
    let p = Pattern::build("^g.*a$", false, true).unwrap();
    assert!(p.matches(b"gamma"));
    assert!(!p.matches(b"alpha"));
    assert!(!p.matches(b"gammas"));
    assert!(!p.matches(b"^g.*a$"));
}

#[test]
fn regex_pattern_works_on_bytes_that_are_not_text() {
    let p = Pattern::build("b.t", false, true).unwrap();
    assert!(p.matches(&[0xff, b'b', b'e', b't', 0xfe]));
    assert!(!p.matches(&[0xff, b'b', 0xfe]));
}

#[test]
fn empty_regex_matches_every_line() {
    let p = Pattern::build("", false, true).unwrap();
    assert!(p.matches(b"anything"));
    assert!(p.matches(b""));
}

#[test]
fn exact_pattern_matches_whole_lines() {
    let p = Pattern::build("alph", true, false).unwrap();
    assert!(!p.matches(b"alpha"));
    assert!(p.matches(b"alph"));
}

#[test]
fn substring_pattern_matches_inside_lines() {
    let p = Pattern::build("alph", false, false).unwrap();
    assert!(p.matches(b"alpha"));
    assert!(p.matches(b"the alphabet"));
    assert!(!p.matches(b"beta"));
}

#[test]
fn from_compiled_keeps_the_expression() {
    let re = match Pattern::build("a+", false, true) {
        Ok(Pattern::Regex(re)) => re,
        _ => panic!("a regular expression was expected"),
    };
    match Pattern::from_compiled(Ok(re)) {
        Ok(Pattern::Regex(re)) => assert_eq!(re.as_str(), "a+"),
        _ => panic!("a regular expression was expected"),
    }
}

#[test]
fn cloned_pattern_matches_the_same() {
    let p = Pattern::build("^b", false, true).unwrap();
    let q = p.clone();
    assert!(q.matches(b"beta"));
    assert!(!q.matches(b"alpha"));
}
