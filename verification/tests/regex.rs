//! Patterns, literal matching and regular expressions.
use sed::captures::{
    byte_match, fancy_captures, fancy_found, fancy_match, fancy_next, ByteCaptures, Captures,
    FancyCaptures, Match,
};
use sed::chunk::{IOChunk, IOChunkContent};
use sed::error::{ScriptLocation, SedError};
use sed::literal::LiteralMatcher;
use sed::matcher::{CaptureMatches, Regex, RegexEngine};
use sed::pattern::{
    has_far_reference, has_self_reference, has_too_many_repeats, needs_fancy_re, needs_re,
    remove_escapes,
};

// FANCY_RE
#[test]
fn test_needs_fancy_re_matches() {
    let should_match = [
        // Unicode classes BOL
        r"\p{L}+", // Unicode letter class
        r"\W",     // \W is Unicode-aware.
        r"\S+",    // \S is Unicode-aware.
        r"\d",     // \d includes all Unicode digits.
        // Unicode classes non-BOL
        r"x\p{L}+", // Unicode letter class
        r"x\W",     // \W is Unicode-aware.
        r"x\S+",    // \S is Unicode-aware.
        r"x\d",     // \d includes all Unicode digits.
        // .
        r".",
        r"x.",
        r"xx.",
        // Consumed \
        r"\*.",
        r"x\*.",
        // Escaped \
        r"\\.",
        r"x\\.",
        // Inline flags
        r"(?i)abc",  // Unicode case-insensitive
        r"x(?i)abc", // Unicode case-insensitive
        r"(\w+):\1", // back-reference \1
        // Non-ASCII literals
        "naïve", // Contains literal non-ASCII.
        "café",  // Contains literal non-ASCII.
    ];

    for pat in &should_match {
        assert!(needs_fancy_re(pat), "Expected NEEDS_FANCY_RE to match: {:?}", pat);
    }
}

#[test]
fn test_needs_fancy_re_does_not_match() {
    let should_not_match = [
        r"\.",     // Escaped . at BOL
        r"x\.",    // Escaped . at non BOL
        r"\[^x]",  // Escaped character class
        r"\(?i\)", // Escaped case insesitive flag
        r"\\w",    // Escaped Unicode class
        // Simple ASCII
        r"foo",
        r"foo|bar",
        r"^foo[0-9]+bar$",
    ];

    for pat in &should_not_match {
        assert!(!needs_fancy_re(pat), "Expected NEEDS_FANCY_RE to NOT match: {:?}", pat);
    }
}

// NEEDS_RE
#[test]
fn test_needs_re_matches() {
    let should_match = [
        r".",       // Single regex wildcard
        r"a+b",     // Regex +
        r"foo|bar", // Regex alternation
        r"abc?",    // Regex optional
        r"a*b",     // Regex star
        r"[abc]",   // Character class
        r"(abc)",   // Group
        r"{1,2}",   // Repetition
        r"\d",      // Class shorthand
        r"\S",      // Class shorthand
        r"\1",      // Backreference
        r"a\Pb",    // Unicode property
    ];

    for pat in &should_match {
        assert!(needs_re(pat), "Expected NEEDS_RE to match: {:?}", pat);
    }
}

#[test]
fn test_needs_re_does_not_match() {
    let should_not_match = [
        r"abc",
        r"a\.b", // Escaped dot
        r"hello world",
        r"^abc$",  // Anchors alone
        r"file\.", // Escaped dot
        r"literal123",
        r"\\", // Escaped backslash
    ];

    for pat in &should_not_match {
        assert!(!needs_re(pat), "Expected NEEDS_RE to NOT match: {:?}", pat);
    }
}

// Regex::new
#[test]
fn assert_byte_selection() {
    let re = Regex::new_unlocated(r"x*").unwrap();
    assert!(matches!(re.engine(), RegexEngine::Byte(_)));
}

#[test]
fn assert_fancy() {
    let re = Regex::new_unlocated(r"\d").unwrap();
    assert!(matches!(re.engine(), RegexEngine::Fancy(_)));
}

#[test]
fn assert_literal() {
    let re = Regex::new_unlocated(r"x\.").unwrap();
    assert!(matches!(re.engine(), RegexEngine::Literal(_)));
}

#[test]
fn handles_invalid_regex_gracefully() {
    let err = Regex::new_unlocated("(").unwrap_err().message();
    assert!(
        err.contains("unclosed group") || err.contains("error parsing"),
        "Unexpected error: {}",
        err
    );
}

// remove_escapes
#[test]
fn test_remove_escapes() {
    assert_eq!(remove_escapes("abc"), "abc");
    assert_eq!(remove_escapes(r"a\.c"), "a.c");
    assert_eq!(remove_escapes(r"\\d"), r"\d");
    assert_eq!(remove_escapes(r"\.\*\+\?"), ".*+?");
    assert_eq!(remove_escapes(r"escaped\\backslash"), r"escaped\backslash");
    assert_eq!(remove_escapes(r"trailing\\"), r"trailing\");
}

// LiteralMatcher
#[test]
fn test_literal_matcher_basic_match() {
    let matcher = LiteralMatcher::new("needle");
    assert!(matcher.is_match(b"this is a needle in a haystack"));
    assert!(!matcher.is_match(b"no match here"));
}

#[test]
fn test_literal_matcher_anchor_start_match() {
    let matcher = LiteralMatcher::new("^needle");
    assert!(matcher.is_match(b"needle in a haystack"));
    assert!(!matcher.is_match(b"no needle match here"));
    assert!(!matcher.is_match(b"no"));
}

#[test]
fn test_literal_matcher_anchor_end_match() {
    let matcher = LiteralMatcher::new("needle$");
    assert!(matcher.is_match(b"In a haystack there's a needle"));
    assert!(!matcher.is_match(b"no needle match here"));
    assert!(!matcher.is_match(b"no"));
}

#[test]
fn test_literal_matcher_anchor_begin_end_match() {
    let matcher = LiteralMatcher::new("^needle$");
    assert!(matcher.is_match(b"needle"));
    assert!(!matcher.is_match(b"no needle match"));
    assert!(!matcher.is_match(b"needle no match"));
    assert!(!matcher.is_match(b"no match needle"));
    assert!(!matcher.is_match(b"nada"));
}

#[test]
fn test_literal_matcher_utf8_match() {
    let matcher = LiteralMatcher::new("✓"); // U+2713 CHECK MARK (3 bytes)
    let haystack = "contains ✓ unicode".as_bytes();
    assert!(matcher.is_match(haystack));
    let found = matcher.find(haystack).unwrap();
    assert_eq!(found.2, "✓");
}

#[test]
fn test_literal_matcher_find_location() {
    let matcher = LiteralMatcher::new("abc");
    let haystack = b"___abc___";
    let result = matcher.find(haystack);
    assert!(result.is_some());
    let (start, end, text) = result.unwrap();
    assert_eq!((start, end), (3, 6));
    assert_eq!(text, "abc");
}

#[test]
fn test_literal_matcher_find_location_end() {
    let matcher = LiteralMatcher::new("abc$");
    let haystack = b"012abc";
    let result = matcher.find(haystack);
    assert!(result.is_some());
    let (start, end, text) = result.unwrap();
    assert_eq!((start, end), (3, 6));
    assert_eq!(text, "abc");
}

#[test]
fn test_literal_matcher_iter_multiple() {
    let matcher = LiteralMatcher::new("test");
    let haystack = b"this test is a test of test matching";
    let matches: Vec<_> = matcher.iter(haystack);
    assert_eq!(matches.len(), 3);

    let strings: Vec<_> = matches.iter().map(|(_, _, s)| *s).collect();
    assert_eq!(strings, ["test", "test", "test"]);
}

#[test]
fn test_literal_matcher_iter_begin() {
    let matcher = LiteralMatcher::new("^test");
    let haystack = b"test is a test of test matching";
    let matches: Vec<_> = matcher.iter(haystack);
    assert_eq!(matches.len(), 1);

    let strings: Vec<_> = matches.iter().map(|(_, _, s)| *s).collect();
    assert_eq!(strings, ["test"]);
}

#[test]
fn test_literal_matcher_iter_end() {
    let matcher = LiteralMatcher::new("test$");
    let haystack = b"this test is a test of test";
    let matches: Vec<_> = matcher.iter(haystack);
    assert_eq!(matches.len(), 1);

    let strings: Vec<_> = matches.iter().map(|(_, _, s)| *s).collect();
    assert_eq!(strings, ["test"]);
}

#[test]
fn test_literal_matcher_no_match() {
    let matcher = LiteralMatcher::new("missing");
    let haystack = b"nothing to see here";
    assert!(!matcher.is_match(haystack));
    assert!(matcher.find(haystack).is_none());
    assert_eq!(matcher.iter(haystack).len(), 0);
}

#[test]
fn test_literal_matcher_anchored_no_match() {
    let matcher = LiteralMatcher::new("^see$");
    let haystack = b"nothing to see here";
    assert!(!matcher.is_match(haystack));
    assert!(matcher.find(haystack).is_none());
    assert_eq!(matcher.iter(haystack).len(), 0);
}

/// All strings over the alphabet of at most the given length.
fn words(alphabet: &[char], length: usize) -> Vec<String> {
    let mut all = vec![String::new()];
    let mut last = all.clone();
    for _i in 0..length {
        let mut longer = Vec::new();
        for word in &last {
            for c in alphabet {
                longer.push(format!("{}{}", word, c));
            }
        }
        all.extend_from_slice(&longer);
        last = longer;
    }
    all
}

#[test]
fn patterns_are_told_apart_as_by_regular_expressions() {
    let unescaped = r"(^|^[^\\]|[^\\]{2}|\\.)";
    let fancy = regex::Regex::new(&format!(
        r"{}(\.|\[\^|\(\?i|\\[WwDdSsBbPp]|\\[0-9])|[^\x01-\x7f]",
        unescaped
    ))
    .unwrap();
    let needed =
        regex::Regex::new(&format!(r"{}([.?|+(\[{{*]|\\[WwDdSsPp]|\\[AzBb]|\\[0-9])", unescaped))
            .unwrap();
    let mut all = words(&['\\', '.', '[', '^', 'x', '\n', 'w'], 5);
    all.extend(words(&['\\', '(', '?', 'i', 'z', '3'], 5));
    for c in '\0'..='\u{ff}' {
        for before in ["", "x", "\\", "xx", "x\\", "\\\\", "\\x", "\\\n"] {
            all.push(format!("{}{}", before, c));
            all.push(format!("{}\\{}", before, c));
        }
    }
    for word in all {
        assert_eq!(needs_fancy_re(&word), fancy.is_match(&word), "{:?}", word);
        assert_eq!(needs_re(&word), needed.is_match(&word), "{:?}", word);
    }
}

#[test]
fn unescaping_undoes_escaping() {
    for text in ["", "abc", r"\", r"a\b", ".*", "né\n"] {
        let escaped: String = text.chars().flat_map(|c| ['\\', c]).collect();
        assert_eq!(remove_escapes(&escaped), text);
    }
    assert_eq!(remove_escapes(r"a\"), "a");
    assert_eq!(remove_escapes(r"\"), "");
    assert_eq!(remove_escapes(""), "");
    assert_eq!(remove_escapes("no escapes"), "no escapes");
}

#[test]
fn anchors_may_stand_alone() {
    let both = LiteralMatcher::new("^$");
    assert_eq!(both.find(b""), Some((0, 0, "")));
    assert_eq!(both.find(b"a"), None);
    let begin = LiteralMatcher::new("^");
    assert_eq!(begin.iter(b"abc"), vec![(0, 0, "")]);
    let end = LiteralMatcher::new("$");
    assert_eq!(end.iter(b"abc"), vec![(3, 3, "")]);
    // Anchors in between are plain characters
    assert_eq!(LiteralMatcher::new("a^b$c").find(b"xa^b$c"), Some((1, 6, "a^b$c")));
}

#[test]
fn literal_matches_do_not_overlap() {
    let matcher = LiteralMatcher::new("aa");
    assert_eq!(matcher.iter(b"aaaaa"), vec![(0, 2, "aa"), (2, 4, "aa")]);
    assert_eq!(matcher.find(b"baaa"), Some((1, 3, "aa")));
    assert_eq!(matcher.find(b"\xFFaa\xFF"), Some((1, 3, "aa")));
    let copy = matcher.clone();
    assert_eq!(copy.iter(b"aab"), vec![(0, 2, "aa")]);
}

fn mapped(content: &[u8]) -> IOChunk<'_> {
    IOChunk::from_content(IOChunkContent::MmapInput { content, full_span: content })
}

/// Where the first match in the chunk starts and ends, and its text.
fn found(re: &Regex, chunk: &IOChunk<'_>) -> Option<(usize, usize, String)> {
    re.find(chunk).unwrap().map(|m| (m.start(), m.end(), m.as_str().to_string()))
}

fn simple(e: SedError) -> (i32, String) {
    match e {
        SedError::Simple { code, message } => (code, message),
        _ => panic!("Expected a simple error"),
    }
}

#[test]
fn patterns_that_leave_nothing_to_compile() {
    for pattern in [r"a\", r"\a", "^", "$", "^$", "}", "]"] {
        let re = Regex::new_unlocated(pattern).unwrap();
        assert!(matches!(re.engine(), RegexEngine::Literal(_)), "{:?}", pattern);
        assert_eq!(re.captures_len(), 1);
    }
}

#[test]
fn engines_find_the_first_match() {
    let text = "say: abc 12 12 é";
    for (pattern, start, end) in
        [("abc", 5, 8), ("a[b-d]+", 5, 8), (r"(\d+) \1", 9, 14), ("é", 15, 17), ("^say", 0, 3), ("zz", 1, 0)]
    {
        let re = Regex::new_unlocated(pattern).unwrap();
        let expected = if start <= end {
            Some((start, end, text[start..end].to_string()))
        } else {
            None
        };
        let mut chunk = mapped(text.as_bytes());
        assert_eq!(re.is_match(&mut chunk).unwrap(), expected.is_some(), "{}", pattern);
        assert_eq!(found(&re, &chunk), expected, "{}", pattern);
        assert_eq!(found(&re.clone(), &chunk), expected, "{}", pattern);
        assert_eq!(found(&re, &IOChunk::from_str(text)), expected, "{}", pattern);
        // Group 0 is the match
        match re.captures(&chunk).unwrap() {
            Some(caps) => {
                let m = caps.get(0).unwrap().unwrap();
                assert_eq!(Some((m.start(), m.end(), m.as_str().to_string())), expected);
                assert_eq!(caps.len(), re.captures_len());
                assert!(!caps.is_empty());
                assert!(caps.get(caps.len()).unwrap().is_none());
            }
            None => assert!(expected.is_none()),
        }
    }
}

#[test]
fn groups_are_counted_from_zero() {
    for (pattern, len) in [("a", 1), ("(a)(b)?", 3), (r"(\w)(\w)?", 3), ("[a]", 1), ("é", 1)] {
        assert_eq!(Regex::new_unlocated(pattern).unwrap().captures_len(), len, "{}", pattern);
    }
}

#[test]
fn groups_that_took_no_part_are_none() {
    for pattern in ["(a)|(b)", r"(a)|(b)\B|(\d)"] {
        let re = Regex::new_unlocated(pattern).unwrap();
        let chunk = mapped(b"xa");
        let caps = re.captures(&chunk).unwrap().unwrap();
        let m = caps.get(1).unwrap().unwrap();
        assert_eq!((m.start(), m.end(), m.as_str()), (1, 2, "a"));
        assert!(caps.get(2).unwrap().is_none());
        assert!(caps.get(9).unwrap().is_none());
    }
}

/// The spans of the groups of all matches.
fn all_spans(mut it: CaptureMatches<'_>) -> Vec<Vec<Option<(usize, usize)>>> {
    let mut all = Vec::new();
    while let Some(caps) = it.next() {
        let caps = caps.unwrap();
        let mut groups = Vec::new();
        for i in 0..caps.len() {
            groups.push(caps.get(i).unwrap().map(|m| (m.start(), m.end())));
        }
        all.push(groups);
    }
    assert!(it.next().is_none());
    all
}

#[test]
fn matches_come_one_after_the_other() {
    let chunk = mapped(b"a1 b2 b3");
    let re = Regex::new_unlocated("b").unwrap();
    assert!(matches!(re.captures_iter(&chunk), Ok(CaptureMatches::Literal(_))));
    assert_eq!(
        all_spans(re.captures_iter(&chunk).unwrap()),
        vec![vec![Some((3, 4))], vec![Some((6, 7))]]
    );
    let re = Regex::new_unlocated("(b)([0-2])?").unwrap();
    assert!(matches!(re.captures_iter(&chunk), Ok(CaptureMatches::Byte(_))));
    assert_eq!(
        all_spans(re.captures_iter(&chunk).unwrap()),
        vec![
            vec![Some((3, 5)), Some((3, 4)), Some((4, 5))],
            vec![Some((6, 7)), Some((6, 7)), None]
        ]
    );
    let re = Regex::new_unlocated(r"(\w)\d").unwrap();
    assert!(matches!(re.captures_iter(&chunk), Ok(CaptureMatches::Fancy(_, _))));
    assert_eq!(
        all_spans(re.captures_iter(&chunk).unwrap()),
        vec![
            vec![Some((0, 2)), Some((0, 1))],
            vec![Some((3, 5)), Some((3, 4))],
            vec![Some((6, 8)), Some((6, 7))]
        ]
    );
}

#[test]
fn the_first_of_the_matches_is_the_first_match() {
    let chunk = mapped(b"xab ab");
    for pattern in ["ab", "(a)b*", r"(a)\w", "^ab", "q+"] {
        let re = Regex::new_unlocated(pattern).unwrap();
        let first = re.captures_iter(&chunk).unwrap().next();
        match re.captures(&chunk).unwrap() {
            Some(caps) => {
                let next = first.unwrap().unwrap();
                for i in 0..caps.len() {
                    let span = caps.get(i).unwrap().map(|m| (m.start(), m.end()));
                    assert_eq!(next.get(i).unwrap().map(|m| (m.start(), m.end())), span);
                }
            }
            None => assert!(first.is_none()),
        }
    }
}

#[test]
fn fancy_searches_need_text() {
    let re = Regex::new_unlocated(r"\w").unwrap();
    let mut chunk = mapped(b"a\xFF");
    let text = std::str::from_utf8(b"a\xFF").unwrap_err().to_string();
    assert_eq!(simple(re.is_match(&mut chunk).unwrap_err()), (2, text.clone()));
    assert_eq!(simple(re.find(&chunk).unwrap_err()), (2, text.clone()));
    assert_eq!(simple(re.captures(&chunk).err().unwrap()), (2, text.clone()));
    assert_eq!(simple(re.captures_iter(&chunk).err().unwrap()), (2, text));
}

#[test]
fn other_searches_need_no_text() {
    let mut chunk = mapped(b"a\xFFb");
    for pattern in ["b", "[b-c]"] {
        let re = Regex::new_unlocated(pattern).unwrap();
        assert!(re.is_match(&mut chunk).unwrap());
        assert_eq!(found(&re, &chunk), Some((2, 3, "b".to_string())));
    }
    // A match that is no text
    let re = Regex::new_unlocated(r"b|(?-u:\xFF)").unwrap();
    assert!(matches!(re.engine(), RegexEngine::Byte(_)));
    let text = std::str::from_utf8(b"\xFF").unwrap_err().to_string();
    assert!(re.is_match(&mut chunk).unwrap());
    assert_eq!(simple(re.find(&chunk).unwrap_err()), (2, text.clone()));
    let caps = re.captures(&chunk).unwrap().unwrap();
    assert_eq!(simple(caps.get(0).unwrap_err()), (1, text));
}

fn location() -> ScriptLocation {
    ScriptLocation { input_name: "script".to_string(), line_number: 7 }
}

fn runtime(e: SedError) -> (String, usize, String) {
    match e {
        SedError::Runtime { location, message } => (location.input_name, location.line_number, message),
        _ => panic!("Expected a runtime error"),
    }
}

#[test]
fn fancy_searches_can_be_given_up() {
    let re = Regex::new(location(), r"(?i)(a|b|ab)*(?=c)").unwrap();
    let haystack = "ab".repeat(50);
    let mut chunk = mapped(haystack.as_bytes());
    let (name, line, message) = runtime(re.is_match(&mut chunk).unwrap_err());
    assert_eq!((name.as_str(), line), ("script", 7));
    let copy = re.clone();
    assert_eq!(runtime(copy.find(&chunk).unwrap_err()), (name.clone(), line, message.clone()));
    assert_eq!(
        runtime(re.captures(&chunk).err().unwrap()),
        (name.clone(), line, message.clone())
    );
    let mut it = re.captures_iter(&chunk).unwrap();
    let e = it.next().unwrap().err().unwrap();
    assert_eq!(e.message(), format!("error retrieving RE captures: {}", message));
    assert_eq!(runtime(e).0, name);
}

#[test]
fn patterns_can_be_rejected() {
    for (pattern, message) in [
        ("(", regex::bytes::Regex::new("(").unwrap_err().to_string()),
        (r"\d(", fancy_regex::Regex::new(r"\d(").unwrap_err().to_string()),
    ] {
        match Regex::new(location(), pattern) {
            Err(SedError::Pattern { message: text }) => assert_eq!(text, message),
            _ => panic!("Expected a rejected pattern"),
        }
    }
}

#[test]
fn results_of_the_byte_engine_are_decoded() {
    let m = byte_match(b"xaby", Some((1, 3))).unwrap().unwrap();
    assert_eq!((m.start(), m.end(), m.as_str()), (1, 3, "ab"));
    assert!(byte_match(b"xaby", None).unwrap().is_none());
    assert_eq!(simple(byte_match(b"x\xFF", Some((0, 2))).unwrap_err()).0, 2);

    let caps = Captures::Byte(ByteCaptures::new(b"a\xFFb", vec![Some((0, 3)), None, Some((2, 3))]));
    assert_eq!(caps.len(), 3);
    assert!(!caps.is_empty());
    assert_eq!(simple(caps.get(0).unwrap_err()).0, 1);
    assert!(caps.get(1).unwrap().is_none());
    assert_eq!(caps.get(2).unwrap().unwrap().as_str(), "b");
    assert!(caps.get(3).unwrap().is_none());
}

#[test]
fn results_of_the_fancy_engine_are_handed_on() {
    let loc = location();
    let m = fancy_match(&loc, Ok(Some((1, 3, "ab")))).unwrap().unwrap();
    assert_eq!((m.start(), m.end(), m.as_str()), (1, 3, "ab"));
    assert!(fancy_match(&loc, Ok(None)).unwrap().is_none());
    assert_eq!(
        runtime(fancy_match(&loc, Err("why".to_string())).unwrap_err()),
        ("script".to_string(), 7, "why".to_string())
    );
    assert!(fancy_found(&loc, Ok(true)).unwrap());
    assert!(!fancy_found(&loc, Ok(false)).unwrap());
    assert_eq!(runtime(fancy_found(&loc, Err("why".to_string())).unwrap_err()).2, "why");

    let caps = fancy_captures(&loc, Ok(Some(vec![Some((0, 1, "a")), None]))).unwrap().unwrap();
    assert_eq!(caps.len(), 2);
    assert_eq!(caps.get(0).unwrap().unwrap().as_str(), "a");
    assert!(caps.get(1).unwrap().is_none());
    assert!(fancy_captures(&loc, Ok(None)).unwrap().is_none());
    assert_eq!(runtime(fancy_captures(&loc, Err("why".to_string())).err().unwrap()).2, "why");

    assert!(fancy_next(&loc, None).is_none());
    assert_eq!(fancy_next(&loc, Some(Ok(vec![None, None, None]))).unwrap().unwrap().len(), 3);
    assert_eq!(
        runtime(fancy_next(&loc, Some(Err("why".to_string()))).unwrap().err().unwrap()),
        ("script".to_string(), 7, "error retrieving RE captures: why".to_string())
    );
    assert!(Captures::Fancy(FancyCaptures::new(Vec::new())).is_empty());
}

#[test]
fn literal_captures_hold_group_zero() {
    let caps = Captures::Literal(Match::new(2, 3, "a"));
    assert_eq!(caps.len(), 1);
    assert!(!caps.is_empty());
    let m = caps.get(0).unwrap().unwrap();
    let copy = m.clone();
    assert_eq!((copy.start(), copy.end(), copy.as_str()), (2, 3, "a"));
    assert!(caps.get(1).unwrap().is_none());
}

#[test]
fn unlocated_patterns_have_no_place() {
    let loc = ScriptLocation::default();
    assert_eq!((loc.input_name.as_str(), loc.line_number), ("", 0));
    let copy = location().clone();
    assert_eq!((copy.input_name.as_str(), copy.line_number), ("script", 7));
    let re = Regex::new_unlocated(r"(?i)(a|b|ab)*(?=c)").unwrap();
    let haystack = "ab".repeat(50);
    let e = re.find(&mapped(haystack.as_bytes())).unwrap_err();
    assert_eq!(runtime(e).0, "");
}

#[test]
fn groups_can_refer_to_themselves() {
    for pattern in [
        r"(?:(a|b\1)c)*",
        r"(\1)+",
        r"(a)(b(c\2)){2}",
        r"(?:(a)(b(c\2)))*",
        r"(?<n>a|\k<n>)+",
        r"(?P<n>a|\k'n')+",
        r"(?P<n>a|(?P=n))+",
        r"(?:(?<n>a)(?<n>\k<n>))*",
        r"(a|\k<1>)+",
        r"(a|\k<-1>)+",
        r"(a(b)\k<-2>)+",
        r"((?=\1))*",
        r"(?:(?:(?<n>x(?i:y\k<n>)))?z)*",
        r"(?#()(a\1)+",
        "(?x) # (\n (a \\1) *",
        r"([)\]](\1))*",
        r"([\p{[}](\1))*",
        r"(?(1)(a\1))*",
        r"(?x-x)( a\1)+",
        r"(?x)( a\1) (?#c) {2,3}",
        r"(a\1){,3}",
        r"(a\1|b)*",
    ] {
        assert!(has_self_reference(pattern), "{}", pattern);
    }
    for pattern in [
        "",
        r"(\1)",
        r"(a|b\1)c*",
        r"(a\1)?",
        r"(a\1)?+",
        r"(?:(a\1)|b)c+",
        r"(a)\1",
        r"(\w+):\1",
        r"(a)(b\1)",
        r"((a)\2)+",
        r"(?<n>a)\k<n>",
        r"(?<n>a)(?P=n)",
        r"(?<n>(?<n>a)\k<n>)",
        r"(a)\k<-1>",
        r"(a)\k'1'",
        r"(\\1)",
        r"([\1])",
        r"\(\1",
        r"(?:\1)",
        r"(?#(\1)",
        "(?x)(a # \\1 \n)",
        r"(?:(?x) # ( )",
        r"(a(?(1)b))",
        r"(\0)",
        r"(\12)",
        "(\\99999999999999999999999)",
        r"(\k",
        r"(\k<",
        r"(\",
        "([",
        "(?",
        "(?<",
        "(?P=",
        "(?x",
        "(?#",
        ")",
    ] {
        assert!(!has_self_reference(pattern), "{}", pattern);
    }
}

#[test]
fn repetitions_can_be_too_many() {
    let most = usize::MAX.to_string();
    let half = (usize::MAX / 2 + 1).to_string();
    for pattern in [
        format!("(?i)(?:ab){{{}}}", most),
        format!("(?i)a{{{}}}b", most),
        format!("(?:a{{{}}}){{2}}", half),
        format!("(?x)(?:a{{ {} }}) {{ 2 , 3 }}", half),
        format!(r"\p{{L}}{{{}}}\d", most),
        format!("[ab]{{{},}}c", most),
        format!("(?:a{{{0}}}){{{0}}}?", 5000000000u64),
        // Braces that give no repetition
        format!(".(?:{{1){{{}}}", half),
        format!(".(?:{{1}}){{{}}}", half),
        format!(".(?:a*{{1){{{}}}", half),
        format!(".(?:a{{1,x){{{}}}", half),
        // Properties that are none
        format!(r".[\p{{[}}](?:aa){{{}}}", half),
        format!(r".\p[(?:aa){{{}}}", half),
    ] {
        assert!(has_too_many_repeats(&pattern), "{}", pattern);
    }
    for pattern in [
        "".to_string(),
        "a{3}".to_string(),
        "a{100}b{100}c{100}d{100}e{100}f{100}g{100}h{100}i{100}j{100}k{100}".to_string(),
        format!("a{{{}0}}b{{2}}", most),
        format!("a{{,{}}}b{{2}}", most),
        format!(".(?:{{){{{}}}", half),
        r"(?:\x{99999999}){1000}".to_string(),
        r"\{99999999999}{99999999999}".to_string(),
        "(((a{99}){99}){99}){99}".to_string(),
    ] {
        assert!(!has_too_many_repeats(&pattern), "{}", pattern);
    }
}

#[test]
fn fancy_matches_do_not_overlap() {
    let chunk = mapped("aab\u{e9}ab ba".as_bytes());
    for pattern in [r"(\w)\1|b", r"(?i)A*", r"\b", r"(?<=a)b|.", r"(?i)a\Kb|b\Ka"] {
        let re = Regex::new_unlocated(pattern).unwrap();
        let mut end = 0;
        for groups in all_spans(re.captures_iter(&chunk).unwrap()) {
            let (start, next_end) = groups[0].unwrap();
            assert!(end <= start && start <= next_end, "{}", pattern);
            end = next_end;
        }
    }
    // Unless the start of a match is moved in a look-behind
    let chunk = mapped(b"ba");
    let re = Regex::new_unlocated(r"(?i)b|(?<=\Kb)a").unwrap();
    assert_eq!(
        all_spans(re.captures_iter(&chunk).unwrap()),
        vec![vec![Some((0, 1))], vec![Some((0, 2))]]
    );
}

#[test]
fn matches_lie_in_the_line() {
    let text = "x\u{e9}ab12";
    let chunk = mapped(text.as_bytes());
    for pattern in ["ab", "(a)([0-9]|b)", r"(\w)(\d)?", "$", r"\b"] {
        let re = Regex::new_unlocated(pattern).unwrap();
        let m = re.find(&chunk).unwrap().unwrap();
        assert!(m.start() <= m.end() && m.end() <= text.len());
        assert_eq!(m.as_str(), &text[m.start()..m.end()]);
        let caps = re.captures(&chunk).unwrap().unwrap();
        assert_eq!(matches!(caps, Captures::Literal(_)), matches!(re.engine(), RegexEngine::Literal(_)));
        assert_eq!(matches!(caps, Captures::Byte(_)), matches!(re.engine(), RegexEngine::Byte(_)));
        for i in 0..caps.len() {
            if let Some(m) = caps.get(i).unwrap() {
                assert_eq!(m.as_str(), &text[m.start()..m.end()]);
            }
        }
    }
}

/// Search texts with each pattern that the fancy engine accepts.
fn search_all(patterns: Vec<String>) {
    let chunks = [mapped(b"acbac"), mapped(b"aabab"), mapped(b"1\\1(a)")];
    for pattern in patterns {
        if !needs_fancy_re(&pattern) || has_self_reference(&pattern) {
            continue;
        }
        if let Ok(re) = Regex::new_unlocated(&pattern) {
            for chunk in &chunks {
                if let Ok(Some(caps)) = re.captures(chunk) {
                    assert_eq!(caps.len(), re.captures_len());
                }
            }
        }
    }
}

#[test]
fn groups_that_refer_to_others_can_be_searched() {
    let inner = words(&['(', ')', 'a', '1', '\\', '|', '2'], 5);
    search_all(inner.iter().map(|word| format!("(?:(a|b{})c?)*", word)).collect());
}

#[test]
fn named_groups_can_be_searched() {
    let pieces = ["(?<n>", "(?P<m>", ")", "\\k<n>", "(?P=m)", "\\k<-1>", "a", "(", "*", "|b"];
    let mut patterns = vec![String::new()];
    let mut all = Vec::new();
    for _i in 0..5 {
        patterns = patterns
            .iter()
            .flat_map(|p| pieces.iter().map(move |piece| format!("{}{}", p, piece)))
            .filter(|p| p.matches('(').count() >= p.matches(')').count())
            .collect();
        all.extend(patterns.iter().map(|p| format!("(?i)(?:{})*", p)));
    }
    all.retain(|p| p.matches('(').count() == p.matches(')').count());
    search_all(all);
}

#[test]
fn extended_patterns_can_be_searched() {
    let pieces = ["(?x)", "(?-x)", "(?x:", "#", "\n", "(", ")", "\\1", "[", "]", "a", "(?#", "*"];
    let mut patterns = vec![String::new()];
    let mut all = Vec::new();
    for _i in 0..4 {
        patterns = patterns
            .iter()
            .flat_map(|p| pieces.iter().map(move |piece| format!("{}{}", p, piece)))
            .collect();
        all.extend(patterns.iter().map(|p| format!("(?:{}(a|b\\1))*", p)));
        all.extend(patterns.iter().map(|p| format!("(?:(a|b{}c\\1)\n)*", p)));
    }
    search_all(all);
}

#[test]
fn groups_can_be_too_far() {
    for pattern in [r".\k<5000000000>", r"(a)\k'9223372036854775807'", r"(?x)\k<4294967296> #"] {
        assert!(has_far_reference(pattern), "{}", pattern);
    }
    for pattern in [
        "",
        r"(a)\k<1>",
        r"\k<4294967295>",
        r"\k<9223372036854775808>",
        r"\k<-5000000000>",
        r"(?<5000000000>a)\k<5000000000>",
        r"(?P=5000000000)",
        r"\5000000000",
        r"\k",
    ] {
        assert!(!has_far_reference(pattern), "{}", pattern);
    }
}

#[test]
fn long_repetitions_are_compiled() {
    let pieces = ["{1", "{9}", "(?:", ")", "a", "[", "]", "\\p{", "}", "|", "*", "(?#", "\\x{41}"];
    let mut patterns = vec![String::new()];
    for _i in 0..3 {
        let longer: Vec<String> = patterns
            .iter()
            .flat_map(|p| pieces.iter().map(move |piece| format!("{}{}", p, piece)))
            .collect();
        patterns.extend(longer);
    }
    for pattern in patterns {
        for count in [usize::MAX / 2 + 1, usize::MAX / 3 + 1, usize::MAX] {
            let repeated = format!(".(?:{}){{{}}}", pattern, count);
            if !has_too_many_repeats(&repeated) {
                // Nothing as long can be compiled, but that is found out
                let _ = Regex::new_unlocated(&repeated);
            }
        }
    }
}
