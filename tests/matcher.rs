use pattern_matcher::matcher::{find_match_token, Matcher, MatcherToken};

#[test]
fn check_string_test() {
    let matcher_token_raw_text = MatcherToken::RawText("test");

    assert_eq!(
        matcher_token_raw_text.check_string("test123"),
        (true, "123", "test")
    );
    assert_eq!(matcher_token_raw_text.check_string("tes"), (false, "", ""));

    let matcher_token_one_of_text = MatcherToken::OneOfText(vec!["one", "two"]);

    assert_eq!(
        matcher_token_one_of_text.check_string("onea"),
        (true, "a", "one")
    );
    assert_eq!(
        matcher_token_one_of_text.check_string("twob"),
        (true, "b", "two")
    );
    assert_eq!(
        matcher_token_one_of_text.check_string("tes"),
        (false, "", "")
    );

    let matcher_token_wildcard = MatcherToken::WildCard;

    assert_eq!(matcher_token_wildcard.check_string(""), (false, "", ""));
    assert_eq!(
        matcher_token_wildcard.check_string("abc"),
        (true, "bc", "a")
    );
}

#[test]
fn create_matcher_test() {
    let match_string = "abc(d|e|f).".to_string();
    let matcher = Matcher::new(&match_string).unwrap();

    assert_eq!(
        matcher,
        Matcher {
            text: &match_string,
            tokens: vec![
                MatcherToken::RawText("abc"),
                MatcherToken::OneOfText(vec!["d", "e", "f"]),
                MatcherToken::WildCard
            ],
            most_tokens_matched: 0
        }
    );
}

#[test]
fn simple_test() {
    let match_string = "abc(d|e|f).".to_string();
    let mut matcher = Matcher::new(&match_string).unwrap();

    assert_eq!(matcher.most_tokens_matched, 0);

    {
        let candidate1 = "abcge".to_string();
        let result = matcher.match_string(&candidate1);
        assert_eq!(result, vec![(&MatcherToken::RawText("abc"), "abc"),]);
        assert_eq!(matcher.most_tokens_matched, 1);
    }

    {
        let candidate1 = "abcde".to_string();
        let result = matcher.match_string(&candidate1);
        assert_eq!(
            result,
            vec![
                (&MatcherToken::RawText("abc"), "abc"),
                (&MatcherToken::OneOfText(vec!["d", "e", "f"]), "d"),
                (&MatcherToken::WildCard, "e")
            ]
        );
        assert_eq!(matcher.most_tokens_matched, 3);
    }
}

#[test]
fn broken_matcher() {
    let match_string = "abc(d|e|f.".to_string();
    let matcher = Matcher::new(&match_string);
    assert_eq!(matcher, None);
}

#[test]
fn rematch_resets_count() {
    let mut matcher = Matcher::new("ab.").unwrap();
    let full = matcher.match_string("abz");
    assert_eq!(full.len(), 2);
    assert_eq!(matcher.most_tokens_matched, 2);
    let none = matcher.match_string("xyz");
    assert!(none.is_empty());
    assert_eq!(matcher.most_tokens_matched, 0);
    let again = matcher.match_string("abz");
    assert_eq!(again, vec![(&MatcherToken::RawText("ab"), "ab"), (&MatcherToken::WildCard, "z")]);
    assert_eq!(matcher.most_tokens_matched, 2);
}

#[test]
fn literal_stops_at_wildcard() {
    let matcher = Matcher::new("ab.cd").unwrap();
    assert_eq!(
        matcher.tokens,
        vec![
            MatcherToken::RawText("ab"),
            MatcherToken::WildCard,
            MatcherToken::RawText("cd")
        ]
    );
}

#[test]
fn literal_stops_at_nearer_delimiter() {
    let matcher = Matcher::new("x.y(p|q)").unwrap();
    assert_eq!(
        matcher.tokens,
        vec![
            MatcherToken::RawText("x"),
            MatcherToken::WildCard,
            MatcherToken::RawText("y"),
            MatcherToken::OneOfText(vec!["p", "q"])
        ]
    );
}

#[test]
fn empty_pattern_has_no_tokens() {
    let mut matcher = Matcher::new("").unwrap();
    assert!(matcher.tokens.is_empty());
    assert!(matcher.match_string("anything").is_empty());
    assert_eq!(matcher.most_tokens_matched, 0);
}

#[test]
fn group_without_bar_and_with_empty_pieces() {
    let matcher = Matcher::new("(ab)(|c|)").unwrap();
    assert_eq!(
        matcher.tokens,
        vec![
            MatcherToken::OneOfText(vec!["ab"]),
            MatcherToken::OneOfText(vec!["", "c", ""])
        ]
    );
}

#[test]
fn unclosed_group_after_closed_one() {
    assert_eq!(Matcher::new("(a)b(c"), None);
    assert_eq!(Matcher::new("("), None);
}

#[test]
fn find_match_token_reads_one_token() {
    assert_eq!(
        find_match_token("(a|b)rest"),
        (Some(MatcherToken::OneOfText(vec!["a", "b"])), "rest")
    );
    assert_eq!(find_match_token(".x"), (Some(MatcherToken::WildCard), "x"));
    assert_eq!(find_match_token("lit(x)"), (Some(MatcherToken::RawText("lit")), "(x)"));
    assert_eq!(find_match_token("(open").0, None);
    assert_eq!(find_match_token("").0, None);
}

#[test]
fn literal_needs_exact_prefix() {
    let token = MatcherToken::RawText("abc");
    assert_eq!(token.check_string("abc"), (true, "", "abc"));
    assert_eq!(token.check_string("abx"), (false, "", ""));
    assert_eq!(token.check_string("ab"), (false, "", ""));
    assert_eq!(token.check_string(""), (false, "", ""));
}

#[test]
fn alternatives_take_first_declared() {
    let token = MatcherToken::OneOfText(vec!["a", "ab"]);
    assert_eq!(token.check_string("abc"), (true, "bc", "a"));
    let token = MatcherToken::OneOfText(vec!["abcd", "ab"]);
    assert_eq!(token.check_string("abc"), (true, "c", "ab"));
    assert_eq!(token.check_string("x"), (false, "", ""));
    assert_eq!(token.check_string(""), (false, "", ""));
}

#[test]
fn wildcard_takes_one_character() {
    let token = MatcherToken::WildCard;
    assert_eq!(token.check_string("z"), (true, "", "z"));
    assert_eq!(token.check_string("éa"), (true, "a", "é"));
    assert_eq!(token.check_string("💪!"), (true, "!", "💪"));
}

#[test]
fn literal_before_multibyte_text() {
    let mut matcher = Matcher::new("é.").unwrap();
    assert_eq!(
        matcher.match_string("é💪x"),
        vec![(&MatcherToken::RawText("é"), "é"), (&MatcherToken::WildCard, "💪")]
    );
    assert_eq!(matcher.most_tokens_matched, 2);
}
