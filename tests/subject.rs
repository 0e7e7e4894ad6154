use nattes::subject::{NatsError, PublishSubject, SubscribeSubject};

fn subject(text: &str) -> PublishSubject {
    PublishSubject::from_str(text).unwrap()
}

fn pattern(text: &str) -> SubscribeSubject {
    SubscribeSubject::from_str(text).unwrap()
}

#[test]
fn publish_subject_round_trips() {
    for text in ["a", "a.b.c", "", ".", "a..b.", "zebi"] {
        assert_eq!(subject(text).to_string(), text);
    }
}

#[test]
fn publish_subject_rejects_forbidden_characters() {
    for text in ["a*", "a.>", "a b", "a\0b", "*", ">"] {
        assert_eq!(
            PublishSubject::from_str(text).unwrap_err(),
            NatsError::InvalidPublishSubject
        );
    }
}

#[test]
fn publish_subject_parses_through_from_str_trait() {
    let parsed: PublishSubject = "x.y".parse().unwrap();
    assert_eq!(parsed.to_string(), "x.y");
    let refused: Result<PublishSubject, NatsError> = "x.*".parse();
    assert_eq!(refused.unwrap_err(), NatsError::InvalidPublishSubject);
}

#[test]
fn pattern_rejects_misplaced_wildcards() {
    for text in ["a*.b", "a.>.b", "a.*b", "a.>>", "b>", ">.a", "**"] {
        assert_eq!(
            SubscribeSubject::from_str(text).unwrap_err(),
            NatsError::InvalidSubscribeSubject
        );
    }
}

#[test]
fn pattern_rejects_space_and_nul() {
    for text in ["a b", "a.\0", " "] {
        assert_eq!(
            SubscribeSubject::from_str(text).unwrap_err(),
            NatsError::InvalidSubscribeSubject
        );
    }
}

#[test]
fn pattern_accepts_well_placed_wildcards() {
    for text in ["a.b", "*", ">", "a.*", "a.>", "*.*.>", "a..b"] {
        assert_eq!(pattern(text).to_string(), text);
    }
    let parsed: SubscribeSubject = "a.*.>".parse().unwrap();
    assert_eq!(parsed.to_string(), "a.*.>");
}

#[test]
fn literal_pattern_matches_its_subject() {
    for text in ["a", "a.b.c", "", "a..b", "zebi"] {
        let p = pattern(text);
        assert!(p.check_subject(&subject(text)));
        let from_subject = SubscribeSubject::from(subject(text));
        assert_eq!(from_subject.to_string(), text);
        assert!(from_subject.check_subject(&subject(text)));
    }
    assert!(!pattern("a.b").check_subject(&subject("a.c")));
    assert!(!pattern("a.b").check_subject(&subject("a.b.c")));
    assert!(!pattern("a.b").check_subject(&subject("a")));
    assert!(!pattern("zebi").check_subject(&subject("zeb")));
}

#[test]
fn star_matches_one_token() {
    let p = pattern("a.*.c");
    assert!(p.check_subject(&subject("a.b.c")));
    assert!(p.check_subject(&subject("a.anything.c")));
    assert!(p.check_subject(&subject("a..c")));
    assert!(!p.check_subject(&subject("a.b")));
    assert!(!p.check_subject(&subject("a.b.c.d")));
    assert!(!p.check_subject(&subject("x.b.c")));
    assert!(pattern("a.*").check_subject(&subject("a.c")));
    assert!(!pattern("a.*").check_subject(&subject("a")));
}

#[test]
fn tail_matches_one_or_more_tokens() {
    let p = pattern("a.>");
    assert!(p.check_subject(&subject("a.b")));
    assert!(p.check_subject(&subject("a.b.c.d")));
    assert!(!p.check_subject(&subject("a")));
    assert!(!p.check_subject(&subject("b.c")));
    assert!(pattern(">").check_subject(&subject("")));
    assert!(pattern(">").check_subject(&subject("x.y.z")));
    assert!(pattern("*.>").check_subject(&subject("q.r.s")));
    assert!(!pattern("*.>").check_subject(&subject("q")));
}
