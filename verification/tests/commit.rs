use git_conventional::Commit;
use git_conventional::ErrorKind;
use git_conventional::FooterSeparator;

#[test]
fn test_valid_simple_commit() {
    let commit = Commit::parse("type(my scope): hello world").unwrap();

    assert_eq!(commit.type_().as_str(), "type");
    assert_eq!(commit.scope().unwrap().as_str(), "my scope");
    assert_eq!(commit.description(), "hello world");
}

#[test]
fn test_trailing_whitespace_without_body() {
    let commit = Commit::parse("type(my scope): hello world\n\n\n").unwrap();

    assert_eq!(commit.type_().as_str(), "type");
    assert_eq!(commit.scope().unwrap().as_str(), "my scope");
    assert_eq!(commit.description(), "hello world");
}

#[test]
fn test_trailing_1_nl() {
    let commit = Commit::parse("type: hello world\n").unwrap();

    assert_eq!(commit.type_().as_str(), "type");
    assert!(commit.scope().is_none());
    assert_eq!(commit.description(), "hello world");
}

#[test]
fn test_trailing_2_nl() {
    let commit = Commit::parse("type: hello world\n\n").unwrap();

    assert_eq!(commit.type_().as_str(), "type");
    assert!(commit.scope().is_none());
    assert_eq!(commit.description(), "hello world");
}

#[test]
fn test_trailing_3_nl() {
    let commit = Commit::parse("type: hello world\n\n\n").unwrap();

    assert_eq!(commit.type_().as_str(), "type");
    assert!(commit.scope().is_none());
    assert_eq!(commit.description(), "hello world");
}

#[test]
fn test_parenthetical_statement() {
    let commit = Commit::parse("type: hello world (#1)").unwrap();

    assert_eq!(commit.type_().as_str(), "type");
    assert!(commit.scope().is_none());
    assert_eq!(commit.description(), "hello world (#1)");
}

#[test]
fn test_issue_12_case_1() {
    let commit = Commit::parse("chore: add .hello.txt (#1)\n\n").unwrap();

    assert_eq!(commit.type_().as_str(), "chore");
    assert!(commit.scope().is_none());
    assert_eq!(commit.description(), "add .hello.txt (#1)");
}

#[test]
fn test_issue_12_case_2() {
    let commit = Commit::parse("refactor: use fewer lines (#3)\n\n").unwrap();

    assert_eq!(commit.type_().as_str(), "refactor");
    assert!(commit.scope().is_none());
    assert_eq!(commit.description(), "use fewer lines (#3)");
}

#[test]
fn test_breaking_change() {
    let commit = Commit::parse("feat!: this is a breaking change").unwrap();
    assert_eq!(commit.type_().as_str(), "feat");
    assert!(commit.breaking());
    assert_eq!(
        commit.breaking_description(),
        Some("this is a breaking change")
    );

    let commit = Commit::parse("feat: message\n\nBREAKING CHANGE: breaking change").unwrap();
    assert_eq!(commit.type_().as_str(), "feat");
    assert_eq!("breaking change", commit.footers()[0].value());
    assert!(commit.breaking());
    assert_eq!(commit.breaking_description(), Some("breaking change"));

    let commit = Commit::parse("fix: message\n\nBREAKING-CHANGE: it's broken").unwrap();
    assert_eq!(commit.type_().as_str(), "fix");
    assert_eq!("it's broken", commit.footers()[0].value());
    assert!(commit.breaking());
    assert_eq!(commit.breaking_description(), Some("it's broken"));
}

#[test]
fn test_valid_complex_commit() {
    let commit = "chore: improve changelog readability\n\n\
        Change date notation from YYYY-MM-DD to YYYY.MM.DD to make it a tiny bit\n\
        easier to parse while reading.\n\n\
        BREAKING CHANGE: Just kidding!\n";

    let commit = Commit::parse(commit).unwrap();

    assert_eq!(commit.type_().as_str(), "chore");
    assert!(commit.scope().is_none());
    assert_eq!("improve changelog readability", commit.description());
    assert_eq!(
        Some(
            "Change date notation from YYYY-MM-DD to YYYY.MM.DD to make it a tiny bit\n\
             easier to parse while reading."
        ),
        commit.body()
    );
    assert_eq!("Just kidding!", commit.footers()[0].value());
}

#[test]
fn test_missing_type() {
    let err = Commit::parse("").unwrap_err();

    assert_eq!(ErrorKind::MissingType, err.kind());
}

#[test]
fn missing_description_with_colon_only() {
    let err = Commit::parse("type:").unwrap_err();
    assert_eq!(ErrorKind::MissingDescription, err.kind());
}

#[test]
fn missing_description_with_trailing_space() {
    let err = Commit::parse("type: ").unwrap_err();
    assert_eq!(ErrorKind::MissingDescription, err.kind());
}

#[test]
fn missing_colon_after_scope() {
    let err = Commit::parse("type(scope)").unwrap_err();
    assert_eq!(ErrorKind::InvalidFormat, err.kind());
}

#[test]
fn empty_scope_block() {
    let err = Commit::parse("type(): description").unwrap_err();
    assert_eq!(ErrorKind::InvalidScope, err.kind());
}

#[test]
fn bang_marks_breaking_without_footers() {
    let commit = Commit::parse("feat!: breaking").unwrap();
    assert!(commit.breaking());
    assert!(commit.footers().is_empty());
}

#[test]
fn breaking_change_footer_sets_flag() {
    let commit = Commit::parse("feat: msg\n\nBREAKING CHANGE: oops").unwrap();
    assert!(commit.breaking());
    assert_eq!(commit.footers().len(), 1);
    assert_eq!(commit.footers()[0].token().as_str(), "BREAKING CHANGE");
    assert_eq!(commit.footers()[0].separator(), FooterSeparator::Value);
    assert_eq!(commit.footers()[0].value(), "oops");
}

#[test]
fn hash_reference_footer() {
    let commit = Commit::parse("fix: msg\n\nCloses #12").unwrap();
    assert_eq!(commit.footers().len(), 1);
    assert_eq!(commit.footers()[0].token().as_str(), "Closes");
    assert_eq!(commit.footers()[0].separator(), FooterSeparator::Ref);
    assert_eq!(commit.footers()[0].separator().as_str(), " #");
    assert_eq!(commit.footers()[0].value(), "12");
    assert!(!commit.breaking());
}

#[test]
fn case_folded_breaking_footer() {
    let commit = Commit::parse("fix: msg\n\nbreaking-change: lower case spelling").unwrap();
    assert!(commit.breaking());
    assert!(commit.footers()[0].breaking());
    assert_eq!(commit.breaking_description(), Some("lower case spelling"));

    let commit = Commit::parse("fix: msg\n\nClosing-Remark: not breaking").unwrap();
    assert!(!commit.breaking());
    assert!(!commit.footers()[0].breaking());
}

#[test]
fn reparse_summary_roundtrip() {
    let commit = Commit::parse("type(my scope): hello world").unwrap();
    let text = commit.to_text();
    assert_eq!(text, "type(my scope): hello world");
    let again = Commit::parse(&text).unwrap();
    assert_eq!(commit, again);
}

#[test]
fn reparse_full_roundtrip() {
    let commit = Commit::parse(
        "feat(ui)!: add button\n\nA body paragraph.\n\nCloses #7\nReviewed-by: Jo",
    )
    .unwrap();
    let text = commit.to_text();
    let again = Commit::parse(&text).unwrap();
    assert_eq!(commit, again);
    assert_eq!(text, "feat(ui)!: add button\n\nA body paragraph.\n\nCloses #7\n\nReviewed-by:Jo");
}

#[test]
fn reparse_footer_breaking_roundtrip() {
    let commit = Commit::parse("feat: msg\n\nBREAKING CHANGE: oops").unwrap();
    let text = commit.to_text();
    let again = Commit::parse(&text).unwrap();
    assert_eq!(commit, again);
}

#[test]
fn body_keeps_gated_footer_line() {
    let commit = Commit::parse("type: summary\n\npara one\nCo-Authored-By: X\n\npara two").unwrap();
    assert_eq!(commit.body(), Some("para one\nCo-Authored-By: X\n\npara two"));
    assert!(commit.footers().is_empty());
}

#[test]
fn footer_value_spans_lines() {
    let commit = Commit::parse("type: summary\n\nAcked-by: line one\nline two\n\nCloses #3").unwrap();
    assert_eq!(commit.footers().len(), 2);
    assert_eq!(commit.footers()[0].value(), "line one\nline two");
    assert_eq!(commit.footers()[1].token().as_str(), "Closes");
    assert_eq!(commit.footers()[1].value(), "3");
}

#[test]
fn body_of_whitespace_only_is_invalid() {
    let err = Commit::parse("type: summary\n\n \nCloses #3").unwrap_err();
    assert_eq!(ErrorKind::InvalidBody, err.kind());
}

#[test]
fn body_without_blank_line_is_invalid() {
    let err = Commit::parse("type: summary\nbody right away").unwrap_err();
    assert_eq!(ErrorKind::InvalidBody, err.kind());
}

#[test]
fn unicode_body_is_kept() {
    let commit = Commit::parse("type: summary\n\n\u{1F483}\u{1F3FD} and \u{00FC}").unwrap();
    assert_eq!(commit.body(), Some("\u{1F483}\u{1F3FD} and \u{00FC}"));
}

#[test]
fn crlf_line_endings_are_accepted() {
    let commit = Commit::parse("type: summary\r\n\r\na body").unwrap();
    assert_eq!(commit.description(), "summary");
    assert_eq!(commit.body(), Some("a body"));
}

#[test]
fn bare_carriage_return_is_invalid() {
    let err = Commit::parse("type: summary\r").unwrap_err();
    assert_eq!(ErrorKind::InvalidFormat, err.kind());
}

#[test]
fn trailing_newlines_after_footer_are_consumed() {
    let commit = Commit::parse("type: summary\n\nCloses #3\n\n").unwrap();
    assert_eq!(commit.footers().len(), 1);
    assert_eq!(commit.footers()[0].value(), "3");
}

#[test]
fn almost_breaking_phrase_stays_in_body() {
    let commit = Commit::parse("feat: msg\n\nBREAKING CHANGES: not a footer").unwrap();
    assert_eq!(commit.body(), Some("BREAKING CHANGES: not a footer"));
    assert!(commit.footers().is_empty());
    assert!(!commit.breaking());
}

#[test]
fn error_keeps_commit_text_and_kind_message() {
    let err = Commit::parse("no colon here").unwrap_err();
    assert_eq!(err.kind(), ErrorKind::MissingType);
    assert_eq!(
        err.message(),
        "Missing type in the commit summary, expected `type: description`"
    );
}
