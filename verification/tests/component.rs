use git_conventional::Commit;
use git_conventional::ErrorKind;
use git_conventional::FooterSeparator;
use git_conventional::FooterToken;
use git_conventional::Scope;
use git_conventional::Simple;
use git_conventional::Type;
use git_conventional::Typed;
use git_conventional::component::Footer as ComponentFooter;
use git_conventional::component::FooterSeparator as ComponentSeparator;
use git_conventional::component::SimpleFooter;

#[test]
fn type_parse_accepts_whole_tokens() {
    assert_eq!(Type::parse("feat").unwrap().as_str(), "feat");
    assert_eq!(Type::parse("foo-bar2").unwrap().as_str(), "foo-bar2");

    let err = Type::parse("").unwrap_err();
    assert_eq!(err.kind(), ErrorKind::MissingType);
    let err = Type::parse("foo bar").unwrap_err();
    assert_eq!(err.kind(), ErrorKind::InvalidFormat);
    let err = Type::parse(" feat").unwrap_err();
    assert_eq!(err.kind(), ErrorKind::MissingType);
}

#[test]
fn scope_parse_accepts_whole_scopes() {
    assert_eq!(Scope::parse("my scope").unwrap().as_str(), "my scope");
    assert_eq!(Scope::parse("x86").unwrap().as_str(), "x86");

    let err = Scope::parse("").unwrap_err();
    assert_eq!(err.kind(), ErrorKind::InvalidScope);
    let err = Scope::parse("a(b").unwrap_err();
    assert_eq!(err.kind(), ErrorKind::InvalidScope);
}

#[test]
fn footer_token_parse() {
    assert_eq!(
        FooterToken::parse("BREAKING CHANGE").unwrap().as_str(),
        "BREAKING CHANGE"
    );
    assert_eq!(FooterToken::parse("Closes").unwrap().as_str(), "Closes");

    let err = FooterToken::parse("").unwrap_err();
    assert_eq!(err.kind(), ErrorKind::MissingType);
    let err = FooterToken::parse("two words").unwrap_err();
    assert_eq!(err.kind(), ErrorKind::InvalidScope);
}

#[test]
fn footer_token_breaking_is_case_insensitive() {
    assert!(FooterToken::new_unchecked("BREAKING CHANGE").breaking());
    assert!(FooterToken::new_unchecked("breaking-change").breaking());
    assert!(FooterToken::new_unchecked("BrEaKiNg-ChAnGe").breaking());
    assert!(!FooterToken::new_unchecked("Closes").breaking());
}

#[test]
fn footer_separator_parse() {
    assert_eq!(FooterSeparator::parse(":").unwrap(), FooterSeparator::Value);
    assert_eq!(FooterSeparator::parse(" #").unwrap(), FooterSeparator::Ref);

    let err = FooterSeparator::parse("::").unwrap_err();
    assert_eq!(err.kind(), ErrorKind::InvalidFooter);
    assert_eq!(err.message(), "Incorrect footer syntax: ::");
    let err = FooterSeparator::parse("").unwrap_err();
    assert_eq!(err.kind(), ErrorKind::InvalidFooter);
}

#[test]
fn component_footer_holds_its_parts() {
    let f = ComponentFooter::new(
        "Reviewed-by".to_owned(),
        ComponentSeparator::ColonSpace,
        "Jo".to_owned(),
    );
    assert_eq!(f.token(), "Reviewed-by");
    assert_eq!(f.separator(), ComponentSeparator::ColonSpace);
    assert_eq!(f.separator().as_str(), ": ");
    assert_eq!(f.value(), "Jo");

    let g = ComponentFooter::new("Closes".to_owned(), ComponentSeparator::SpacePound, "9".to_owned());
    assert_eq!(g.separator().as_str(), " #");
}

#[test]
fn simple_footer_holds_its_parts() {
    let f = SimpleFooter::new("Acked-by".to_owned(), ":".to_owned(), "someone".to_owned());
    assert_eq!(f.token(), "Acked-by");
    assert_eq!(f.separator(), ":");
    assert_eq!(f.value(), "someone");
}

#[test]
fn simple_trait_view() {
    let commit = Commit::parse("feat(ui): add button\n\nCloses #7").unwrap();
    assert_eq!(Simple::type_(&commit), "feat");
    assert_eq!(Simple::scope(&commit), Some("ui"));
    assert_eq!(Simple::description(&commit), "add button");
    assert_eq!(Simple::body(&commit), None);
    assert!(!Simple::breaking(&commit));
    let footers = Simple::footers(&commit);
    assert_eq!(footers.len(), 1);
    assert_eq!(footers[0].token(), "Closes");
    assert_eq!(footers[0].separator(), " #");
    assert_eq!(footers[0].value(), "7");
}

#[test]
fn typed_trait_view() {
    let commit = Commit::parse("fix!: hurry\n\na body").unwrap();
    assert_eq!(Typed::type_(&commit).as_str(), "fix");
    assert!(Typed::scope(&commit).is_none());
    assert_eq!(Typed::description(&commit), "hurry");
    assert_eq!(Typed::body(&commit), Some("a body"));
    assert!(Typed::breaking(&commit));
    assert!(Typed::footers(&commit).is_empty());
}

#[test]
fn new_unchecked_components_roundtrip() {
    assert_eq!(Type::new_unchecked("docs").as_str(), "docs");
    assert_eq!(Scope::new_unchecked("a b").as_str(), "a b");
    assert_eq!(FooterToken::new_unchecked("Acked-by").as_str(), "Acked-by");
}

#[test]
fn components_compare_case_insensitively() {
    assert!(Type::new_unchecked("FOO").eq_ignore_case(&Type::new_unchecked("foo")));
    assert!(!Type::new_unchecked("foo").eq_ignore_case(&Type::new_unchecked("bar")));
    assert!(Scope::new_unchecked("My Scope").eq_ignore_case(&Scope::new_unchecked("my scope")));
    assert!(
        FooterToken::new_unchecked("Breaking-Change").eq_ignore_case(
            &FooterToken::new_unchecked("BREAKING-CHANGE")
        )
    );
    assert!(
        !FooterToken::new_unchecked("Closes").eq_ignore_case(
            &FooterToken::new_unchecked("Acked-by")
        )
    );
}

#[test]
fn error_message_kinds() {
    assert_eq!(
        ErrorKind::MissingDescription.message(),
        "Missing description in commit summary, expected `type: description`"
    );
    assert_eq!(ErrorKind::InvalidBody.message(), "Incorrect body syntax");
    assert_eq!(
        ErrorKind::InvalidFormat.message(),
        "Incorrect conventional commit format"
    );
}
