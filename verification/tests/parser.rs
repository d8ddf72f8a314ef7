use git_conventional::Commit;
use git_conventional::ErrorKind;
use git_conventional::parser::body;
use git_conventional::parser::exclamation_mark;
use git_conventional::parser::footer;
use git_conventional::parser::message;
use git_conventional::parser::scope;
use git_conventional::parser::separator;
use git_conventional::parser::summary;
use git_conventional::parser::text;
use git_conventional::parser::token;
use git_conventional::parser::type_;
use git_conventional::parser::value;
use git_conventional::parser::whitespace;

fn pair(r: Result<(String, String), ErrorKind>) -> (String, String) {
    r.unwrap()
}

#[test]
fn errors() {
    let input = "Hello World";
    let err = message(input).unwrap_err();
    assert_eq!(err, ErrorKind::MissingType);
    let err2 = Commit::parse(input).unwrap_err();
    assert_eq!(err2.kind().message(), ErrorKind::MissingType.message());

    let input = "fix Improved error messages\n";
    let err = message(input).unwrap_err();
    assert_eq!(err, ErrorKind::MissingType);
    let err2 = Commit::parse(input).unwrap_err();
    assert_eq!(err2.kind().message(), ErrorKind::MissingType.message());
}

#[test]
fn test_type() {
    // valid
    assert_eq!(pair(type_("foo")), ("".to_owned(), "foo".to_owned()));
    assert_eq!(pair(type_("Foo")), ("".to_owned(), "Foo".to_owned()));
    assert_eq!(pair(type_("FOO")), ("".to_owned(), "FOO".to_owned()));
    assert_eq!(pair(type_("fOO")), ("".to_owned(), "fOO".to_owned()));
    assert_eq!(pair(type_("foo2bar")), ("".to_owned(), "foo2bar".to_owned()));
    assert_eq!(pair(type_("foo-bar")), ("".to_owned(), "foo-bar".to_owned()));
    assert_eq!(pair(type_("foo bar")), (" bar".to_owned(), "foo".to_owned()));
    assert_eq!(pair(type_("foo: bar")), (": bar".to_owned(), "foo".to_owned()));
    assert_eq!(pair(type_("foo!: bar")), ("!: bar".to_owned(), "foo".to_owned()));
    assert_eq!(pair(type_("foo(bar")), ("(bar".to_owned(), "foo".to_owned()));
    assert_eq!(pair(type_("foo ")), (" ".to_owned(), "foo".to_owned()));

    // invalid
    assert!(type_("").is_err());
    assert!(type_(" ").is_err());
    assert!(type_("  ").is_err());
    assert!(type_(")").is_err());
    assert!(type_(" feat").is_err());
    assert!(type_(" feat ").is_err());
}

#[test]
fn test_scope() {
    // valid
    assert_eq!(pair(scope("foo")), ("".to_owned(), "foo".to_owned()));
    assert_eq!(pair(scope("Foo")), ("".to_owned(), "Foo".to_owned()));
    assert_eq!(pair(scope("FOO")), ("".to_owned(), "FOO".to_owned()));
    assert_eq!(pair(scope("fOO")), ("".to_owned(), "fOO".to_owned()));
    assert_eq!(pair(scope("foo bar")), ("".to_owned(), "foo bar".to_owned()));
    assert_eq!(pair(scope("foo-bar")), ("".to_owned(), "foo-bar".to_owned()));
    assert_eq!(pair(scope("x86")), ("".to_owned(), "x86".to_owned()));

    // invalid
    assert!(scope("").is_err());
    assert!(scope(")").is_err());
}

#[test]
fn test_text() {
    // valid
    assert_eq!(pair(text("foo")), ("".to_owned(), "foo".to_owned()));
    assert_eq!(pair(text("Foo")), ("".to_owned(), "Foo".to_owned()));
    assert_eq!(pair(text("FOO")), ("".to_owned(), "FOO".to_owned()));
    assert_eq!(pair(text("fOO")), ("".to_owned(), "fOO".to_owned()));
    assert_eq!(pair(text("foo bar")), ("".to_owned(), "foo bar".to_owned()));
    assert_eq!(pair(text("foo bar\n")), ("\n".to_owned(), "foo bar".to_owned()));
    assert_eq!(
        pair(text("foo\nbar\nbaz")),
        ("\nbar\nbaz".to_owned(), "foo".to_owned())
    );

    // invalid
    assert!(text("").is_err());
}

#[test]
fn test_summary() {
    // valid
    let (rest, (ty, sc, bang, desc)) = summary("foo: bar").unwrap();
    assert_eq!((rest, ty, sc, bang, desc), ("".to_owned(), "foo".to_owned(), None, false, "bar".to_owned()));

    let (rest, (ty, sc, bang, desc)) = summary("foo(bar): baz").unwrap();
    assert_eq!(
        (rest, ty, sc, bang, desc),
        ("".to_owned(), "foo".to_owned(), Some("bar".to_owned()), false, "baz".to_owned())
    );

    let (rest, (ty, sc, bang, desc)) = summary("foo(bar):     baz").unwrap();
    assert_eq!(
        (rest, ty, sc, bang, desc),
        ("".to_owned(), "foo".to_owned(), Some("bar".to_owned()), false, "baz".to_owned())
    );

    let (rest, (ty, sc, bang, desc)) = summary("foo(bar-baz): qux").unwrap();
    assert_eq!(
        (rest, ty, sc, bang, desc),
        ("".to_owned(), "foo".to_owned(), Some("bar-baz".to_owned()), false, "qux".to_owned())
    );

    let (rest, (ty, sc, bang, desc)) = summary("foo!: bar").unwrap();
    assert_eq!(
        (rest, ty, sc, bang, desc),
        ("".to_owned(), "foo".to_owned(), None, true, "bar".to_owned())
    );

    // invalid
    assert!(summary("").is_err());
    assert!(summary(" ").is_err());
    assert!(summary("  ").is_err());
    assert!(summary("foo").is_err());
    assert!(summary("foo bar").is_err());
    assert!(summary("foo : bar").is_err());
    assert!(summary("foo bar: baz").is_err());
    assert!(summary("foo(: bar").is_err());
    assert!(summary("foo): bar").is_err());
    assert!(summary("foo(): bar").is_err());
    assert!(summary("foo(bar)").is_err());
    assert!(summary("foo(bar):").is_err());
    assert!(summary("foo(bar): ").is_err());
    assert!(summary("foo(bar):  ").is_err());
    assert!(summary("foo(bar) :baz").is_err());
    assert!(summary("foo(bar) : baz").is_err());
    assert!(summary("foo (bar): baz").is_err());
    assert!(summary("foo bar(baz): qux").is_err());
}

#[test]
fn test_body() {
    // valid
    assert_eq!(pair(body("foo")), ("".to_owned(), "foo".to_owned()));
    assert_eq!(pair(body("Foo")), ("".to_owned(), "Foo".to_owned()));
    assert_eq!(pair(body("FOO")), ("".to_owned(), "FOO".to_owned()));
    assert_eq!(pair(body("fOO")), ("".to_owned(), "fOO".to_owned()));
    assert_eq!(pair(body("    code block")), ("".to_owned(), "    code block".to_owned()));
    assert_eq!(
        pair(body("\u{1F483}\u{1F3FD}")),
        ("".to_owned(), "\u{1F483}\u{1F3FD}".to_owned())
    );
    assert_eq!(pair(body("foo bar")), ("".to_owned(), "foo bar".to_owned()));
    assert_eq!(
        pair(body("foo\nbar\n\nbaz")),
        ("".to_owned(), "foo\nbar\n\nbaz".to_owned())
    );
    assert_eq!(
        pair(body("foo\n\nBREAKING CHANGE: oops!")),
        ("BREAKING CHANGE: oops!".to_owned(), "foo".to_owned())
    );
    assert_eq!(
        pair(body("foo\n\nBREAKING-CHANGE: bar")),
        ("BREAKING-CHANGE: bar".to_owned(), "foo".to_owned())
    );
    assert_eq!(
        pair(body("foo\n\nMy-Footer: bar")),
        ("My-Footer: bar".to_owned(), "foo".to_owned())
    );
    assert_eq!(
        pair(body("foo\n\nMy-Footer #bar")),
        ("My-Footer #bar".to_owned(), "foo".to_owned())
    );

    // invalid
    assert!(body("").is_err());
}

#[test]
fn test_footer() {
    // valid
    let (rest, (tok, sep, val)) = footer("hello: world").unwrap();
    assert_eq!(
        (rest, tok, sep, val),
        ("".to_owned(), "hello".to_owned(), ":".to_owned(), "world".to_owned())
    );

    let (rest, (tok, sep, val)) = footer("BREAKING CHANGE: woops!").unwrap();
    assert_eq!(
        (rest, tok, sep, val),
        ("".to_owned(), "BREAKING CHANGE".to_owned(), ":".to_owned(), "woops!".to_owned())
    );

    let (rest, (tok, sep, val)) = footer("Co-Authored-By: Marge Simpson <marge@simpsons.com>").unwrap();
    assert_eq!(
        (rest, tok, sep, val),
        (
            "".to_owned(),
            "Co-Authored-By".to_owned(),
            ":".to_owned(),
            "Marge Simpson <marge@simpsons.com>".to_owned()
        )
    );

    let (rest, (tok, sep, val)) = footer("Closes #12").unwrap();
    assert_eq!(
        (rest, tok, sep, val),
        ("".to_owned(), "Closes".to_owned(), " #".to_owned(), "12".to_owned())
    );

    let (rest, (tok, sep, val)) = footer("BREAKING-CHANGE: broken").unwrap();
    assert_eq!(
        (rest, tok, sep, val),
        ("".to_owned(), "BREAKING-CHANGE".to_owned(), ":".to_owned(), "broken".to_owned())
    );

    // invalid
    assert!(footer("").is_err());
    assert!(footer(" ").is_err());
    assert!(footer("  ").is_err());
    assert!(footer("foo").is_err());
    assert!(footer("foo:").is_err());
    assert!(footer("foo: ").is_err());
    assert!(footer("foo ").is_err());
    assert!(footer("foo #").is_err());
    assert!(footer("BREAKING CHANGE").is_err());
    assert!(footer("BREAKING CHANGE:").is_err());
    assert!(footer("Foo-Bar").is_err());
    assert!(footer("Foo-Bar: ").is_err());
}

#[test]
fn test_token_rule() {
    assert_eq!(pair(token("BREAKING CHANGE: x")), (": x".to_owned(), "BREAKING CHANGE".to_owned()));
    assert_eq!(pair(token("Closes #12")), (" #12".to_owned(), "Closes".to_owned()));
    assert!(token(" nope").is_err());
}

#[test]
fn test_separator_rule() {
    assert_eq!(pair(separator(": x")), (" x".to_owned(), ":".to_owned()));
    assert_eq!(pair(separator(" #12")), ("12".to_owned(), " #".to_owned()));
    assert!(separator("x").is_err());
    assert!(separator("").is_err());
}

#[test]
fn test_value_rule() {
    assert_eq!(pair(value("one\ntwo\n\nNext: f")), ("Next: f".to_owned(), "one\ntwo".to_owned()));
    assert_eq!(pair(value("only")), ("".to_owned(), "only".to_owned()));
    assert!(value("").is_err());
}

#[test]
fn test_whitespace_rule() {
    let (rest, m) = whitespace("  \t x");
    assert_eq!((rest, m), ("x".to_owned(), "  \t ".to_owned()));
    let (rest, m) = whitespace("x");
    assert_eq!((rest, m), ("x".to_owned(), "".to_owned()));
}

#[test]
fn test_exclamation_mark_rule() {
    assert_eq!(pair(exclamation_mark("!: x")), (": x".to_owned(), "!".to_owned()));
    assert!(exclamation_mark(": x").is_err());
}

#[test]
fn test_message_rule() {
    let m = message("feat(ui)!: done\n\nbody here\n\nCloses #1").unwrap();
    assert_eq!(m.ty, "feat");
    assert_eq!(m.scope.as_deref(), Some("ui"));
    assert!(m.breaking);
    assert_eq!(m.description, "done");
    assert_eq!(m.body.as_deref(), Some("body here"));
    assert_eq!(m.footers.len(), 1);
    assert_eq!(m.footers[0].token, "Closes");
    assert_eq!(m.footers[0].value, "1");
}
