//! The conventional commit type and its components.

pub mod simple;
pub mod typed;

use vstd::prelude::*;

use crate::error::Error;
use crate::error::ErrorKind;
use crate::parser;
use crate::parser::FooterView;
use crate::parser::MessageView;
use crate::parser::breaking_hyphen;
use crate::parser::breaking_phrase;
use crate::parser::is_type_char;
use crate::parser::prefix_len;
use crate::parser::spec_message;
use crate::parser::spec_token_len;
use crate::parser::type_char_p;

verus! {

/// The type of separator between the footer token and value.
#[derive(Debug, Clone, Copy, Eq, PartialEq, Hash, Structural)]
#[non_exhaustive]
pub enum FooterSeparator {
    /// ":"
    Value,

    /// " #"
    Ref,
}

/// The text of a footer separator.
pub open spec fn spec_sep_str(k: FooterSeparator) -> Seq<char> {
    match k {
        FooterSeparator::Value => ":"@,
        FooterSeparator::Ref => " #"@,
    }
}

impl FooterSeparator {
    /// Access the `str` representation of a `FooterSeparator`.
    pub fn as_str(self) -> (r: &'static str)
        ensures
            r@ == spec_sep_str(self),
    {
        match self {
            FooterSeparator::Value => ":",
            FooterSeparator::Ref => " #",
        }
    }

    /// Parse a `str` into a `FooterSeparator`: it must be exactly one of
    /// the two recognized forms, else the error is `InvalidFooter` and its
    /// context carries the offending string.
    pub fn parse(s: &str) -> (r: Result<Self, Error>)
        ensures
            match r {
                Ok(k) => s@ == spec_sep_str(k),
                Err(e) => {
                    &&& s@ != ":"@ && s@ != " #"@
                    &&& e@.kind == ErrorKind::InvalidFooter
                    &&& e@.context == Some(s@)
                    &&& e@.commit is None
                },
            },
    {
        if parser::str_eq(s, ":") {
            Ok(FooterSeparator::Value)
        } else if parser::str_eq(s, " #") {
            Ok(FooterSeparator::Ref)
        } else {
            Err(Error::new(ErrorKind::InvalidFooter).set_context(s.to_owned()))
        }
    }
}

// ---------------------------------------------------------------------------
// Case-insensitive comparison of tokens
// ---------------------------------------------------------------------------

/// The Unicode case folding of a string, as the `unicase` crate computes
/// it: each character replaced by its folded form.
pub uninterp spec fn fold_of(s: Seq<char>) -> Seq<char>;

/// Relies on `unicase::UniCase`: comparing `UniCase::unicode(a)` with
/// `UniCase::unicode(b)` compares the two strings character by character
/// after Unicode case folding, a function of the characters alone.
#[verifier::external_body]
fn unicase_eq(a: &str, b: &str) -> (r: bool)
    ensures
        r == (fold_of(a@) == fold_of(b@)),
{
    unicase::UniCase::unicode(a) == unicase::UniCase::unicode(b)
}

/// Whether a footer token marks a breaking change: it equals, up to case
/// folding, one of the two recognized spellings.
pub open spec fn is_breaking_token(t: Seq<char>) -> bool {
    fold_of(t) == fold_of(breaking_phrase()) || fold_of(t) == fold_of(breaking_hyphen())
}

// ---------------------------------------------------------------------------
// Components
// ---------------------------------------------------------------------------

/// The type of a commit.
#[derive(Debug, Clone, PartialEq, Eq, Hash)]
pub struct Type(String);

impl View for Type {
    type V = Seq<char>;

    closed spec fn view(&self) -> Seq<char> {
        self.0@
    }
}

impl Type {
    /// Wrap a string without checking it; see `parse` for ensuring the
    /// data is valid.
    pub fn new_unchecked(value: &str) -> (r: Self)
        ensures
            r@ == value@,
    {
        Type(value.to_owned())
    }

    /// Access the `str` representation.
    pub fn as_str(&self) -> (r: &str)
        ensures
            r@ == self@,
    {
        self.0.as_str()
    }


    /// Compare two types using Unicode case folding, as the original
    /// case-insensitive equality of components does.
    pub fn eq_ignore_case(&self, other: &Self) -> (r: bool)
        ensures
            r == (fold_of(self@) == fold_of(other@)),
    {
        unicase_eq(self.as_str(), other.as_str())
    }

    /// Parse a `str` into a `Type`: one or more type characters that
    /// consume the whole input. Where the type rule itself fails, the
    /// error retains the input text.
    pub fn parse(s: &str) -> (r: Result<Self, Error>)
        ensures
            match r {
                Ok(t) => t@ == s@ && s@.len() > 0 && forall|i: int|
                    0 <= i < s@.len() ==> is_type_char(#[trigger] s@[i]),
                Err(e) => {
                    &&& !(s@.len() > 0 && forall|i: int|
                        0 <= i < s@.len() ==> is_type_char(#[trigger] s@[i]))
                    &&& e@.kind == if prefix_len(s@, type_char_p()) == 0 {
                        ErrorKind::MissingType
                    } else {
                        ErrorKind::InvalidFormat
                    }
                    &&& e@.commit == if prefix_len(s@, type_char_p()) == 0 {
                        Some(s@)
                    } else {
                        None::<Seq<char>>
                    }
                    &&& e@.context is None
                },
            },
    {
        proof {
            parser::lemma_prefix_len_props(s@, type_char_p());
        }
        match parser::type_(s) {
            Err(k) => Err(Error::with_commit(k, s)),
            Ok((rest, t)) => {
                if !rest.as_str().is_empty() {
                    return Err(Error::new(ErrorKind::InvalidFormat));
                }
                proof {
                    assert(t@ =~= s@);
                }
                Ok(Type(t))
            },
        }
    }
}

/// The scope of a commit.
#[derive(Debug, Clone, PartialEq, Eq, Hash)]
pub struct Scope(String);

impl View for Scope {
    type V = Seq<char>;

    closed spec fn view(&self) -> Seq<char> {
        self.0@
    }
}

impl Scope {
    /// Wrap a string without checking it; see `parse` for ensuring the
    /// data is valid.
    pub fn new_unchecked(value: &str) -> (r: Self)
        ensures
            r@ == value@,
    {
        Scope(value.to_owned())
    }

    /// Access the `str` representation.
    pub fn as_str(&self) -> (r: &str)
        ensures
            r@ == self@,
    {
        self.0.as_str()
    }


    /// Compare two scopes using Unicode case folding, as the original
    /// case-insensitive equality of components does.
    pub fn eq_ignore_case(&self, other: &Self) -> (r: bool)
        ensures
            r == (fold_of(self@) == fold_of(other@)),
    {
        unicase_eq(self.as_str(), other.as_str())
    }

    /// Parse a `str` into a `Scope`: one or more scope characters that
    /// consume the whole input. Where the scope rule itself fails, the
    /// error retains the input text.
    pub fn parse(s: &str) -> (r: Result<Self, Error>)
        ensures
            match r {
                Ok(t) => t@ == s@ && s@.len() > 0 && forall|i: int|
                    0 <= i < s@.len() ==> parser::is_scope_char(#[trigger] s@[i]),
                Err(e) => {
                    &&& !(s@.len() > 0 && forall|i: int|
                        0 <= i < s@.len() ==> parser::is_scope_char(#[trigger] s@[i]))
                    &&& e@.kind == ErrorKind::InvalidScope
                    &&& e@.commit == if prefix_len(s@, parser::scope_char_p()) == 0 {
                        Some(s@)
                    } else {
                        None::<Seq<char>>
                    }
                    &&& e@.context is None
                },
            },
    {
        proof {
            parser::lemma_prefix_len_props(s@, parser::scope_char_p());
        }
        match parser::scope(s) {
            Err(k) => Err(Error::with_commit(k, s)),
            Ok((rest, t)) => {
                if !rest.as_str().is_empty() {
                    return Err(Error::new(ErrorKind::InvalidScope));
                }
                proof {
                    assert(t@ =~= s@);
                }
                Ok(Scope(t))
            },
        }
    }
}

/// The token of a footer.
#[derive(Debug, Clone, PartialEq, Eq, Hash)]
pub struct FooterToken(String);

impl View for FooterToken {
    type V = Seq<char>;

    closed spec fn view(&self) -> Seq<char> {
        self.0@
    }
}

impl FooterToken {
    /// Wrap a string without checking it; see `parse` for ensuring the
    /// data is valid.
    pub fn new_unchecked(value: &str) -> (r: Self)
        ensures
            r@ == value@,
    {
        FooterToken(value.to_owned())
    }

    /// Access the `str` representation.
    pub fn as_str(&self) -> (r: &str)
        ensures
            r@ == self@,
    {
        self.0.as_str()
    }


    /// Compare two footer tokens using Unicode case folding, as the original
    /// case-insensitive equality of components does.
    pub fn eq_ignore_case(&self, other: &Self) -> (r: bool)
        ensures
            r == (fold_of(self@) == fold_of(other@)),
    {
        unicase_eq(self.as_str(), other.as_str())
    }

    /// Parse a `str` into a `FooterToken`: the literal breaking-change
    /// phrase or a type-shaped token, consuming the whole input. Where
    /// the token rule itself fails, the error retains the input text.
    pub fn parse(s: &str) -> (r: Result<Self, Error>)
        ensures
            match r {
                Ok(t) => t@ == s@ && spec_token_len(s@) == s@.len() && s@.len() > 0,
                Err(e) => {
                    &&& !(spec_token_len(s@) == s@.len() && s@.len() > 0)
                    &&& e@.kind == if spec_token_len(s@) == 0 {
                        ErrorKind::MissingType
                    } else {
                        ErrorKind::InvalidScope
                    }
                    &&& e@.commit == if spec_token_len(s@) == 0 {
                        Some(s@)
                    } else {
                        None::<Seq<char>>
                    }
                    &&& e@.context is None
                },
            },
    {
        proof {
            parser::lemma_token_len_le(s@);
        }
        match parser::token(s) {
            Err(k) => Err(Error::with_commit(k, s)),
            Ok((rest, t)) => {
                if !rest.as_str().is_empty() {
                    return Err(Error::new(ErrorKind::InvalidScope));
                }
                proof {
                    assert(t@ =~= s@);
                }
                Ok(FooterToken(t))
            },
        }
    }

    /// A flag to signal that the footer describes a breaking change.
    pub fn breaking(&self) -> (r: bool)
        ensures
            r == is_breaking_token(self@),
    {
        unicase_eq(self.as_str(), "BREAKING CHANGE") || unicase_eq(self.as_str(), "BREAKING-CHANGE")
    }
}

// ---------------------------------------------------------------------------
// Footers
// ---------------------------------------------------------------------------

/// A single footer.
///
/// A footer is similar to a Git trailer, with the exception of not
/// requiring whitespace before newlines.
#[derive(Debug, Clone, PartialEq, Eq, Hash)]
pub struct Footer {
    token: FooterToken,
    sep: FooterSeparator,
    value: String,
}

impl View for Footer {
    type V = FooterView;

    closed spec fn view(&self) -> FooterView {
        FooterView { token: self.token@, sep: self.sep, value: self.value@ }
    }
}

/// The footers a sequence of `Footer` values stands for.
pub open spec fn footers_model(fs: Seq<Footer>) -> Seq<FooterView> {
    fs.map_values(|f: Footer| f@)
}

impl Footer {
    /// Piece together a footer.
    pub fn new(token: FooterToken, sep: FooterSeparator, value: String) -> (r: Self)
        ensures
            r@ == (FooterView { token: token@, sep, value: value@ }),
    {
        Self { token, sep, value }
    }

    /// The token of the footer.
    pub fn token(&self) -> (r: &FooterToken)
        ensures
            r@ == self@.token,
    {
        &self.token
    }

    /// The separator between the footer token and its value.
    pub fn separator(&self) -> (r: FooterSeparator)
        ensures
            r == self@.sep,
    {
        self.sep
    }

    /// The value of the footer.
    pub fn value(&self) -> (r: &str)
        ensures
            r@ == self@.value,
    {
        self.value.as_str()
    }

    /// A flag to signal that the footer describes a breaking change.
    pub fn breaking(&self) -> (r: bool)
        ensures
            r == is_breaking_token(self@.token),
    {
        self.token.breaking()
    }
}

// ---------------------------------------------------------------------------
// The commit
// ---------------------------------------------------------------------------

/// The ghost model of a parsed commit.
pub struct CommitView {
    pub ty: Seq<char>,
    pub scope: Option<Seq<char>>,
    pub description: Seq<char>,
    pub body: Option<Seq<char>>,
    pub breaking: bool,
    pub breaking_description: Option<Seq<char>>,
    pub footers: Seq<FooterView>,
}

/// The value of the first footer whose token marks a breaking change.
pub open spec fn first_breaking_value(fs: Seq<FooterView>) -> Option<Seq<char>>
    decreases fs.len(),
{
    if fs.len() == 0 {
        None
    } else if is_breaking_token(fs[0].token) {
        Some(fs[0].value)
    } else {
        first_breaking_value(fs.drop_first())
    }
}

/// The breaking-change explanation a parsed message carries: the first
/// breaking footer's value, or the description when the summary carried
/// the `!` marker.
pub open spec fn spec_breaking_desc(m: MessageView) -> Option<Seq<char>> {
    match first_breaking_value(m.footers) {
        Some(value) => Some(value),
        None => if m.bang {
            Some(m.desc)
        } else {
            None
        },
    }
}

/// The commit a parsed message stands for, with the breaking-change flag
/// derived from the marker and the footers.
pub open spec fn commit_of(m: MessageView) -> CommitView {
    CommitView {
        ty: m.ty,
        scope: m.scope,
        description: m.desc,
        body: m.body,
        breaking: spec_breaking_desc(m) is Some,
        breaking_description: spec_breaking_desc(m),
        footers: m.footers,
    }
}

/// A conventional commit.
#[derive(Debug, Clone, PartialEq)]
pub struct Commit {
    ty: Type,
    scope: Option<Scope>,
    description: String,
    body: Option<String>,
    breaking: bool,
    breaking_description: Option<String>,
    footers: Vec<Footer>,
}

impl View for Commit {
    type V = CommitView;

    closed spec fn view(&self) -> CommitView {
        CommitView {
            ty: self.ty@,
            scope: match self.scope {
                Some(ref sc) => Some(sc@),
                None => None,
            },
            description: self.description@,
            body: match self.body {
                Some(ref b) => Some(b@),
                None => None,
            },
            breaking: self.breaking,
            breaking_description: match self.breaking_description {
                Some(ref b) => Some(b@),
                None => None,
            },
            footers: footers_model(self.footers@),
        }
    }
}

/// Extending a footer list extends the search for its first breaking
/// value.
proof fn lemma_first_breaking_push(fs: Seq<FooterView>, f: FooterView)
    ensures
        first_breaking_value(fs.push(f)) == (match first_breaking_value(fs) {
            Some(v) => Some(v),
            None => if is_breaking_token(f.token) {
                Some(f.value)
            } else {
                None
            },
        }),
    decreases fs.len(),
{
    if fs.len() == 0 {
        assert(fs.push(f).drop_first() =~= fs);
        assert(fs.push(f)[0] == f);
    } else {
        assert(fs.push(f)[0] == fs[0]);
        assert(fs.push(f).drop_first() =~= fs.drop_first().push(f));
        lemma_first_breaking_push(fs.drop_first(), f);
    }
}

impl Commit {
    /// Create a new Conventional Commit based on the provided commit
    /// message string.
    ///
    /// # Errors
    ///
    /// This function returns an error if the commit does not conform to
    /// the Conventional Commit specification.
    pub fn parse(string: &str) -> (r: Result<Self, Error>)
        ensures
            match r {
                Ok(c) => spec_message(string@) matches Ok(m) && c@ == commit_of(m),
                Err(e) => {
                    &&& spec_message(string@) matches Err(k) && e@.kind == k
                    &&& e@.commit == Some(string@)
                },
            },
    {
        let rc = match parser::parse(string) {
            Err(k) => {
                return Err(Error::with_commit(k, string));
            },
            Ok(rc) => rc,
        };
        let ghost m = rc@;
        let nf = rc.footers.len();
        let mut footers: Vec<Footer> = Vec::new();
        let mut i: usize = 0;
        while i < nf
            invariant
                nf == rc.footers@.len(),
                i <= nf,
                footers@.len() == i,
                forall|k: int| 0 <= k < i ==> #[trigger] footers@[k]@ == rc.footers@[k]@,
            decreases nf - i,
        {
            let rf = &rc.footers[i];
            let f = Footer {
                token: FooterToken::new_unchecked(rf.token.as_str()),
                sep: rf.separator,
                value: rf.value.clone(),
            };
            footers.push(f);
            i = i + 1;
        }
        proof {
            assert(footers_model(footers@) =~= parser::footers_view(rc.footers@));
        }
        let mut breaking_description: Option<String> = None;
        let mut j: usize = 0;
        while j < nf
            invariant
                nf == footers@.len(),
                j <= nf,
                footers_model(footers@) == m.footers,
                (match breaking_description {
                    Some(ref b) => Some(b@),
                    None => None::<Seq<char>>,
                }) == first_breaking_value(m.footers.take(j as int)),
            decreases nf - j,
        {
            proof {
                assert(m.footers.take(j + 1).drop_last() =~= m.footers.take(j as int));
                assert(m.footers.take(j + 1) =~= m.footers.take(j as int).push(m.footers[j as int]));
                lemma_first_breaking_push(m.footers.take(j as int), m.footers[j as int]);
            }
            let is_first = breaking_description.is_none();
            if is_first {
                let f = &footers[j];
                if f.breaking() {
                    breaking_description = Some(f.value.clone());
                }
            }
            j = j + 1;
        }
        proof {
            assert(m.footers.take(nf as int) =~= m.footers);
        }
        if breaking_description.is_none() && rc.breaking {
            breaking_description = Some(rc.description.clone());
        }
        let breaking = breaking_description.is_some();
        Ok(Commit {
            ty: Type(rc.ty),
            scope: match rc.scope {
                Some(sc) => Some(Scope(sc)),
                None => None,
            },
            description: rc.description,
            body: rc.body,
            breaking,
            breaking_description,
            footers,
        })
    }

    /// The type of the commit.
    pub fn type_(&self) -> (r: &Type)
        ensures
            r@ == self@.ty,
    {
        &self.ty
    }

    /// The optional scope of the commit.
    pub fn scope(&self) -> (r: Option<&Scope>)
        ensures
            (r is Some) == (self@.scope is Some),
            r matches Some(sc) ==> self@.scope == Some(sc@),
    {
        match &self.scope {
            Some(sc) => Some(sc),
            None => None,
        }
    }

    /// The commit description.
    pub fn description(&self) -> (r: &str)
        ensures
            r@ == self@.description,
    {
        self.description.as_str()
    }

    /// The commit body, containing a more detailed explanation of the
    /// commit changes.
    pub fn body(&self) -> (r: Option<&str>)
        ensures
            (r is Some) == (self@.body is Some),
            r matches Some(b) ==> self@.body == Some(b@),
    {
        match &self.body {
            Some(b) => Some(b.as_str()),
            None => None,
        }
    }

    /// A flag to signal that the commit contains breaking changes.
    ///
    /// This flag is set either when the commit has an exclamation mark
    /// after the message type and scope, e.g.:
    ///
    /// ```text
    /// feat(scope)!: this is a breaking change
    /// ```
    ///
    /// Or when the `BREAKING CHANGE: ` footer is defined:
    ///
    /// ```text
    /// feat: my commit description
    ///
    /// BREAKING CHANGE: this is a breaking change
    /// ```
    pub fn breaking(&self) -> (r: bool)
        ensures
            r == self@.breaking,
    {
        self.breaking
    }

    /// Explanation for the breaking change.
    ///
    /// Note: if no `BREAKING CHANGE` footer is provided, the
    /// `description` is expected to describe the breaking change.
    pub fn breaking_description(&self) -> (r: Option<&str>)
        ensures
            (r is Some) == (self@.breaking_description is Some),
            r matches Some(b) ==> self@.breaking_description == Some(b@),
    {
        match &self.breaking_description {
            Some(b) => Some(b.as_str()),
            None => None,
        }
    }

    /// Any footer.
    ///
    /// A footer is similar to a Git trailer, with the exception of not
    /// requiring whitespace before newlines.
    pub fn footers(&self) -> (r: &Vec<Footer>)
        ensures
            footers_model(r@) == self@.footers,
    {
        &self.footers
    }

    /// The canonical textual form of the commit:
    /// `type(scope)!: description`, the body and each footer separated by
    /// blank lines. The `!` marker is written whenever the commit is
    /// breaking.
    pub fn to_text(&self) -> (r: String)
        ensures
            r@ == spec_render(self@),
    {
        let mut out = String::new();
        out.append(self.ty.as_str());
        match &self.scope {
            Some(sc) => {
                out.append("(");
                out.append(sc.as_str());
                out.append(")");
            },
            None => {},
        }
        if self.breaking {
            out.append("!");
        }
        out.append(": ");
        out.append(self.description.as_str());
        proof {
            assert(out@ =~= spec_render_summary(self@));
        }
        match &self.body {
            Some(b) => {
                out.append("\n\n");
                out.append(b.as_str());
            },
            None => {},
        }
        let ghost head = out@;
        let nf = self.footers.len();
        let mut i: usize = 0;
        while i < nf
            invariant
                nf == self.footers@.len(),
                i <= nf,
                footers_model(self.footers@) == self@.footers,
                out@ == head + spec_render_footers(self@.footers.take(i as int)),
            decreases nf - i,
        {
            let f = &self.footers[i];
            out.append("\n\n");
            out.append(f.token.as_str());
            out.append(f.sep.as_str());
            out.append(f.value.as_str());
            proof {
                assert(self@.footers.take(i + 1) =~= self@.footers.take(i as int).push(
                    self@.footers[i as int],
                ));
                lemma_render_footers_push(self@.footers.take(i as int), self@.footers[i as int]);
                assert(self@.footers[i as int] == self.footers@[i as int]@);
                assert(out@ =~= head + spec_render_footers(self@.footers.take(i + 1)));
            }
            i = i + 1;
        }
        proof {
            assert(self@.footers.take(nf as int) =~= self@.footers);
            assert(out@ =~= spec_render(self@));
        }
        out
    }
}

// ---------------------------------------------------------------------------
// Canonical rendering
// ---------------------------------------------------------------------------

/// The summary line a commit renders to.
pub open spec fn spec_render_summary(c: CommitView) -> Seq<char> {
    c.ty + (match c.scope {
        Some(sc) => "("@ + sc + ")"@,
        None => Seq::<char>::empty(),
    }) + (if c.breaking {
        "!"@
    } else {
        Seq::<char>::empty()
    }) + ": "@ + c.description
}

/// The text one footer renders to, with its leading blank line.
pub open spec fn spec_render_footer(f: FooterView) -> Seq<char> {
    "\n\n"@ + f.token + spec_sep_str(f.sep) + f.value
}

/// The text a footer list renders to.
pub open spec fn spec_render_footers(fs: Seq<FooterView>) -> Seq<char>
    decreases fs.len(),
{
    if fs.len() == 0 {
        Seq::<char>::empty()
    } else {
        spec_render_footer(fs[0]) + spec_render_footers(fs.drop_first())
    }
}

/// The canonical text a commit renders to.
pub open spec fn spec_render(c: CommitView) -> Seq<char> {
    spec_render_summary(c) + (match c.body {
        Some(b) => "\n\n"@ + b,
        None => Seq::<char>::empty(),
    }) + spec_render_footers(c.footers)
}

/// Rendering one more footer appends its text.
pub proof fn lemma_render_footers_push(fs: Seq<FooterView>, f: FooterView)
    ensures
        spec_render_footers(fs.push(f)) == spec_render_footers(fs) + spec_render_footer(f),
    decreases fs.len(),
{
    if fs.len() == 0 {
        assert(fs.push(f)[0] == f);
        assert(fs.push(f).drop_first() =~= fs);
        assert(spec_render_footers(fs.push(f)) =~= spec_render_footers(fs) + spec_render_footer(f));
    } else {
        assert(fs.push(f)[0] == fs[0]);
        assert(fs.push(f).drop_first() =~= fs.drop_first().push(f));
        lemma_render_footers_push(fs.drop_first(), f);
        assert(spec_render_footers(fs.push(f)) =~= spec_render_footers(fs) + spec_render_footer(f));
    }
}

} // verus!
