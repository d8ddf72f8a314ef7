//! The grammar engine: a recursive-descent parser for conventional commit
//! messages, together with the specification-level model of the grammar that
//! every executable function is proved against.
//!
//! The model works over `Seq<char>`. A message is a summary line
//! (`type`, optional `(scope)`, optional `!`, `:`, whitespace, description),
//! followed by an optional body and a list of `token separator value`
//! footers. The boundary between body text and the footer block is decided
//! line by line with a one-line lookahead against the footer grammar.

use vstd::prelude::*;

use crate::commit::FooterSeparator;
use crate::commit::spec_sep_str;
use crate::error::ErrorKind;

verus! {

// ---------------------------------------------------------------------------
// Character classes
// ---------------------------------------------------------------------------

/// A line-terminator character.
pub open spec fn is_line_ending_char(c: char) -> bool {
    c == '\n' || c == '\r'
}

/// An opening or closing parenthesis.
pub open spec fn is_paren_char(c: char) -> bool {
    c == '(' || c == ')'
}

/// A Unicode `White_Space` character.
pub open spec fn is_space_char(c: char) -> bool {
    let u = c as u32;
    ||| (0x09 <= u && u <= 0x0D)
    ||| u == 0x20
    ||| u == 0x85
    ||| u == 0xA0
    ||| u == 0x1680
    ||| (0x2000 <= u && u <= 0x200A)
    ||| u == 0x2028
    ||| u == 0x2029
    ||| u == 0x202F
    ||| u == 0x205F
    ||| u == 0x3000
}

/// A character that may appear in a commit type or footer token.
pub open spec fn is_type_char(c: char) -> bool {
    &&& !is_line_ending_char(c)
    &&& !is_paren_char(c)
    &&& c != ':'
    &&& c != '!'
    &&& !is_space_char(c)
}

/// A character that may appear in a scope.
pub open spec fn is_scope_char(c: char) -> bool {
    !is_line_ending_char(c) && !is_paren_char(c)
}

/// A character that may appear in one-line free text.
pub open spec fn is_text_char(c: char) -> bool {
    !is_line_ending_char(c)
}

/// Whitespace that does not terminate a line.
pub open spec fn is_inline_space_char(c: char) -> bool {
    is_space_char(c) && !is_line_ending_char(c)
}

// Named predicate values, so that every use site of `prefix_len` applies
// the same spec closure.

pub open spec fn type_char_p() -> spec_fn(char) -> bool {
    |c: char| is_type_char(c)
}

pub open spec fn scope_char_p() -> spec_fn(char) -> bool {
    |c: char| is_scope_char(c)
}

pub open spec fn text_char_p() -> spec_fn(char) -> bool {
    |c: char| is_text_char(c)
}

pub open spec fn inline_space_p() -> spec_fn(char) -> bool {
    |c: char| is_inline_space_char(c)
}

pub open spec fn space_p() -> spec_fn(char) -> bool {
    |c: char| is_space_char(c)
}

pub open spec fn non_newline_p() -> spec_fn(char) -> bool {
    |c: char| c != '\n'
}

/// Whether a stretch of text is blank: every character is whitespace.
pub open spec fn all_space(s: Seq<char>) -> bool {
    forall|i: int| 0 <= i < s.len() ==> is_space_char(#[trigger] s[i])
}

// ---------------------------------------------------------------------------
// Longest-prefix scans
// ---------------------------------------------------------------------------

/// The length of the longest prefix of `s` whose characters all satisfy `p`.
pub open spec fn prefix_len(s: Seq<char>, p: spec_fn(char) -> bool) -> nat
    decreases s.len(),
{
    if s.len() == 0 || !p(s[0]) {
        0
    } else {
        1 + prefix_len(s.drop_first(), p)
    }
}

/// `prefix_len` is bounded by the length of `s`, all characters before it
/// satisfy `p`, and the character at it (when any) does not.
pub proof fn lemma_prefix_len_props(s: Seq<char>, p: spec_fn(char) -> bool)
    ensures
        prefix_len(s, p) <= s.len(),
        forall|i: int| 0 <= i < prefix_len(s, p) ==> p(#[trigger] s[i]),
        prefix_len(s, p) < s.len() ==> !p(s[prefix_len(s, p) as int]),
    decreases s.len(),
{
    if s.len() == 0 || !p(s[0]) {
    } else {
        let t = s.drop_first();
        lemma_prefix_len_props(t, p);
        assert forall|i: int| 0 <= i < prefix_len(s, p) implies p(#[trigger] s[i]) by {
            if i > 0 {
                assert(t[i - 1] == s[i]);
            }
        }
        if prefix_len(s, p) < s.len() {
            assert(t[prefix_len(t, p) as int] == s[prefix_len(s, p) as int]);
        }
    }
}

/// The characterization of `prefix_len` is unique: any `n` with the three
/// properties above equals `prefix_len(s, p)`.
pub proof fn lemma_prefix_len_eq(s: Seq<char>, p: spec_fn(char) -> bool, n: nat)
    requires
        n <= s.len(),
        forall|i: int| 0 <= i < n ==> p(#[trigger] s[i]),
        n < s.len() ==> !p(s[n as int]),
    ensures
        prefix_len(s, p) == n,
    decreases s.len(),
{
    if n == 0 {
    } else {
        let t = s.drop_first();
        assert(p(s[0]));
        assert forall|i: int| 0 <= i < n - 1 implies p(#[trigger] t[i]) by {
            assert(t[i] == s[i + 1]);
        }
        if n - 1 < t.len() {
            assert(t[n - 1] == s[n as int]);
        }
        lemma_prefix_len_eq(t, p, (n - 1) as nat);
    }
}

/// Scanning a prefix of `s` stops where scanning `s` stops, or at the cut.
pub proof fn lemma_prefix_len_take(s: Seq<char>, p: spec_fn(char) -> bool, k: int)
    requires
        0 <= k <= s.len(),
    ensures
        prefix_len(s.take(k), p) == if prefix_len(s, p) < k {
            prefix_len(s, p)
        } else {
            k as nat
        },
{
    let n = prefix_len(s, p);
    lemma_prefix_len_props(s, p);
    if n < k {
        lemma_prefix_len_eq(s.take(k), p, n);
    } else {
        lemma_prefix_len_eq(s.take(k), p, k as nat);
    }
}

/// Scanning a concatenation whose left part satisfies `p` throughout and
/// whose right part starts with a character that does not.
pub proof fn lemma_prefix_len_app(a: Seq<char>, t: Seq<char>, p: spec_fn(char) -> bool)
    requires
        forall|i: int| 0 <= i < a.len() ==> p(#[trigger] a[i]),
        t.len() > 0 ==> !p(t[0]),
    ensures
        prefix_len(a + t, p) == a.len(),
{
    let s = a + t;
    assert forall|i: int| 0 <= i < a.len() implies p(#[trigger] s[i]) by {
        assert(s[i] == a[i]);
    }
    if a.len() < s.len() {
        assert(s[a.len() as int] == t[0]);
    }
    lemma_prefix_len_eq(s, p, a.len());
}

// ---------------------------------------------------------------------------
// Lines
// ---------------------------------------------------------------------------

/// The length of the first line of `s`, including its `'\n'` terminator;
/// a final unterminated line counts as a line.
pub open spec fn line_len(s: Seq<char>) -> nat {
    let n = prefix_len(s, non_newline_p());
    if n < s.len() {
        n + 1
    } else {
        s.len()
    }
}

/// Basic facts about the first line of `s`.
pub proof fn lemma_line_len_props(s: Seq<char>)
    ensures
        line_len(s) <= s.len(),
        s.len() > 0 ==> line_len(s) >= 1,
        forall|i: int| 0 <= i < line_len(s) - 1 ==> #[trigger] s[i] != '\n',
        line_len(s) < s.len() ==> s[line_len(s) - 1] == '\n',
        s.len() > 0 && s[line_len(s) - 1] != '\n' ==> line_len(s) == s.len(),
{
    lemma_prefix_len_props(s, non_newline_p());
    let n = prefix_len(s, non_newline_p());
    if n < s.len() {
        assert(!(non_newline_p()(s[n as int])));
    }
}

/// A line ending at position `i`: `"\n"` or `"\r\n"`, with length 0 where
/// neither matches.
pub open spec fn line_ending_len(s: Seq<char>, i: int) -> nat {
    if 0 <= i < s.len() && s[i] == '\n' {
        1
    } else if 0 <= i && i + 1 < s.len() && s[i] == '\r' && s[i + 1] == '\n' {
        2
    } else {
        0
    }
}

/// The position reached from `i` by consuming line endings while they match.
pub open spec fn skip_newlines(s: Seq<char>, i: nat) -> nat
    decreases s.len() - i,
{
    if i >= s.len() {
        i
    } else {
        let l = line_ending_len(s, i as int);
        if l == 0 {
            i
        } else {
            skip_newlines(s, i + l)
        }
    }
}

pub proof fn lemma_skip_newlines_le(s: Seq<char>, i: nat)
    requires
        i <= s.len(),
    ensures
        i <= skip_newlines(s, i) <= s.len(),
        skip_newlines(s, i) < s.len() ==> line_ending_len(s, skip_newlines(s, i) as int) == 0,
    decreases s.len() - i,
{
    if i >= s.len() {
    } else {
        let l = line_ending_len(s, i as int);
        if l != 0 {
            lemma_skip_newlines_le(s, i + l);
        }
    }
}

// ---------------------------------------------------------------------------
// Trailing-whitespace trimming
// ---------------------------------------------------------------------------

/// The length of `s` once trailing whitespace is removed.
pub open spec fn trim_len(s: Seq<char>) -> nat
    decreases s.len(),
{
    if s.len() == 0 {
        0
    } else if is_space_char(s[s.len() - 1]) {
        trim_len(s.drop_last())
    } else {
        s.len()
    }
}

/// `s` with its trailing whitespace removed.
pub open spec fn trim_end(s: Seq<char>) -> Seq<char> {
    s.take(trim_len(s) as int)
}

/// Basic facts about `trim_len`.
pub proof fn lemma_trim_len_props(s: Seq<char>)
    ensures
        trim_len(s) <= s.len(),
        forall|i: int| trim_len(s) <= i < s.len() ==> is_space_char(#[trigger] s[i]),
        trim_len(s) > 0 ==> !is_space_char(s[trim_len(s) - 1]),
    decreases s.len(),
{
    if s.len() == 0 {
    } else if is_space_char(s[s.len() - 1]) {
        let t = s.drop_last();
        lemma_trim_len_props(t);
        assert forall|i: int| trim_len(s) <= i < s.len() implies is_space_char(#[trigger] s[i]) by {
            if i < s.len() - 1 {
                assert(t[i] == s[i]);
            }
        }
        if trim_len(s) > 0 {
            assert(t[trim_len(t) - 1] == s[trim_len(s) - 1]);
        }
    } else {
    }
}

/// The characterization of `trim_len` is unique.
pub proof fn lemma_trim_len_eq(s: Seq<char>, n: nat)
    requires
        n <= s.len(),
        forall|i: int| n <= i < s.len() ==> is_space_char(#[trigger] s[i]),
        n > 0 ==> !is_space_char(s[n - 1]),
    ensures
        trim_len(s) == n,
    decreases s.len(),
{
    if s.len() == 0 {
    } else if n == s.len() {
        if is_space_char(s[s.len() - 1]) {
            assert(!is_space_char(s[n - 1]));
            assert(false);
        }
    } else {
        assert(is_space_char(s[s.len() - 1]));
        let t = s.drop_last();
        assert forall|i: int| n <= i < t.len() implies is_space_char(#[trigger] t[i]) by {
            assert(t[i] == s[i]);
        }
        if n > 0 {
            assert(t[n - 1] == s[n - 1]);
        }
        lemma_trim_len_eq(t, n);
    }
}

// ---------------------------------------------------------------------------
// Footer lookahead
// ---------------------------------------------------------------------------

/// The literal token that marks a breaking change in a footer.
pub open spec fn breaking_phrase() -> Seq<char> {
    "BREAKING CHANGE"@
}

/// The hyphenated spelling of the breaking-change token.
pub open spec fn breaking_hyphen() -> Seq<char> {
    "BREAKING-CHANGE"@
}

/// Does `s` begin with the literal breaking-change phrase?
pub open spec fn starts_with_breaking_phrase(s: Seq<char>) -> bool {
    s.len() >= 15 && s.subrange(0, 15) == breaking_phrase()
}

/// The length of the footer token at the start of `s`: the literal
/// breaking-change phrase takes priority over a type-shaped token; zero
/// where neither matches.
pub open spec fn spec_token_len(s: Seq<char>) -> nat {
    if starts_with_breaking_phrase(s) {
        15
    } else {
        prefix_len(s, type_char_p())
    }
}

/// The footer separator found at position `i` of `s`: `":"` or `" #"`.
pub open spec fn spec_sep_at(s: Seq<char>, i: int) -> Option<FooterSeparator> {
    if 0 <= i < s.len() && s[i] == ':' {
        Some(FooterSeparator::Value)
    } else if 0 <= i && i + 1 < s.len() && s[i] == ' ' && s[i + 1] == '#' {
        Some(FooterSeparator::Ref)
    } else {
        None
    }
}

/// The number of characters a separator occupies.
pub open spec fn spec_sep_len(k: FooterSeparator) -> nat {
    match k {
        FooterSeparator::Value => 1,
        FooterSeparator::Ref => 2,
    }
}

/// One-line lookahead: does `s` begin with `token separator`?
pub open spec fn is_footer_start(s: Seq<char>) -> bool {
    spec_token_len(s) > 0 && spec_sep_at(s, spec_token_len(s) as int) is Some
}

pub proof fn lemma_token_len_le(s: Seq<char>)
    ensures
        spec_token_len(s) <= s.len(),
{
    lemma_prefix_len_props(s, type_char_p());
}

// ---------------------------------------------------------------------------
// Body and footer-value scans
// ---------------------------------------------------------------------------

/// The number of characters the line-by-line scan consumes from `s`.
///
/// The scan consumes whole lines and stops at the first line that matches
/// the footer lookahead, provided the stop is permitted: when `gated`, the
/// immediately preceding line must have been blank (`prior_blank`);
/// otherwise any matching line stops the scan. The body scan is the gated
/// form, the footer-value scan the ungated one.
pub open spec fn scan_take(s: Seq<char>, prior_blank: bool, gated: bool) -> nat
    decreases s.len(),
{
    if s.len() == 0 {
        0
    } else if (prior_blank || !gated) && is_footer_start(s) {
        0
    } else {
        let l = line_len(s);
        l + scan_take(s.skip(l as int), all_space(s.take(l as int)), gated)
    }
}

/// The characters the body consumes from `s`: whole lines, up to the first
/// footer-lookahead match whose preceding line was blank (or that stands
/// first).
pub open spec fn body_take(s: Seq<char>, prior_blank: bool) -> nat {
    scan_take(s, prior_blank, true)
}

/// The characters a footer value consumes after its first line: whole
/// lines, up to the next footer-lookahead match.
pub open spec fn value_rest_take(s: Seq<char>) -> nat {
    scan_take(s, true, false)
}

/// The characters a footer value consumes from `s`: its first line
/// unconditionally, then lines up to the next footer-lookahead match.
pub open spec fn value_take(s: Seq<char>) -> nat {
    if s.len() == 0 {
        0
    } else {
        line_len(s) + value_rest_take(s.skip(line_len(s) as int))
    }
}

pub proof fn lemma_scan_take_le(s: Seq<char>, prior_blank: bool, gated: bool)
    ensures
        scan_take(s, prior_blank, gated) <= s.len(),
    decreases s.len(),
{
    if s.len() == 0 {
    } else if (prior_blank || !gated) && is_footer_start(s) {
    } else {
        let l = line_len(s);
        lemma_scan_take_le(s.skip(l as int), all_space(s.take(l as int)), gated);
    }
}

pub proof fn lemma_value_take_le(s: Seq<char>)
    ensures
        value_take(s) <= s.len(),
{
    if s.len() == 0 {
    } else {
        let l = line_len(s);
        lemma_scan_take_le(s.skip(l as int), true, false);
    }
}

/// `n` bounded by `m`.
pub open spec fn capped(n: nat, m: nat) -> nat {
    if n <= m {
        n
    } else {
        m
    }
}

// ---------------------------------------------------------------------------
// The grammar model
// ---------------------------------------------------------------------------

/// The parts of a parsed summary line, with the position where it ends.
pub struct SummaryView {
    pub ty: Seq<char>,
    pub scope: Option<Seq<char>>,
    pub bang: bool,
    pub desc: Seq<char>,
    pub end: nat,
}

/// One parsed footer: `token separator value`.
pub struct FooterView {
    pub token: Seq<char>,
    pub sep: FooterSeparator,
    pub value: Seq<char>,
}

/// A fully parsed message, before the breaking-change derivation.
pub struct MessageView {
    pub ty: Seq<char>,
    pub scope: Option<Seq<char>>,
    pub bang: bool,
    pub desc: Seq<char>,
    pub body: Option<Seq<char>>,
    pub footers: Seq<FooterView>,
}

/// What follows the optional scope of a summary: an optional `!`, the
/// mandatory `:`, inline whitespace, and the non-empty description.
pub open spec fn spec_summary_tail(
    s: Seq<char>,
    ty: Seq<char>,
    scope: Option<Seq<char>>,
    p: nat,
) -> Result<SummaryView, ErrorKind> {
    let bang = p < s.len() && s[p as int] == '!';
    let q = if bang {
        p + 1
    } else {
        p
    };
    if q >= s.len() || s[q as int] != ':' {
        if scope is None && !bang {
            Err(ErrorKind::MissingType)
        } else {
            Err(ErrorKind::InvalidFormat)
        }
    } else {
        let w = prefix_len(s.skip(q + 1 as int), inline_space_p());
        let d = prefix_len(s.skip((q + 1 + w) as int), text_char_p());
        if d == 0 {
            Err(ErrorKind::MissingDescription)
        } else {
            Ok(SummaryView {
                ty,
                scope,
                bang,
                desc: s.skip((q + 1 + w) as int).take(d as int),
                end: (q + 1 + w + d) as nat,
            })
        }
    }
}

/// The summary line: `type`, optional `(scope)` with cut semantics,
/// optional `!`, `:`, inline whitespace, description.
pub open spec fn spec_summary(s: Seq<char>) -> Result<SummaryView, ErrorKind> {
    let t = prefix_len(s, type_char_p());
    if t == 0 {
        Err(ErrorKind::MissingType)
    } else if t < s.len() && s[t as int] == '(' {
        let sl = prefix_len(s.skip((t + 1) as int), scope_char_p());
        if sl == 0 {
            Err(ErrorKind::InvalidScope)
        } else if t + 1 + sl >= s.len() || s[(t + 1 + sl) as int] != ')' {
            Err(ErrorKind::InvalidScope)
        } else {
            spec_summary_tail(
                s,
                s.take(t as int),
                Some(s.skip((t + 1) as int).take(sl as int)),
                (t + 1 + sl + 1) as nat,
            )
        }
    } else {
        spec_summary_tail(s, s.take(t as int), None, t)
    }
}

/// The footer block: repeated `token separator whitespace* value`, where
/// each value runs to the next footer-lookahead match; the block must
/// consume all of `s`.
pub open spec fn spec_footers(s: Seq<char>) -> Result<Seq<FooterView>, ErrorKind>
    decreases s.len(),
{
    if s.len() == 0 {
        Ok(Seq::<FooterView>::empty())
    } else {
        let t = spec_token_len(s);
        if t == 0 {
            Err(ErrorKind::InvalidFormat)
        } else {
            match spec_sep_at(s, t as int) {
                None => Err(ErrorKind::InvalidFormat),
                Some(sep) => {
                    let q = t + spec_sep_len(sep);
                    let w_end = capped((q + prefix_len(s.skip(q as int), space_p())) as nat, s.len());
                    let rest = s.skip(w_end as int);
                    if rest.len() == 0 {
                        Err(ErrorKind::InvalidFormat)
                    } else {
                        let v_end = capped((w_end + value_take(rest)) as nat, s.len());
                        let value = trim_end(rest.take((v_end - w_end) as int));
                        match spec_footers(s.skip(v_end as int)) {
                            Err(k) => Err(k),
                            Ok(fs) => Ok(
                                seq![FooterView { token: s.take(t as int), sep, value }] + fs,
                            ),
                        }
                    }
                }
            }
        }
    }
}

/// The whole message: the summary line and its terminator, the mandatory
/// blank line before any further content, extra blank lines, the optional
/// body, and the footer block.
///
/// A body that is absent because a footer stands right after the blank
/// line is valid; a body region that was consumed but holds only
/// whitespace is rejected as `InvalidBody`.
pub open spec fn spec_message(s: Seq<char>) -> Result<MessageView, ErrorKind> {
    match spec_summary(s) {
        Err(k) => Err(k),
        Ok(sum) => {
            let p = sum.end;
            if p == s.len() {
                Ok(MessageView {
                    ty: sum.ty,
                    scope: sum.scope,
                    bang: sum.bang,
                    desc: sum.desc,
                    body: None,
                    footers: Seq::<FooterView>::empty(),
                })
            } else {
                let l1 = line_ending_len(s, p as int);
                if l1 == 0 {
                    Err(ErrorKind::InvalidFormat)
                } else if p + l1 == s.len() {
                    Ok(MessageView {
                        ty: sum.ty,
                        scope: sum.scope,
                        bang: sum.bang,
                        desc: sum.desc,
                        body: None,
                        footers: Seq::<FooterView>::empty(),
                    })
                } else {
                    let l2 = line_ending_len(s, (p + l1) as int);
                    if l2 == 0 {
                        Err(ErrorKind::InvalidBody)
                    } else {
                        let p2 = skip_newlines(s, (p + l1 + l2) as nat);
                        let r = s.skip(p2 as int);
                        let bt = body_take(r, true);
                        let consumed = r.take(bt as int);
                        if bt != 0 && trim_len(consumed) == 0 {
                            Err(ErrorKind::InvalidBody)
                        } else {
                            match spec_footers(r.skip(bt as int)) {
                                Err(k) => Err(k),
                                Ok(fs) => Ok(MessageView {
                                    ty: sum.ty,
                                    scope: sum.scope,
                                    bang: sum.bang,
                                    desc: sum.desc,
                                    body: if bt == 0 {
                                        None
                                    } else {
                                        Some(trim_end(consumed))
                                    },
                                    footers: fs,
                                }),
                            }
                        }
                    }
                }
            }
        }
    }
}

// ---------------------------------------------------------------------------
// Character predicates, executable
// ---------------------------------------------------------------------------

/// Is `c` a line-terminator character?
pub fn is_line_ending(c: char) -> (r: bool)
    ensures
        r == is_line_ending_char(c),
{
    c == '\n' || c == '\r'
}

/// Is `c` an opening or closing parenthesis?
pub fn is_parens(c: char) -> (r: bool)
    ensures
        r == is_paren_char(c),
{
    c == '(' || c == ')'
}

/// Is `c` a Unicode `White_Space` character?
pub fn is_whitespace(c: char) -> (r: bool)
    ensures
        r == is_space_char(c),
{
    let u = c as u32;
    (0x09 <= u && u <= 0x0D) || u == 0x20 || u == 0x85 || u == 0xA0 || u == 0x1680 || (0x2000
        <= u && u <= 0x200A) || u == 0x2028 || u == 0x2029 || u == 0x202F || u == 0x205F || u
        == 0x3000
}

fn is_type_c(c: char) -> (r: bool)
    ensures
        r == is_type_char(c),
{
    !is_line_ending(c) && !is_parens(c) && c != ':' && c != '!' && !is_whitespace(c)
}

fn is_scope_c(c: char) -> (r: bool)
    ensures
        r == is_scope_char(c),
{
    !is_line_ending(c) && !is_parens(c)
}

fn is_inline_space_c(c: char) -> (r: bool)
    ensures
        r == is_inline_space_char(c),
{
    is_whitespace(c) && !is_line_ending(c)
}

// ---------------------------------------------------------------------------
// Executable scanning helpers
// ---------------------------------------------------------------------------

/// Collect the characters of `s` into a vector.
pub(crate) fn chars_vec(s: &str) -> (v: Vec<char>)
    ensures
        v@ == s@,
{
    let n = s.unicode_len();
    let mut v: Vec<char> = Vec::new();
    let mut i: usize = 0;
    while i < n
        invariant
            n == s@.len(),
            i <= n,
            v@ == s@.take(i as int),
        decreases n - i,
    {
        let c = s.get_char(i);
        v.push(c);
        i = i + 1;
        proof {
            assert(v@ =~= s@.take(i as int));
        }
    }
    proof {
        assert(v@ =~= s@);
    }
    v
}

/// A run of `p`-characters of `v` from `from` to `j` exclusive, stopped at
/// `j`, is the longest `p`-prefix of the suffix starting at `from`.
proof fn lemma_prefix_from(v: Seq<char>, from: int, j: int, p: spec_fn(char) -> bool)
    requires
        0 <= from <= j <= v.len(),
        forall|i: int| from <= i < j ==> p(#[trigger] v[i]),
        j < v.len() ==> !p(v[j]),
    ensures
        prefix_len(v.skip(from), p) == j - from,
{
    assert forall|i: int| 0 <= i < j - from implies p(#[trigger] v.skip(from)[i]) by {
        assert(v.skip(from)[i] == v[from + i]);
    }
    if j < v.len() {
        assert(v.skip(from)[j - from] == v[j]);
    }
    lemma_prefix_len_eq(v.skip(from), p, (j - from) as nat);
}

fn scan_type(v: &Vec<char>, from: usize) -> (to: usize)
    requires
        from <= v@.len(),
    ensures
        from <= to <= v@.len(),
        to - from == prefix_len(v@.skip(from as int), type_char_p()),
{
    let mut j = from;
    while j < v.len() && is_type_c(v[j])
        invariant
            from <= j <= v@.len(),
            forall|i: int| from <= i < j ==> is_type_char(#[trigger] v@[i]),
        decreases v@.len() - j,
    {
        j = j + 1;
    }
    proof {
        lemma_prefix_from(v@, from as int, j as int, type_char_p());
    }
    j
}

fn scan_scope(v: &Vec<char>, from: usize) -> (to: usize)
    requires
        from <= v@.len(),
    ensures
        from <= to <= v@.len(),
        to - from == prefix_len(v@.skip(from as int), scope_char_p()),
{
    let mut j = from;
    while j < v.len() && is_scope_c(v[j])
        invariant
            from <= j <= v@.len(),
            forall|i: int| from <= i < j ==> is_scope_char(#[trigger] v@[i]),
        decreases v@.len() - j,
    {
        j = j + 1;
    }
    proof {
        lemma_prefix_from(v@, from as int, j as int, scope_char_p());
    }
    j
}

fn scan_text(v: &Vec<char>, from: usize) -> (to: usize)
    requires
        from <= v@.len(),
    ensures
        from <= to <= v@.len(),
        to - from == prefix_len(v@.skip(from as int), text_char_p()),
{
    let mut j = from;
    while j < v.len() && !is_line_ending(v[j])
        invariant
            from <= j <= v@.len(),
            forall|i: int| from <= i < j ==> is_text_char(#[trigger] v@[i]),
        decreases v@.len() - j,
    {
        j = j + 1;
    }
    proof {
        lemma_prefix_from(v@, from as int, j as int, text_char_p());
    }
    j
}

fn scan_inline_space(v: &Vec<char>, from: usize) -> (to: usize)
    requires
        from <= v@.len(),
    ensures
        from <= to <= v@.len(),
        to - from == prefix_len(v@.skip(from as int), inline_space_p()),
{
    let mut j = from;
    while j < v.len() && is_inline_space_c(v[j])
        invariant
            from <= j <= v@.len(),
            forall|i: int| from <= i < j ==> is_inline_space_char(#[trigger] v@[i]),
        decreases v@.len() - j,
    {
        j = j + 1;
    }
    proof {
        lemma_prefix_from(v@, from as int, j as int, inline_space_p());
    }
    j
}

fn scan_space(v: &Vec<char>, from: usize) -> (to: usize)
    requires
        from <= v@.len(),
    ensures
        from <= to <= v@.len(),
        to - from == prefix_len(v@.skip(from as int), space_p()),
{
    let mut j = from;
    while j < v.len() && is_whitespace(v[j])
        invariant
            from <= j <= v@.len(),
            forall|i: int| from <= i < j ==> is_space_char(#[trigger] v@[i]),
        decreases v@.len() - j,
    {
        j = j + 1;
    }
    proof {
        lemma_prefix_from(v@, from as int, j as int, space_p());
    }
    j
}

/// The end of the line that starts at `from`: one past its `'\n'`
/// terminator, or the end of the input for a final unterminated line.
fn line_end(v: &Vec<char>, from: usize) -> (e: usize)
    requires
        from <= v@.len(),
    ensures
        from <= e <= v@.len(),
        e - from == line_len(v@.skip(from as int)),
{
    let mut j = from;
    while j < v.len() && v[j] != '\n'
        invariant
            from <= j <= v@.len(),
            forall|i: int| from <= i < j ==> #[trigger] v@[i] != '\n',
        decreases v@.len() - j,
    {
        j = j + 1;
    }
    proof {
        lemma_prefix_from(v@, from as int, j as int, non_newline_p());
    }
    if j < v.len() {
        j + 1
    } else {
        j
    }
}

/// Where trailing whitespace starts within `v[from..to]`.
fn trim_to(v: &Vec<char>, from: usize, to: usize) -> (t: usize)
    requires
        from <= to <= v@.len(),
    ensures
        from <= t <= to,
        t - from == trim_len(v@.subrange(from as int, to as int)),
{
    let mut j = to;
    while j > from && is_whitespace(v[j - 1])
        invariant
            from <= j <= to <= v@.len(),
            forall|i: int| j <= i < to ==> is_space_char(#[trigger] v@[i]),
        decreases j,
    {
        j = j - 1;
    }
    proof {
        let s = v@.subrange(from as int, to as int);
        assert forall|i: int| (j - from) <= i < s.len() implies is_space_char(
            #[trigger] s[i],
        ) by {
            assert(s[i] == v@[from + i]);
        }
        if j > from {
            assert(s[j - from - 1] == v@[j - 1]);
        }
        lemma_trim_len_eq(s, (j - from) as nat);
    }
    j
}

/// Is `v[from..to]` blank, that is, all whitespace?
fn blank_range(v: &Vec<char>, from: usize, to: usize) -> (r: bool)
    requires
        from <= to <= v@.len(),
    ensures
        r == all_space(v@.subrange(from as int, to as int)),
{
    let mut j = from;
    while j < to && is_whitespace(v[j])
        invariant
            from <= j <= to <= v@.len(),
            forall|i: int| from <= i < j ==> is_space_char(#[trigger] v@[i]),
        decreases to - j,
    {
        j = j + 1;
    }
    proof {
        let s = v@.subrange(from as int, to as int);
        if j == to {
            assert forall|i: int| 0 <= i < s.len() implies is_space_char(#[trigger] s[i]) by {
                assert(s[i] == v@[from + i]);
            }
        } else {
            assert(s[j - from] == v@[j as int]);
        }
    }
    j == to
}

// ---------------------------------------------------------------------------
// Footer lookahead, executable
// ---------------------------------------------------------------------------

/// The characters of the literal breaking-change phrase.
fn breaking_pattern() -> (r: Vec<char>)
    ensures
        r@ == breaking_phrase(),
{
    let mut r: Vec<char> = Vec::new();
    r.push('B');
    r.push('R');
    r.push('E');
    r.push('A');
    r.push('K');
    r.push('I');
    r.push('N');
    r.push('G');
    r.push(' ');
    r.push('C');
    r.push('H');
    r.push('A');
    r.push('N');
    r.push('G');
    r.push('E');
    proof {
        reveal_strlit("BREAKING CHANGE");
        assert(r@ =~= breaking_phrase());
    }
    r
}

/// Does the literal breaking-change phrase stand at position `q`?
fn breaking_at(v: &Vec<char>, q: usize) -> (r: bool)
    requires
        q <= v@.len(),
    ensures
        r == starts_with_breaking_phrase(v@.skip(q as int)),
{
    let ghost s = v@.skip(q as int);
    let n = v.len();
    if n - q < 15 {
        return false;
    }
    let pat = breaking_pattern();
    proof {
        reveal_strlit("BREAKING CHANGE");
    }
    let mut i: usize = 0;
    while i < 15
        invariant
            i <= 15,
            n == v@.len(),
            q + 15 <= n,
            pat@ == breaking_phrase(),
            pat@.len() == 15,
            s == v@.skip(q as int),
            forall|k: int| 0 <= k < i ==> v@[q + k] == #[trigger] breaking_phrase()[k],
        decreases 15 - i,
    {
        if v[q + i] != pat[i] {
            proof {
                if starts_with_breaking_phrase(s) {
                    assert(s.subrange(0, 15)[i as int] == s[i as int]);
                    assert(s[i as int] == v@[q + i]);
                }
            }
            return false;
        }
        i = i + 1;
    }
    proof {
        assert(s.subrange(0, 15) =~= breaking_phrase()) by {
            assert forall|k: int| 0 <= k < 15 implies s.subrange(0, 15)[k]
                == breaking_phrase()[k] by {
                assert(s.subrange(0, 15)[k] == s[k]);
                assert(s[k] == v@[q + k]);
            }
        }
    }
    true
}

/// The length of the footer token at position `q`.
fn token_len_at(v: &Vec<char>, q: usize) -> (n: usize)
    requires
        q <= v@.len(),
    ensures
        n == spec_token_len(v@.skip(q as int)),
        q + n <= v@.len(),
{
    proof {
        lemma_prefix_len_props(v@.skip(q as int), type_char_p());
    }
    if breaking_at(v, q) {
        15
    } else {
        scan_type(v, q) - q
    }
}

/// The footer separator at absolute position `i`, if any.
fn sep_at(v: &Vec<char>, i: usize) -> (r: Option<FooterSeparator>)
    ensures
        r == spec_sep_at(v@, i as int),
{
    if i >= v.len() {
        None
    } else if v[i] == ':' {
        Some(FooterSeparator::Value)
    } else if v[i] == ' ' && i + 1 < v.len() && v[i + 1] == '#' {
        Some(FooterSeparator::Ref)
    } else {
        None
    }
}

/// The separator of a footer whose token spans `q..q + t`, relative to the
/// suffix starting at `q`.
proof fn lemma_sep_at_shift(v: Seq<char>, q: int, i: int)
    requires
        0 <= q <= v.len(),
        0 <= i,
    ensures
        spec_sep_at(v.skip(q), i) == spec_sep_at(v, q + i),
{
    let s = v.skip(q);
    if i < s.len() {
        assert(s[i] == v[q + i]);
    }
    if i + 1 < s.len() {
        assert(s[i + 1] == v[q + i + 1]);
    }
}

/// One-line lookahead at position `q`: does a `token separator` pair
/// start there?
fn is_footer_start_at(v: &Vec<char>, q: usize) -> (r: bool)
    requires
        q <= v@.len(),
    ensures
        r == is_footer_start(v@.skip(q as int)),
{
    let t = token_len_at(v, q);
    let n = v.len();
    proof {
        lemma_sep_at_shift(v@, q as int, t as int);
        assert(q + t <= n);
    }
    if t == 0 {
        false
    } else {
        match sep_at(v, q + t) {
            Some(_) => true,
            None => false,
        }
    }
}

// ---------------------------------------------------------------------------
// Summary parsing, executable
// ---------------------------------------------------------------------------

/// The positions of the summary parts within the input.
struct SummaryIdx {
    ty_end: usize,
    scope: Option<(usize, usize)>,
    bang: bool,
    desc_start: usize,
    desc_end: usize,
}

impl SummaryIdx {
    /// The positions are ordered and in bounds.
    spec fn wf(self, s: Seq<char>) -> bool {
        &&& self.ty_end <= s.len()
        &&& (self.scope matches Some((a, b)) ==> a <= b <= s.len())
        &&& self.desc_start <= self.desc_end <= s.len()
    }

    /// The summary parts these positions name in `s`.
    spec fn model(self, s: Seq<char>) -> SummaryView {
        SummaryView {
            ty: s.take(self.ty_end as int),
            scope: match self.scope {
                Some((a, b)) => Some(s.subrange(a as int, b as int)),
                None => None,
            },
            bang: self.bang,
            desc: s.subrange(self.desc_start as int, self.desc_end as int),
            end: self.desc_end as nat,
        }
    }
}

/// Parse `!`, `:`, inline whitespace and the description, after the type
/// and optional scope have been consumed up to position `p`.
fn summary_tail_idx(
    v: &Vec<char>,
    ty_end: usize,
    scope: Option<(usize, usize)>,
    p: usize,
) -> (r: Result<SummaryIdx, ErrorKind>)
    requires
        p <= v@.len(),
        ty_end <= v@.len(),
        scope matches Some((a, b)) ==> a <= b <= v@.len(),
    ensures
        match r {
            Ok(si) => {
                &&& si.wf(v@)
                &&& si.ty_end == ty_end
                &&& si.scope == scope
                &&& spec_summary_tail(
                    v@,
                    v@.take(ty_end as int),
                    match scope {
                        Some((a, b)) => Some(v@.subrange(a as int, b as int)),
                        None => None,
                    },
                    p as nat,
                ) == Ok::<SummaryView, ErrorKind>(si.model(v@))
            },
            Err(k) => spec_summary_tail(
                v@,
                v@.take(ty_end as int),
                match scope {
                    Some((a, b)) => Some(v@.subrange(a as int, b as int)),
                    None => None,
                },
                p as nat,
            ) == Err::<SummaryView, ErrorKind>(k),
        },
{
    let n = v.len();
    let bang = p < n && v[p] == '!';
    let q = if bang {
        p + 1
    } else {
        p
    };
    if q >= n || v[q] != ':' {
        if scope.is_none() && !bang {
            return Err(ErrorKind::MissingType);
        } else {
            return Err(ErrorKind::InvalidFormat);
        }
    }
    let w_end = scan_inline_space(v, q + 1);
    let d_end = scan_text(v, w_end);
    proof {
        assert(v@.skip((q + 1) as int).skip((w_end - (q + 1)) as int) =~= v@.skip(w_end as int));
    }
    if d_end == w_end {
        return Err(ErrorKind::MissingDescription);
    }
    let si = SummaryIdx { ty_end, scope, bang, desc_start: w_end, desc_end: d_end };
    proof {
        let s = v@;
        let w = prefix_len(s.skip((q + 1) as int), inline_space_p());
        assert(w_end == q + 1 + w);
        let d = prefix_len(s.skip((q + 1 + w) as int), text_char_p());
        assert(d_end - w_end == d);
        assert(s.skip((q + 1 + w) as int).take(d as int) =~= s.subrange(
            w_end as int,
            d_end as int,
        ));
    }
    Ok(si)
}

/// Parse the summary line of `v`: type, optional scope, tail.
fn summary_idx(v: &Vec<char>) -> (r: Result<SummaryIdx, ErrorKind>)
    ensures
        match r {
            Ok(si) => si.wf(v@) && spec_summary(v@) == Ok::<SummaryView, ErrorKind>(si.model(v@)),
            Err(k) => spec_summary(v@) == Err::<SummaryView, ErrorKind>(k),
        },
{
    let n = v.len();
    let t = scan_type(v, 0);
    proof {
        assert(v@.skip(0) =~= v@);
    }
    if t == 0 {
        return Err(ErrorKind::MissingType);
    }
    if t < n && v[t] == '(' {
        let se = scan_scope(v, t + 1);
        proof {
            assert(v@.skip((t + 1) as int).take((se - (t + 1)) as int) =~= v@.subrange(
                (t + 1) as int,
                se as int,
            ));
        }
        if se == t + 1 {
            return Err(ErrorKind::InvalidScope);
        }
        if se >= n || v[se] != ')' {
            return Err(ErrorKind::InvalidScope);
        }
        summary_tail_idx(v, t, Some((t + 1, se)), se + 1)
    } else {
        summary_tail_idx(v, t, None, t)
    }
}

// ---------------------------------------------------------------------------
// Body and value scans, executable
// ---------------------------------------------------------------------------

/// The end of the stretch of `v` that the body consumes, starting at
/// `start` with the lookahead gate open.
fn body_scan(v: &Vec<char>, start: usize) -> (end: usize)
    requires
        start <= v@.len(),
    ensures
        start <= end <= v@.len(),
        end - start == body_take(v@.skip(start as int), true),
{
    let mut q = start;
    let mut prior: bool = true;
    while q < v.len() && !(prior && is_footer_start_at(v, q))
        invariant
            start <= q <= v@.len(),
            body_take(v@.skip(start as int), true) == (q - start) + scan_take(
                v@.skip(q as int),
                prior,
                true,
            ),
        decreases v@.len() - q,
    {
        let e = line_end(v, q);
        let b = blank_range(v, q, e);
        proof {
            assert(v@.skip(q as int).skip((e - q) as int) =~= v@.skip(e as int));
            assert(v@.skip(q as int).take((e - q) as int) =~= v@.subrange(q as int, e as int));
        }
        prior = b;
        q = e;
    }
    q
}

/// The end of the stretch of `v` that a footer value consumes, starting at
/// `start`: the first line unconditionally, further lines up to the next
/// footer-lookahead match.
fn value_scan(v: &Vec<char>, start: usize) -> (end: usize)
    requires
        start <= v@.len(),
    ensures
        start <= end <= v@.len(),
        end - start == value_take(v@.skip(start as int)),
{
    if start == v.len() {
        return start;
    }
    let e0 = line_end(v, start);
    proof {
        assert(v@.skip(start as int).skip((e0 - start) as int) =~= v@.skip(e0 as int));
    }
    let mut q = e0;
    let ghost mut prior: bool = true;
    while q < v.len() && !is_footer_start_at(v, q)
        invariant
            start <= q <= v@.len(),
            value_take(v@.skip(start as int)) == (q - start) + scan_take(
                v@.skip(q as int),
                prior,
                false,
            ),
        decreases v@.len() - q,
    {
        let e = line_end(v, q);
        proof {
            assert(v@.skip(q as int).skip((e - q) as int) =~= v@.skip(e as int));
            assert(v@.skip(q as int).take((e - q) as int) =~= v@.subrange(q as int, e as int));
            prior = all_space(v@.subrange(q as int, e as int));
        }
        q = e;
    }
    q
}

// ---------------------------------------------------------------------------
// The message parser
// ---------------------------------------------------------------------------

/// A copy of the characters of `s` between two positions.
fn piece(s: &str, from: usize, to: usize) -> (r: String)
    requires
        from <= to <= s@.len(),
    ensures
        r@ == s@.subrange(from as int, to as int),
{
    s.substring_char(from, to).to_owned()
}

/// One parsed footer, with its parts copied out of the input.
#[derive(Debug)]
pub struct RawFooter {
    /// The footer token.
    pub token: String,
    /// The separator between token and value.
    pub separator: FooterSeparator,
    /// The footer value, trimmed of trailing whitespace.
    pub value: String,
}

impl View for RawFooter {
    type V = FooterView;

    open spec fn view(&self) -> FooterView {
        FooterView { token: self.token@, sep: self.separator, value: self.value@ }
    }
}

/// The footers a sequence of raw footers stands for.
pub open spec fn footers_view(fs: Seq<RawFooter>) -> Seq<FooterView> {
    fs.map_values(|f: RawFooter| f@)
}

/// A parsed message, with its parts copied out of the input. `breaking`
/// records only the `!` marker of the summary; the derivation that also
/// consults the footers is made when a `Commit` is built.
#[derive(Debug)]
pub struct RawCommit {
    /// The commit type.
    pub ty: String,
    /// The optional scope.
    pub scope: Option<String>,
    /// Whether the summary carried the `!` marker.
    pub breaking: bool,
    /// The description.
    pub description: String,
    /// The optional body, trimmed of trailing whitespace.
    pub body: Option<String>,
    /// The footers, in order of appearance.
    pub footers: Vec<RawFooter>,
}

impl View for RawCommit {
    type V = MessageView;

    open spec fn view(&self) -> MessageView {
        MessageView {
            ty: self.ty@,
            scope: match self.scope {
                Some(ref sc) => Some(sc@),
                None => None,
            },
            bang: self.breaking,
            desc: self.description@,
            body: match self.body {
                Some(ref b) => Some(b@),
                None => None,
            },
            footers: footers_view(self.footers@),
        }
    }
}

/// The length of the line ending at position `i`, if one stands there.
fn line_ending_at(v: &Vec<char>, i: usize) -> (r: usize)
    requires
        i <= v@.len(),
    ensures
        r == line_ending_len(v@, i as int),
        i + r <= v@.len(),
{
    let n = v.len();
    if i < n && v[i] == '\n' {
        1
    } else if i < n && v[i] == '\r' && i + 1 < n && v[i + 1] == '\n' {
        2
    } else {
        0
    }
}

/// Consume line endings while they match, from position `i`.
fn skip_nl(v: &Vec<char>, i: usize) -> (r: usize)
    requires
        i <= v@.len(),
    ensures
        i <= r <= v@.len(),
        r == skip_newlines(v@, i as nat),
    decreases v@.len() - i,
{
    let n = v.len();
    let l = line_ending_at(v, i);
    proof {
        assert(i + l <= n);
    }
    if l == 0 {
        i
    } else {
        skip_nl(v, i + l)
    }
}

/// What one unfolding of `spec_footers` yields, given where the executable
/// scans of one footer stopped.
#[verifier::rlimit(100)]
pub(crate) proof fn lemma_footer_step(
    v: Seq<char>,
    q: int,
    t: nat,
    sep: FooterSeparator,
    w_end: int,
    v_end: int,
    t_trim: int,
)
    requires
        0 <= q < v.len(),
        spec_token_len(v.skip(q)) == t,
        t > 0,
        spec_sep_at(v.skip(q), t as int) == Some(sep),
        q + t + spec_sep_len(sep) <= w_end <= v.len(),
        w_end - (q + t + spec_sep_len(sep)) == prefix_len(
            v.skip(q + t + spec_sep_len(sep)),
            space_p(),
        ),
        w_end < v.len(),
        w_end <= v_end <= v.len(),
        v_end - w_end == value_take(v.skip(w_end)),
        w_end <= t_trim <= v_end,
        t_trim - w_end == trim_len(v.subrange(w_end, v_end)),
    ensures
        spec_footers(v.skip(q)) == match spec_footers(v.skip(v_end)) {
            Err(k) => Err::<Seq<FooterView>, ErrorKind>(k),
            Ok(fs2) => Ok::<Seq<FooterView>, ErrorKind>(
                seq![
                    FooterView {
                        token: v.subrange(q, q + t),
                        sep,
                        value: v.subrange(w_end, t_trim),
                    },
                ] + fs2,
            ),
        },
{
    let sq = v.skip(q);
    let qq = (t + spec_sep_len(sep)) as int;
    assert(sq.skip(qq) =~= v.skip(q + qq));
    assert(capped((qq + prefix_len(sq.skip(qq), space_p())) as nat, sq.len()) == w_end - q);
    let rest = sq.skip(w_end - q);
    assert(rest =~= v.skip(w_end));
    assert(capped(((w_end - q) + value_take(rest)) as nat, sq.len()) == v_end - q);
    assert(rest.take(v_end - w_end) =~= v.subrange(w_end, v_end));
    assert(trim_end(v.subrange(w_end, v_end)) =~= v.subrange(w_end, t_trim));
    assert(sq.take(t as int) =~= v.subrange(q, q + t));
    assert(sq.skip(v_end - q) =~= v.skip(v_end));
}

/// Appending one raw footer appends its view.
proof fn lemma_footers_view_push(fs: Seq<RawFooter>, f: RawFooter)
    ensures
        footers_view(fs.push(f)) == footers_view(fs).push(f@),
{
    assert(footers_view(fs.push(f)) =~= footers_view(fs).push(f@));
}

/// Parse the footer block that spans from `start` to the end of the input.
#[verifier::rlimit(100)]
fn parse_footers(s: &str, v: &Vec<char>, start: usize) -> (r: Result<Vec<RawFooter>, ErrorKind>)
    requires
        v@ == s@,
        start <= v@.len(),
    ensures
        match r {
            Ok(fs) => spec_footers(v@.skip(start as int)) == Ok::<Seq<FooterView>, ErrorKind>(
                footers_view(fs@),
            ),
            Err(k) => spec_footers(v@.skip(start as int)) == Err::<Seq<FooterView>, ErrorKind>(k),
        },
{
    let n = v.len();
    let mut fs: Vec<RawFooter> = Vec::new();
    let mut q = start;
    while q < n
        invariant
            v@ == s@,
            n == v@.len(),
            start <= q <= n,
            spec_footers(v@.skip(q as int)) matches Ok(t) ==> spec_footers(v@.skip(start as int))
                == Ok::<Seq<FooterView>, ErrorKind>(footers_view(fs@) + t),
            spec_footers(v@.skip(q as int)) matches Err(k) ==> spec_footers(v@.skip(start as int))
                == Err::<Seq<FooterView>, ErrorKind>(k),
        decreases v@.len() - q,
    {
        let t = token_len_at(v, q);
        if t == 0 {
            return Err(ErrorKind::InvalidFormat);
        }
        proof {
            lemma_sep_at_shift(v@, q as int, t as int);
        }
        let sep = match sep_at(v, q + t) {
            None => {
                return Err(ErrorKind::InvalidFormat);
            },
            Some(k) => k,
        };
        let sep_n: usize = match sep {
            FooterSeparator::Value => 1,
            FooterSeparator::Ref => 2,
        };
        proof {
            assert(q + t + sep_n <= n);
        }
        let w_end = scan_space(v, q + t + sep_n);
        if w_end == n {
            proof {
                lemma_prefix_len_props(v@.skip((q + t + sep_n) as int), space_p());
                assert(v@.skip(q as int).skip((t + spec_sep_len(sep)) as int) =~= v@.skip(
                    (q + t + sep_n) as int,
                ));
                assert(v@.skip(q as int).skip((w_end - q) as int) =~= v@.skip(w_end as int));
                assert(capped(
                    ((t + spec_sep_len(sep)) + prefix_len(
                        v@.skip(q as int).skip((t + spec_sep_len(sep)) as int),
                        space_p(),
                    )) as nat,
                    v@.skip(q as int).len(),
                ) == w_end - q);
            }
            return Err(ErrorKind::InvalidFormat);
        }
        let v_end = value_scan(v, w_end);
        let t_trim = trim_to(v, w_end, v_end);
        let f = RawFooter {
            token: piece(s, q, q + t),
            separator: sep,
            value: piece(s, w_end, t_trim),
        };
        let ghost old_fs = fs@;
        fs.push(f);
        proof {
            lemma_footer_step(
                v@,
                q as int,
                t as nat,
                sep,
                w_end as int,
                v_end as int,
                t_trim as int,
            );
            let fv = FooterView {
                token: v@.subrange(q as int, (q + t) as int),
                sep,
                value: v@.subrange(w_end as int, t_trim as int),
            };
            lemma_footers_view_push(old_fs, f);
            assert(f@ == fv);
            match spec_footers(v@.skip(v_end as int)) {
                Ok(t2) => {
                    assert(footers_view(old_fs) + (seq![fv] + t2) =~= footers_view(fs@) + t2);
                },
                Err(_) => {},
            }
        }
        q = v_end;
    }
    proof {
        assert(v@.skip(q as int).len() == 0);
        assert(footers_view(fs@) + Seq::<FooterView>::empty() =~= footers_view(fs@));
    }
    Ok(fs)
}

/// Parse a whole commit message: the entry point of the grammar engine.
pub(crate) fn parse(i: &str) -> (r: Result<RawCommit, ErrorKind>)
    ensures
        match r {
            Ok(rc) => spec_message(i@) == Ok::<MessageView, ErrorKind>(rc@),
            Err(k) => spec_message(i@) == Err::<MessageView, ErrorKind>(k),
        },
{
    message(i)
}

/// Parse a whole commit message.
///
/// The result is exactly what the grammar model `spec_message` assigns to
/// the input, both on success and on failure.
pub fn message(i: &str) -> (r: Result<RawCommit, ErrorKind>)
    ensures
        match r {
            Ok(rc) => spec_message(i@) == Ok::<MessageView, ErrorKind>(rc@),
            Err(k) => spec_message(i@) == Err::<MessageView, ErrorKind>(k),
        },
{
    let v = chars_vec(i);
    let si = match summary_idx(&v) {
        Err(k) => {
            return Err(k);
        },
        Ok(si) => si,
    };
    let n = v.len();
    let p = si.desc_end;
    let ty = piece(i, 0, si.ty_end);
    let scope = match si.scope {
        Some((a, b)) => Some(piece(i, a, b)),
        None => None,
    };
    let description = piece(i, si.desc_start, si.desc_end);
    if p == n {
        let rc = RawCommit {
            ty,
            scope,
            breaking: si.bang,
            description,
            body: None,
            footers: Vec::new(),
        };
        proof {
            assert(footers_view(rc.footers@) =~= Seq::<FooterView>::empty());
        }
        return Ok(rc);
    }
    let l1 = line_ending_at(&v, p);
    if l1 == 0 {
        return Err(ErrorKind::InvalidFormat);
    }
    if p + l1 == n {
        let rc = RawCommit {
            ty,
            scope,
            breaking: si.bang,
            description,
            body: None,
            footers: Vec::new(),
        };
        proof {
            assert(footers_view(rc.footers@) =~= Seq::<FooterView>::empty());
        }
        return Ok(rc);
    }
    let l2 = line_ending_at(&v, p + l1);
    if l2 == 0 {
        return Err(ErrorKind::InvalidBody);
    }
    let p2 = skip_nl(&v, p + l1 + l2);
    let bt_end = body_scan(&v, p2);
    proof {
        assert(v@.skip(p2 as int).take((bt_end - p2) as int) =~= v@.subrange(
            p2 as int,
            bt_end as int,
        ));
        assert(v@.skip(p2 as int).skip((bt_end - p2) as int) =~= v@.skip(bt_end as int));
    }
    let body: Option<String>;
    if bt_end == p2 {
        body = None;
    } else {
        let tt = trim_to(&v, p2, bt_end);
        proof {
            assert(trim_end(v@.subrange(p2 as int, bt_end as int)) =~= v@.subrange(
                p2 as int,
                tt as int,
            ));
        }
        if tt == p2 {
            return Err(ErrorKind::InvalidBody);
        }
        body = Some(piece(i, p2, tt));
    }
    let footers = match parse_footers(i, &v, bt_end) {
        Err(k) => {
            return Err(k);
        },
        Ok(f) => f,
    };
    Ok(RawCommit { ty, scope, breaking: si.bang, description, body, footers })
}

// ---------------------------------------------------------------------------
// The individual grammar rules over `&str`
// ---------------------------------------------------------------------------
//
// Each rule consumes a prefix of its input and hands back the unconsumed
// remainder together with what it matched, exactly as the grammar model
// says.

/// Compare two strings character by character.
pub(crate) fn str_eq(a: &str, b: &str) -> (r: bool)
    ensures
        r == (a@ == b@),
{
    let n = a.unicode_len();
    if n != b.unicode_len() {
        proof {
            assert(a@ != b@);
        }
        return false;
    }
    let mut i: usize = 0;
    while i < n
        invariant
            n == a@.len() == b@.len(),
            i <= n,
            forall|k: int| 0 <= k < i ==> a@[k] == b@[k],
        decreases n - i,
    {
        if a.get_char(i) != b.get_char(i) {
            return false;
        }
        i = i + 1;
    }
    proof {
        assert(a@ =~= b@);
    }
    true
}

/// The `type` rule: one or more characters, none of which are a line
/// terminator, parenthesis, `:`, `!` or whitespace. Fails with
/// `MissingType` on an empty match.
pub fn type_(i: &str) -> (r: Result<(String, String), ErrorKind>)
    ensures
        match r {
            Ok((rest, m)) => {
                &&& prefix_len(i@, type_char_p()) > 0
                &&& m@ == i@.take(prefix_len(i@, type_char_p()) as int)
                &&& rest@ == i@.skip(prefix_len(i@, type_char_p()) as int)
            },
            Err(k) => prefix_len(i@, type_char_p()) == 0 && k == ErrorKind::MissingType,
        },
{
    let v = chars_vec(i);
    proof {
        assert(v@.skip(0) =~= v@);
    }
    let t = scan_type(&v, 0);
    if t == 0 {
        return Err(ErrorKind::MissingType);
    }
    let n = v.len();
    proof {
        assert(i@.subrange(0, t as int) =~= i@.take(t as int));
        assert(i@.subrange(t as int, n as int) =~= i@.skip(t as int));
    }
    Ok((piece(i, t, n), piece(i, 0, t)))
}

/// The `scope` rule: one or more characters that are neither parentheses
/// nor line terminators. Fails with `InvalidScope` on an empty match.
pub fn scope(i: &str) -> (r: Result<(String, String), ErrorKind>)
    ensures
        match r {
            Ok((rest, m)) => {
                &&& prefix_len(i@, scope_char_p()) > 0
                &&& m@ == i@.take(prefix_len(i@, scope_char_p()) as int)
                &&& rest@ == i@.skip(prefix_len(i@, scope_char_p()) as int)
            },
            Err(k) => prefix_len(i@, scope_char_p()) == 0 && k == ErrorKind::InvalidScope,
        },
{
    let v = chars_vec(i);
    proof {
        assert(v@.skip(0) =~= v@);
    }
    let t = scan_scope(&v, 0);
    if t == 0 {
        return Err(ErrorKind::InvalidScope);
    }
    let n = v.len();
    proof {
        assert(i@.subrange(0, t as int) =~= i@.take(t as int));
        assert(i@.subrange(t as int, n as int) =~= i@.skip(t as int));
    }
    Ok((piece(i, t, n), piece(i, 0, t)))
}

/// The `text` rule: one or more characters up to a line terminator.
pub fn text(i: &str) -> (r: Result<(String, String), ErrorKind>)
    ensures
        match r {
            Ok((rest, m)) => {
                &&& prefix_len(i@, text_char_p()) > 0
                &&& m@ == i@.take(prefix_len(i@, text_char_p()) as int)
                &&& rest@ == i@.skip(prefix_len(i@, text_char_p()) as int)
            },
            Err(k) => prefix_len(i@, text_char_p()) == 0 && k == ErrorKind::InvalidFormat,
        },
{
    let v = chars_vec(i);
    proof {
        assert(v@.skip(0) =~= v@);
    }
    let t = scan_text(&v, 0);
    if t == 0 {
        return Err(ErrorKind::InvalidFormat);
    }
    let n = v.len();
    proof {
        assert(i@.subrange(0, t as int) =~= i@.take(t as int));
        assert(i@.subrange(t as int, n as int) =~= i@.skip(t as int));
    }
    Ok((piece(i, t, n), piece(i, 0, t)))
}

/// The `whitespace` rule: zero or more whitespace characters.
pub fn whitespace(i: &str) -> (r: (String, String))
    ensures
        r.1@ == i@.take(prefix_len(i@, space_p()) as int),
        r.0@ == i@.skip(prefix_len(i@, space_p()) as int),
{
    let v = chars_vec(i);
    proof {
        assert(v@.skip(0) =~= v@);
    }
    let t = scan_space(&v, 0);
    let n = v.len();
    proof {
        assert(i@.subrange(0, t as int) =~= i@.take(t as int));
        assert(i@.subrange(t as int, n as int) =~= i@.skip(t as int));
    }
    (piece(i, t, n), piece(i, 0, t))
}

/// The breaking-change marker: a single literal `!`.
pub fn exclamation_mark(i: &str) -> (r: Result<(String, String), ErrorKind>)
    ensures
        match r {
            Ok((rest, m)) => i@.len() > 0 && i@[0] == '!' && m@ == i@.take(1) && rest@ == i@.skip(
                1,
            ),
            Err(k) => (i@.len() == 0 || i@[0] != '!') && k == ErrorKind::InvalidFormat,
        },
{
    let v = chars_vec(i);
    if v.len() == 0 || v[0] != '!' {
        return Err(ErrorKind::InvalidFormat);
    }
    let n = v.len();
    proof {
        assert(i@.subrange(0, 1) =~= i@.take(1));
        assert(i@.subrange(1, n as int) =~= i@.skip(1));
    }
    Ok((piece(i, 1, n), piece(i, 0, 1)))
}

/// The `summary` rule: type, optional scope, optional `!`, `:`, whitespace,
/// description.
pub fn summary(i: &str) -> (r: Result<(String, (String, Option<String>, bool, String)), ErrorKind>)
    ensures
        match r {
            Ok((rest, (ty, sc, bang, desc))) => {
                &&& spec_summary(i@) matches Ok(sv)
                &&& ty@ == sv.ty
                &&& (match (sc, sv.scope) {
                    (Some(a), Some(b)) => a@ == b,
                    (None, None) => true,
                    _ => false,
                })
                &&& bang == sv.bang
                &&& desc@ == sv.desc
                &&& rest@ == i@.skip(sv.end as int)
            },
            Err(k) => spec_summary(i@) == Err::<SummaryView, ErrorKind>(k),
        },
{
    let v = chars_vec(i);
    let si = match summary_idx(&v) {
        Err(k) => {
            return Err(k);
        },
        Ok(si) => si,
    };
    let n = v.len();
    let ty = piece(i, 0, si.ty_end);
    let sc = match si.scope {
        Some((a, b)) => Some(piece(i, a, b)),
        None => None,
    };
    let desc = piece(i, si.desc_start, si.desc_end);
    let rest = piece(i, si.desc_end, n);
    proof {
        assert(i@.subrange(0, si.ty_end as int) =~= i@.take(si.ty_end as int));
        assert(i@.subrange(si.desc_end as int, n as int) =~= i@.skip(si.desc_end as int));
    }
    Ok((rest, (ty, sc, si.bang, desc)))
}

/// The `body` rule: lines up to the gated footer lookahead, trimmed of
/// trailing whitespace. Fails with `InvalidBody` where nothing can be
/// consumed, or where only whitespace was.
pub fn body(i: &str) -> (r: Result<(String, String), ErrorKind>)
    ensures
        match r {
            Ok((rest, b)) => {
                &&& body_take(i@, true) > 0
                &&& trim_len(i@.take(body_take(i@, true) as int)) > 0
                &&& b@ == trim_end(i@.take(body_take(i@, true) as int))
                &&& rest@ == i@.skip(body_take(i@, true) as int)
            },
            Err(k) => k == ErrorKind::InvalidBody && (body_take(i@, true) == 0 || trim_len(
                i@.take(body_take(i@, true) as int),
            ) == 0),
        },
{
    let v = chars_vec(i);
    proof {
        assert(v@.skip(0) =~= v@);
    }
    let e = body_scan(&v, 0);
    if e == 0 {
        return Err(ErrorKind::InvalidBody);
    }
    let t = trim_to(&v, 0, e);
    let n = v.len();
    proof {
        assert(i@.subrange(0, e as int) =~= i@.take(e as int));
        assert(trim_end(i@.take(e as int)) =~= i@.subrange(0, t as int));
        assert(i@.subrange(e as int, n as int) =~= i@.skip(e as int));
    }
    if t == 0 {
        return Err(ErrorKind::InvalidBody);
    }
    Ok((piece(i, e, n), piece(i, 0, t)))
}

/// The `token` rule: the literal breaking-change phrase, or a type-shaped
/// token.
pub fn token(i: &str) -> (r: Result<(String, String), ErrorKind>)
    ensures
        match r {
            Ok((rest, m)) => {
                &&& spec_token_len(i@) > 0
                &&& m@ == i@.take(spec_token_len(i@) as int)
                &&& rest@ == i@.skip(spec_token_len(i@) as int)
            },
            Err(k) => spec_token_len(i@) == 0 && k == ErrorKind::MissingType,
        },
{
    let v = chars_vec(i);
    proof {
        assert(v@.skip(0) =~= v@);
    }
    let t = token_len_at(&v, 0);
    if t == 0 {
        return Err(ErrorKind::MissingType);
    }
    let n = v.len();
    proof {
        assert(i@.subrange(0, t as int) =~= i@.take(t as int));
        assert(i@.subrange(t as int, n as int) =~= i@.skip(t as int));
    }
    Ok((piece(i, t, n), piece(i, 0, t)))
}

/// The `separator` rule: `":"` or `" #"`.
pub fn separator(i: &str) -> (r: Result<(String, String), ErrorKind>)
    ensures
        match r {
            Ok((rest, m)) => {
                &&& spec_sep_at(i@, 0) matches Some(k2)
                &&& m@ == spec_sep_str(k2)
                &&& rest@ == i@.skip(spec_sep_len(k2) as int)
            },
            Err(k) => spec_sep_at(i@, 0) is None && k == ErrorKind::InvalidFormat,
        },
{
    let v = chars_vec(i);
    let k = match sep_at(&v, 0) {
        None => {
            return Err(ErrorKind::InvalidFormat);
        },
        Some(k) => k,
    };
    let l: usize = match k {
        FooterSeparator::Value => 1,
        FooterSeparator::Ref => 2,
    };
    let n = v.len();
    let rest = piece(i, l, n);
    let m = piece(i, 0, l);
    proof {
        reveal_strlit(":");
        reveal_strlit(" #");
        assert(i@.subrange(0, l as int) =~= spec_sep_str(k));
        assert(i@.subrange(l as int, n as int) =~= i@.skip(l as int));
    }
    Ok((rest, m))
}

/// The `value` rule: the first line unconditionally, further lines up to
/// the next footer-lookahead match, trimmed of trailing whitespace. Fails
/// on empty input.
pub fn value(i: &str) -> (r: Result<(String, String), ErrorKind>)
    ensures
        match r {
            Ok((rest, m)) => {
                &&& i@.len() > 0
                &&& m@ == trim_end(i@.take(value_take(i@) as int))
                &&& rest@ == i@.skip(value_take(i@) as int)
            },
            Err(k) => i@.len() == 0 && k == ErrorKind::InvalidFormat,
        },
{
    let v = chars_vec(i);
    if v.len() == 0 {
        return Err(ErrorKind::InvalidFormat);
    }
    proof {
        assert(v@.skip(0) =~= v@);
    }
    let e = value_scan(&v, 0);
    let t = trim_to(&v, 0, e);
    let n = v.len();
    proof {
        assert(i@.subrange(0, e as int) =~= i@.take(e as int));
        assert(trim_end(i@.take(e as int)) =~= i@.subrange(0, t as int));
        assert(i@.subrange(e as int, n as int) =~= i@.skip(e as int));
    }
    Ok((piece(i, e, n), piece(i, 0, t)))
}

/// The separator of the footer that starts `s`, where one does.
pub open spec fn footer_sep(s: Seq<char>) -> FooterSeparator {
    match spec_sep_at(s, spec_token_len(s) as int) {
        Some(k) => k,
        None => FooterSeparator::Value,
    }
}

/// Where the value of the footer that starts `s` begins: after the token,
/// the separator and any whitespace.
pub open spec fn footer_value_start(s: Seq<char>) -> nat {
    let q = spec_token_len(s) + spec_sep_len(footer_sep(s));
    (q + prefix_len(s.skip(q as int), space_p())) as nat
}

/// The `footer` rule: `token separator whitespace* value`.
pub fn footer(i: &str) -> (r: Result<(String, (String, String, String)), ErrorKind>)
    ensures
        match r {
            Ok((rest, (tok, sep, val))) => {
                &&& is_footer_start(i@)
                &&& tok@ == i@.take(spec_token_len(i@) as int)
                &&& sep@ == spec_sep_str(footer_sep(i@))
                &&& i@.skip(footer_value_start(i@) as int).len() > 0
                &&& val@ == trim_end(
                    i@.skip(footer_value_start(i@) as int).take(
                        value_take(i@.skip(footer_value_start(i@) as int)) as int,
                    ),
                )
                &&& rest@ == i@.skip(
                    (footer_value_start(i@) + value_take(
                        i@.skip(footer_value_start(i@) as int),
                    )) as int,
                )
            },
            Err(k) => k == ErrorKind::InvalidFormat && (!is_footer_start(i@) || i@.skip(
                footer_value_start(i@) as int,
            ).len() == 0),
        },
{
    let v = chars_vec(i);
    proof {
        assert(v@.skip(0) =~= v@);
    }
    let t = token_len_at(&v, 0);
    if t == 0 {
        return Err(ErrorKind::InvalidFormat);
    }
    let k = match sep_at(&v, t) {
        None => {
            return Err(ErrorKind::InvalidFormat);
        },
        Some(k) => k,
    };
    let sep_n: usize = match k {
        FooterSeparator::Value => 1,
        FooterSeparator::Ref => 2,
    };
    let n = v.len();
    proof {
        assert(t + sep_n <= n);
    }
    let w_end = scan_space(&v, t + sep_n);
    proof {
        assert(v@.skip((t + sep_n) as int) =~= i@.skip((t + spec_sep_len(k)) as int));
    }
    if w_end == n {
        return Err(ErrorKind::InvalidFormat);
    }
    let v_end = value_scan(&v, w_end);
    let t_trim = trim_to(&v, w_end, v_end);
    let tok = piece(i, 0, t);
    let sep = match k {
        FooterSeparator::Value => piece(i, t, t + 1),
        FooterSeparator::Ref => piece(i, t, t + 2),
    };
    let val = piece(i, w_end, t_trim);
    let rest = piece(i, v_end, n);
    proof {
        reveal_strlit(":");
        reveal_strlit(" #");
        let rest_s = i@.skip(w_end as int);
        assert(i@.subrange(0, t as int) =~= i@.take(t as int));
        assert(sep@ =~= spec_sep_str(k));
        assert(rest_s.take(value_take(rest_s) as int) =~= i@.subrange(w_end as int, v_end as int));
        assert(trim_end(i@.subrange(w_end as int, v_end as int)) =~= i@.subrange(
            w_end as int,
            t_trim as int,
        ));
        assert(i@.subrange(v_end as int, n as int) =~= i@.skip(v_end as int));
    }
    Ok((rest, (tok, sep, val)))
}

} // verus!
