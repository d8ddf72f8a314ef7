//! Round-trip laws: rendering a parsed commit and parsing it again yields
//! the same commit.
//!
//! The proofs rest on a small theory of the scans: the footer lookahead
//! and the line-by-line scans are insensitive to cutting a text at a line
//! boundary, to removing trailing whitespace, and to extending it with a
//! newline and further text.

use vstd::prelude::*;

use crate::commit::CommitView;
use crate::commit::FooterSeparator;
use crate::commit::commit_of;
use crate::commit::first_breaking_value;
use crate::commit::spec_render;
use crate::commit::spec_render_footers;
use crate::commit::spec_render_summary;
use crate::commit::spec_sep_str;
use crate::error::ErrorKind;
use crate::parser::FooterView;
use crate::parser::MessageView;
use crate::parser::SummaryView;
use crate::parser::all_space;
use crate::parser::body_take;
use crate::parser::breaking_phrase;
use crate::parser::capped;
use crate::parser::is_footer_start;
use crate::parser::is_space_char;
use crate::parser::is_type_char;
use crate::parser::lemma_line_len_props;
use crate::parser::lemma_prefix_len_app;
use crate::parser::lemma_prefix_len_eq;
use crate::parser::lemma_prefix_len_props;
use crate::parser::lemma_prefix_len_take;
use crate::parser::lemma_scan_take_le;
use crate::parser::lemma_trim_len_eq;
use crate::parser::lemma_trim_len_props;
use crate::parser::lemma_value_take_le;
use crate::parser::line_len;
use crate::parser::non_newline_p;
use crate::parser::prefix_len;
use crate::parser::scan_take;
use crate::parser::space_p;
use crate::parser::spec_footers;
use crate::parser::spec_message;
use crate::parser::spec_sep_at;
use crate::parser::spec_sep_len;
use crate::parser::spec_summary;
use crate::parser::spec_summary_tail;
use crate::parser::spec_token_len;
use crate::parser::starts_with_breaking_phrase;
use crate::parser::trim_end;
use crate::parser::trim_len;
use crate::parser::type_char_p;
use crate::parser::value_take;

verus! {

/// The characters of the breaking-change phrase: fifteen characters, a
/// space only in the middle, no separator or line-ending characters.
proof fn lemma_phrase_facts()
    ensures
        breaking_phrase().len() == 15,
        breaking_phrase()[0] == 'B',
        breaking_phrase()[8] == ' ',
        breaking_phrase()[9] == 'C',
        breaking_phrase()[14] == 'E',
        forall|j: int| 0 <= j < 15 ==> #[trigger] breaking_phrase()[j] != '\n',
        forall|j: int| 0 <= j < 15 ==> #[trigger] breaking_phrase()[j] != ':',
        forall|j: int| 0 <= j < 15 ==> #[trigger] breaking_phrase()[j] != '#',
        forall|j: int| 0 <= j < 15 && j != 8 ==> !is_space_char(#[trigger] breaking_phrase()[j]),
{
    reveal_strlit("BREAKING CHANGE");
}

/// Cutting a text at or after the end of its first line does not change
/// the footer lookahead.
proof fn lemma_lookahead_take(s: Seq<char>, k: int)
    requires
        line_len(s) <= k <= s.len(),
    ensures
        spec_token_len(s.take(k)) == spec_token_len(s),
        spec_sep_at(s.take(k), spec_token_len(s) as int) == spec_sep_at(
            s,
            spec_token_len(s) as int,
        ),
        is_footer_start(s.take(k)) == is_footer_start(s),
{
    lemma_phrase_facts();
    lemma_line_len_props(s);
    lemma_prefix_len_props(s, non_newline_p());
    let c = s.take(k);
    if k == s.len() {
        assert(c =~= s);
    } else {
        let l = line_len(s) as int;
        let n = prefix_len(s, non_newline_p()) as int;
        assert(l == n + 1);
        assert(s[n] == '\n');
        lemma_prefix_len_take(s, type_char_p(), k);
        lemma_prefix_len_props(s, type_char_p());
        let pt = prefix_len(s, type_char_p()) as int;
        if pt > n {
            assert(type_char_p()(s[n]));
            assert(false);
        }
        assert(prefix_len(c, type_char_p()) == pt);
        if starts_with_breaking_phrase(s) {
            assert forall|j: int| 0 <= j < 15 implies s[j] != '\n' by {
                assert(s.subrange(0, 15)[j] == s[j]);
            }
            assert(n >= 15);
            assert(c.subrange(0, 15) =~= s.subrange(0, 15));
            assert(starts_with_breaking_phrase(c));
        } else {
            if starts_with_breaking_phrase(c) {
                assert(s.subrange(0, 15) =~= c.subrange(0, 15));
                assert(false);
            }
        }
        assert(spec_token_len(c) == spec_token_len(s));
        let t = spec_token_len(s) as int;
        assert(t <= n);
        if t < n {
            assert(c[t] == s[t]);
            assert(c[t + 1] == s[t + 1]);
        } else {
            assert(c[t] == s[t]);
        }
        assert(spec_sep_at(c, t) == spec_sep_at(s, t));
    }
}

/// Removing a whitespace-only suffix does not change the footer
/// lookahead.
proof fn lemma_lookahead_ws_suffix(s: Seq<char>, m: int)
    requires
        0 <= m <= s.len(),
        forall|i: int| m <= i < s.len() ==> is_space_char(#[trigger] s[i]),
    ensures
        spec_token_len(s.take(m)) == spec_token_len(s),
        spec_sep_at(s.take(m), spec_token_len(s) as int) == spec_sep_at(
            s,
            spec_token_len(s) as int,
        ),
        is_footer_start(s.take(m)) == is_footer_start(s),
{
    lemma_phrase_facts();
    let c = s.take(m);
    if m == s.len() {
        assert(c =~= s);
    } else {
        if starts_with_breaking_phrase(s) {
            if m < 15 {
                assert(s.subrange(0, 15)[14] == s[14]);
                assert(is_space_char(s[14]));
                assert(!is_space_char(breaking_phrase()[14]));
                assert(false);
            }
            assert(c.subrange(0, 15) =~= s.subrange(0, 15));
            assert(starts_with_breaking_phrase(c));
        } else {
            if starts_with_breaking_phrase(c) {
                assert(s.subrange(0, 15) =~= c.subrange(0, 15));
                assert(false);
            }
        }
        lemma_prefix_len_take(s, type_char_p(), m);
        lemma_prefix_len_props(s, type_char_p());
        let pt = prefix_len(s, type_char_p()) as int;
        if pt > m {
            assert(type_char_p()(s[m]));
            assert(is_space_char(s[m]));
            assert(false);
        }
        assert(prefix_len(c, type_char_p()) == pt);
        assert(spec_token_len(c) == spec_token_len(s));
        let t = spec_token_len(s) as int;
        match spec_sep_at(s, t) {
            Some(FooterSeparator::Value) => {
                assert(s[t] == ':');
                assert(!is_space_char(':'));
                assert(t < m);
                assert(c[t] == s[t]);
            },
            Some(FooterSeparator::Ref) => {
                assert(s[t] == ' ' && s[t + 1] == '#');
                assert(!is_space_char('#'));
                assert(t + 1 < m);
                assert(c[t] == s[t]);
                assert(c[t + 1] == s[t + 1]);
            },
            None => {
                if spec_sep_at(c, t) is Some {
                    if t < c.len() && c[t] == ':' {
                        assert(s[t] == ':');
                        assert(false);
                    } else {
                        assert(c[t] == ' ' && c[t + 1] == '#');
                        assert(s[t] == ' ' && s[t + 1] == '#');
                        assert(false);
                    }
                }
            },
        }
        assert(spec_sep_at(c, t) == spec_sep_at(s, t));
    }
}

/// Extending a newline-free text with a newline and anything further does
/// not change the footer lookahead.
proof fn lemma_lookahead_nl_ext(a: Seq<char>, t: Seq<char>)
    requires
        forall|i: int| 0 <= i < a.len() ==> #[trigger] a[i] != '\n',
        t.len() > 0,
        t[0] == '\n',
    ensures
        spec_token_len(a + t) == spec_token_len(a),
        spec_sep_at(a + t, spec_token_len(a) as int) == spec_sep_at(a, spec_token_len(a) as int),
        is_footer_start(a + t) == is_footer_start(a),
{
    lemma_phrase_facts();
    let s = a + t;
    assert(a =~= s.take(a.len() as int));
    if starts_with_breaking_phrase(s) {
        if a.len() < 15 {
            assert(s.subrange(0, 15)[a.len() as int] == s[a.len() as int]);
            assert(s[a.len() as int] == t[0]);
            assert(false);
        }
        assert(a.subrange(0, 15) =~= s.subrange(0, 15));
        assert(starts_with_breaking_phrase(a));
    } else {
        if starts_with_breaking_phrase(a) {
            assert(s.subrange(0, 15) =~= a.subrange(0, 15));
            assert(false);
        }
    }
    lemma_prefix_len_take(s, type_char_p(), a.len() as int);
    lemma_prefix_len_props(s, type_char_p());
    let pt = prefix_len(s, type_char_p()) as int;
    if pt > a.len() {
        assert(type_char_p()(s[a.len() as int]));
        assert(s[a.len() as int] == t[0]);
        assert(false);
    }
    assert(prefix_len(a, type_char_p()) == pt);
    assert(spec_token_len(s) == spec_token_len(a));
    let t0 = spec_token_len(a) as int;
    assert(t0 <= a.len());
    if t0 == a.len() {
        assert(s[t0] == t[0]);
        assert(spec_sep_at(a, t0) is None);
        assert(spec_sep_at(s, t0) is None);
    } else {
        assert(s[t0] == a[t0]);
        if t0 + 1 == a.len() {
            assert(s[t0 + 1] == t[0]);
            assert(spec_sep_at(s, t0) == spec_sep_at(a, t0));
        } else {
            assert(s[t0 + 1] == a[t0 + 1]);
            assert(spec_sep_at(s, t0) == spec_sep_at(a, t0));
        }
    }
}

// ---------------------------------------------------------------------------
// Line arithmetic
// ---------------------------------------------------------------------------

/// Cutting a text at or after the end of its first line keeps that line.
proof fn lemma_line_len_take(s: Seq<char>, k: int)
    requires
        line_len(s) <= k <= s.len(),
    ensures
        line_len(s.take(k)) == line_len(s),
{
    lemma_line_len_props(s);
    lemma_prefix_len_props(s, non_newline_p());
    let n = prefix_len(s, non_newline_p()) as int;
    if k == s.len() {
        assert(s.take(k) =~= s);
    } else {
        lemma_prefix_len_take(s, non_newline_p(), k);
    }
}

/// Appending to a text whose first line is terminated keeps that line.
proof fn lemma_line_len_app_term(a: Seq<char>, t: Seq<char>)
    requires
        prefix_len(a, non_newline_p()) < a.len(),
    ensures
        line_len(a + t) == line_len(a),
{
    let n = prefix_len(a, non_newline_p());
    lemma_prefix_len_props(a, non_newline_p());
    let s = a + t;
    assert forall|j: int| 0 <= j < n implies s[j] != '\n' by {
        assert(s[j] == a[j]);
        assert(non_newline_p()(a[j]));
    }
    assert(s[n as int] == a[n as int]);
    assert(!(non_newline_p()(a[n as int])));
    lemma_prefix_len_eq(s, non_newline_p(), n);
}

/// Appending a newline and more to a newline-free text makes its first
/// line one character longer.
proof fn lemma_line_len_app_unterm(a: Seq<char>, t: Seq<char>)
    requires
        forall|i: int| 0 <= i < a.len() ==> #[trigger] a[i] != '\n',
        t.len() > 0,
        t[0] == '\n',
    ensures
        line_len(a + t) == a.len() + 1,
{
    assert forall|i: int| 0 <= i < a.len() implies non_newline_p()((a + t)[i]) by {
        assert((a + t)[i] == a[i]);
    }
    assert((a + t)[a.len() as int] == t[0]);
    lemma_prefix_len_eq(a + t, non_newline_p(), a.len() as nat);
}

// ---------------------------------------------------------------------------
// Scan stability
// ---------------------------------------------------------------------------

/// The ungated scan does not depend on the prior-line flag.
proof fn lemma_scan_ungated_prior(s: Seq<char>, a: bool, b: bool)
    ensures
        scan_take(s, a, false) == scan_take(s, b, false),
    decreases s.len(),
{
    if s.len() == 0 {
    } else if is_footer_start(s) {
    } else {
        let l = line_len(s) as int;
        lemma_line_len_props(s);
        lemma_scan_ungated_prior(
            s.skip(l),
            all_space(s.take(l)),
            all_space(s.take(l)),
        );
    }
}

/// What the scan consumes, it consumes again when cut out: the consumed
/// prefix scans to its own end.
proof fn lemma_scan_take_prefix(s: Seq<char>, pr: bool, g: bool)
    ensures
        scan_take(s.take(scan_take(s, pr, g) as int), pr, g) == scan_take(s, pr, g),
    decreases s.len(),
{
    lemma_scan_take_le(s, pr, g);
    let k = scan_take(s, pr, g) as int;
    let c = s.take(k);
    if k == 0 {
        assert(c =~= Seq::<char>::empty());
    } else {
        let l = line_len(s) as int;
        lemma_line_len_props(s);
        let rest = s.skip(l);
        let b = all_space(s.take(l));
        lemma_scan_take_le(rest, b, g);
        if k == s.len() {
            assert(c =~= s);
        } else {
            lemma_line_len_take(s, k);
            lemma_lookahead_take(s, k);
            assert(c.take(l) =~= s.take(l));
            assert(c.skip(l) =~= rest.take(k - l));
            lemma_scan_take_prefix(rest, b, g);
            assert(scan_take(c, pr, g) == l + scan_take(c.skip(l), all_space(c.take(l)), g));
        }
    }
}

/// A fully consumed text is still fully consumed once its trailing
/// whitespace is removed.
proof fn lemma_scan_take_trim(s: Seq<char>, pr: bool, g: bool)
    requires
        scan_take(s, pr, g) == s.len(),
    ensures
        scan_take(trim_end(s), pr, g) == trim_len(s),
    decreases s.len(),
{
    lemma_trim_len_props(s);
    let tl = trim_len(s) as int;
    let bs = trim_end(s);
    if s.len() == 0 {
        assert(bs =~= s);
    } else {
        let l = line_len(s) as int;
        lemma_line_len_props(s);
        let rest = s.skip(l);
        let blank0 = all_space(s.take(l));
        lemma_scan_take_le(rest, blank0, g);
        if tl == 0 {
            assert(bs =~= Seq::<char>::empty());
        } else if tl == s.len() {
            assert(bs =~= s);
        } else if tl >= l {
            assert forall|j: int| tl - l <= j < rest.len() implies is_space_char(
                #[trigger] rest[j],
            ) by {
                assert(rest[j] == s[l + j]);
            }
            if tl - l > 0 {
                assert(rest[tl - l - 1] == s[tl - 1]);
            }
            lemma_trim_len_eq(rest, (tl - l) as nat);
            lemma_line_len_take(s, tl);
            lemma_lookahead_take(s, tl);
            assert(bs.take(l) =~= s.take(l));
            assert(bs.skip(l) =~= rest.take(tl - l));
            assert(rest.take(tl - l) =~= trim_end(rest));
            lemma_scan_take_trim(rest, blank0, g);
            assert(scan_take(bs, pr, g) == l + scan_take(bs.skip(l), all_space(bs.take(l)), g));
        } else {
            lemma_lookahead_ws_suffix(s, tl);
            assert forall|j: int| 0 <= j < tl implies #[trigger] bs[j] != '\n' by {
                assert(bs[j] == s[j]);
            }
            lemma_prefix_len_eq(bs, non_newline_p(), tl as nat);
            assert(line_len(bs) == tl);
            assert(bs.skip(tl) =~= Seq::<char>::empty());
            assert(scan_take(bs, pr, g) == tl + scan_take(
                bs.skip(tl),
                all_space(bs.take(tl)),
                g,
            ));
        }
    }
}

/// What the value scan consumes, it consumes again when cut out.
proof fn lemma_value_take_prefix(s: Seq<char>)
    ensures
        value_take(s.take(value_take(s) as int)) == value_take(s),
{
    lemma_value_take_le(s);
    let k = value_take(s) as int;
    let c = s.take(k);
    if s.len() == 0 {
        assert(c =~= s);
    } else if k == s.len() {
        assert(c =~= s);
    } else {
        let l = line_len(s) as int;
        lemma_line_len_props(s);
        let rest = s.skip(l);
        lemma_scan_take_le(rest, true, false);
        lemma_line_len_take(s, k);
        assert(c.skip(l) =~= rest.take(k - l));
        lemma_scan_take_prefix(rest, true, false);
    }
}

/// A fully consumed value text is still fully consumed once its trailing
/// whitespace is removed.
proof fn lemma_value_take_trim(s: Seq<char>)
    requires
        value_take(s) == s.len(),
    ensures
        value_take(trim_end(s)) == trim_len(s),
{
    lemma_trim_len_props(s);
    let tl = trim_len(s) as int;
    let bs = trim_end(s);
    if s.len() == 0 {
        assert(bs =~= s);
    } else if tl == 0 {
        assert(bs =~= Seq::<char>::empty());
    } else if tl == s.len() {
        assert(bs =~= s);
    } else {
        let l = line_len(s) as int;
        lemma_line_len_props(s);
        let rest = s.skip(l);
        lemma_scan_take_le(rest, true, false);
        if tl >= l {
            assert forall|j: int| tl - l <= j < rest.len() implies is_space_char(
                #[trigger] rest[j],
            ) by {
                assert(rest[j] == s[l + j]);
            }
            if tl - l > 0 {
                assert(rest[tl - l - 1] == s[tl - 1]);
            }
            lemma_trim_len_eq(rest, (tl - l) as nat);
            lemma_line_len_take(s, tl);
            assert(bs.skip(l) =~= rest.take(tl - l));
            assert(rest.take(tl - l) =~= trim_end(rest));
            lemma_scan_take_trim(rest, true, false);
        } else {
            assert forall|j: int| 0 <= j < tl implies #[trigger] bs[j] != '\n' by {
                assert(bs[j] == s[j]);
            }
            lemma_prefix_len_eq(bs, non_newline_p(), tl as nat);
            assert(line_len(bs) == tl);
            assert(bs.skip(tl) =~= Seq::<char>::empty());
        }
    }
}

/// Appending whitespace does not move the trim point.
proof fn lemma_trim_append(a: Seq<char>, t: Seq<char>)
    requires
        forall|i: int| 0 <= i < t.len() ==> is_space_char(#[trigger] t[i]),
    ensures
        trim_len(a + t) == trim_len(a),
    decreases t.len(),
{
    if t.len() == 0 {
        assert(a + t =~= a);
    } else {
        assert((a + t).drop_last() =~= a + t.drop_last());
        assert((a + t).last() == t.last());
        assert forall|i: int| 0 <= i < t.drop_last().len() implies is_space_char(
            #[trigger] t.drop_last()[i],
        ) by {
            assert(t.drop_last()[i] == t[i]);
        }
        lemma_trim_append(a, t.drop_last());
    }
}

/// A gated scan that consumes all of a text with a non-whitespace last
/// character continues across an appended newline, with the prior line
/// then counting as non-blank.
proof fn lemma_scan_take_append(a: Seq<char>, t: Seq<char>, pr: bool, g: bool)
    requires
        a.len() > 0,
        !is_space_char(a.last()),
        scan_take(a, pr, g) == a.len(),
        t.len() > 0,
        t[0] == '\n',
    ensures
        scan_take(a + t, pr, g) == a.len() + 1 + scan_take(t.skip(1), false, g),
    decreases a.len(),
{
    let s = a + t;
    lemma_line_len_props(a);
    lemma_prefix_len_props(a, non_newline_p());
    let l = line_len(a) as int;
    let n = prefix_len(a, non_newline_p()) as int;
    if l == a.len() {
        if n < a.len() {
            assert(a[n] == '\n');
            assert(n == a.len() - 1);
            assert(is_space_char(a.last()));
            assert(false);
        }
        assert forall|i: int| 0 <= i < a.len() implies #[trigger] a[i] != '\n' by {
            assert(non_newline_p()(a[i]));
        }
        lemma_lookahead_nl_ext(a, t);
        lemma_line_len_app_unterm(a, t);
        assert(s.skip(a.len() + 1 as int) =~= t.skip(1));
        assert(s.take(a.len() + 1 as int)[a.len() - 1] == a.last());
        assert(!all_space(s.take(a.len() + 1 as int)));
        assert(scan_take(s, pr, g) == (a.len() + 1) + scan_take(t.skip(1), false, g));
    } else {
        lemma_line_len_app_term(a, t);
        lemma_lookahead_take(s, a.len() as int);
        assert(s.take(a.len() as int) =~= a);
        assert(s.take(l) =~= a.take(l));
        assert(s.skip(l) =~= a.skip(l) + t);
        let a2 = a.skip(l);
        assert(a2.len() > 0);
        assert(a2.last() == a.last());
        if n == a.len() - 1 {
            assert(a[n] == '\n');
            assert(is_space_char(a.last()));
            assert(false);
        }
        lemma_scan_take_append(a2, t, all_space(a.take(l)), g);
        assert(scan_take(s, pr, g) == l + scan_take(a2 + t, all_space(s.take(l)), g));
    }
}

/// A fully consumed value with a non-whitespace last character continues
/// across an appended newline.
proof fn lemma_value_take_append(a: Seq<char>, t: Seq<char>)
    requires
        a.len() > 0,
        !is_space_char(a.last()),
        value_take(a) == a.len(),
        t.len() > 0,
        t[0] == '\n',
    ensures
        value_take(a + t) == a.len() + 1 + scan_take(t.skip(1), false, false),
{
    let s = a + t;
    lemma_line_len_props(a);
    lemma_prefix_len_props(a, non_newline_p());
    let l = line_len(a) as int;
    let n = prefix_len(a, non_newline_p()) as int;
    if l == a.len() {
        if n < a.len() {
            assert(a[n] == '\n');
            assert(n == a.len() - 1);
            assert(is_space_char(a.last()));
            assert(false);
        }
        assert forall|i: int| 0 <= i < a.len() implies #[trigger] a[i] != '\n' by {
            assert(non_newline_p()(a[i]));
        }
        lemma_line_len_app_unterm(a, t);
        assert(s.skip(a.len() + 1 as int) =~= t.skip(1));
        lemma_scan_ungated_prior(t.skip(1), true, false);
    } else {
        lemma_line_len_app_term(a, t);
        assert(s.skip(l) =~= a.skip(l) + t);
        let a2 = a.skip(l);
        assert(a2.len() > 0);
        assert(a2.last() == a.last());
        if n == a.len() - 1 {
            assert(a[n] == '\n');
            assert(is_space_char(a.last()));
            assert(false);
        }
        lemma_scan_take_append(a2, t, true, false);
    }
}

// ---------------------------------------------------------------------------
// Shapes of parsed parts
// ---------------------------------------------------------------------------

/// A valid commit type: non-empty, type characters only.
pub open spec fn type_text(t: Seq<char>) -> bool {
    t.len() > 0 && forall|i: int| 0 <= i < t.len() ==> is_type_char(#[trigger] t[i])
}

/// A valid scope: non-empty, scope characters only.
pub open spec fn scope_text(t: Seq<char>) -> bool {
    t.len() > 0 && forall|i: int| 0 <= i < t.len() ==> crate::parser::is_scope_char(
        #[trigger] t[i],
    )
}

/// A valid description: non-empty, one line, not starting with
/// whitespace.
pub open spec fn desc_text(d: Seq<char>) -> bool {
    &&& d.len() > 0
    &&& (forall|i: int| 0 <= i < d.len() ==> crate::parser::is_text_char(#[trigger] d[i]))
    &&& !is_space_char(d[0])
}

/// A valid footer token: the breaking-change phrase or a type-shaped
/// token.
pub open spec fn token_text(t: Seq<char>) -> bool {
    t == breaking_phrase() || type_text(t)
}

/// The shape of a parsed body: non-empty, trimmed, not opening with a
/// line ending, and fully consumed by the gated line scan.
pub open spec fn body_text(b: Seq<char>) -> bool {
    &&& b.len() > 0
    &&& !is_space_char(b.last())
    &&& b[0] != '\n'
    &&& !(b[0] == '\r' && b.len() > 1 && b[1] == '\n')
    &&& body_take(b, true) == b.len()
}

/// The shape of a parsed footer value: non-empty, trimmed at both ends,
/// fully consumed by the value scan.
pub open spec fn value_text(v: Seq<char>) -> bool {
    &&& v.len() > 0
    &&& !is_space_char(v[0])
    &&& !is_space_char(v.last())
    &&& value_take(v) == v.len()
}

/// The shape of a parsed footer.
pub open spec fn footer_wf(f: FooterView) -> bool {
    token_text(f.token) && value_text(f.value)
}

/// The shape of a parsed commit: each part as parsing produces it, and
/// the breaking-change fields derived consistently.
pub open spec fn commit_wf(c: CommitView) -> bool {
    &&& type_text(c.ty)
    &&& (c.scope matches Some(sc) ==> scope_text(sc))
    &&& desc_text(c.description)
    &&& (c.body matches Some(b) ==> body_text(b))
    &&& (forall|k: int| 0 <= k < c.footers.len() ==> footer_wf(#[trigger] c.footers[k]))
    &&& c.breaking_description == (match first_breaking_value(c.footers) {
        Some(v) => Some(v),
        None => if c.breaking {
            Some(c.description)
        } else {
            None
        },
    })
    &&& c.breaking == (c.breaking_description is Some)
}

/// The message whose parse a commit stands for: its parts, with the `!`
/// marker set exactly when the commit is breaking.
pub open spec fn message_of(c: CommitView) -> MessageView {
    MessageView {
        ty: c.ty,
        scope: c.scope,
        bang: c.breaking,
        desc: c.description,
        body: c.body,
        footers: c.footers,
    }
}

// ---------------------------------------------------------------------------
// The footer block
// ---------------------------------------------------------------------------

/// The footer block as text: the footers rendered without the leading
/// blank line of the first one.
pub open spec fn footers_block(fs: Seq<FooterView>) -> Seq<char>
    decreases fs.len(),
{
    if fs.len() == 0 {
        Seq::<char>::empty()
    } else {
        fs[0].token + spec_sep_str(fs[0].sep) + fs[0].value + spec_render_footers(
            fs.drop_first(),
        )
    }
}

/// Rendered footers are a blank line followed by the footer block.
proof fn lemma_render_block(fs: Seq<FooterView>)
    requires
        fs.len() > 0,
    ensures
        spec_render_footers(fs) == "\n\n"@ + footers_block(fs),
{
    assert(spec_render_footers(fs) =~= "\n\n"@ + footers_block(fs));
}

/// A footer text `token separator tail` passes the footer lookahead with
/// exactly that token and separator.
proof fn lemma_footer_text_lookahead(tok: Seq<char>, sep: FooterSeparator, tail: Seq<char>)
    requires
        token_text(tok),
    ensures
        spec_token_len(tok + spec_sep_str(sep) + tail) == tok.len(),
        spec_sep_at(tok + spec_sep_str(sep) + tail, tok.len() as int) == Some(sep),
        is_footer_start(tok + spec_sep_str(sep) + tail),
{
    lemma_phrase_facts();
    reveal_strlit(":");
    reveal_strlit(" #");
    let ss = spec_sep_str(sep);
    let f = tok + ss + tail;
    let ln = tok.len() as int;
    assert(ss.len() == spec_sep_len(sep));
    assert(f[ln] == ss[0]);
    if tok == breaking_phrase() {
        assert(f.subrange(0, 15) =~= tok);
        assert(starts_with_breaking_phrase(f));
        assert(spec_token_len(f) == 15);
    } else {
        if starts_with_breaking_phrase(f) {
            let sub = f.subrange(0, 15);
            if ln > 8 {
                assert(sub[8] == f[8]);
                assert(f[8] == tok[8]);
                assert(is_type_char(tok[8]));
                assert(is_space_char(' '));
                assert(false);
            } else if ln == 8 {
                assert(sub[8] == f[8]);
                match sep {
                    FooterSeparator::Value => {
                        assert(f[8] == ':');
                        assert(false);
                    },
                    FooterSeparator::Ref => {
                        assert(f[8] == ' ');
                        assert(sub[9] == f[9]);
                        assert(f[9] == ss[1]);
                        assert(f[9] == '#');
                        assert(false);
                    },
                }
            } else {
                assert(sub[ln] == f[ln]);
                match sep {
                    FooterSeparator::Value => {
                        assert(f[ln] == ':');
                        assert(false);
                    },
                    FooterSeparator::Ref => {
                        assert(f[ln] == ' ');
                        assert(is_space_char(' '));
                        assert(!is_space_char(breaking_phrase()[ln]));
                        assert(false);
                    },
                }
            }
        }
        assert(f =~= tok + (ss + tail));
        assert((ss + tail)[0] == ss[0]);
        match sep {
            FooterSeparator::Value => {
                assert(!is_type_char(':'));
            },
            FooterSeparator::Ref => {
                assert(is_space_char(' '));
                assert(!is_type_char(' '));
            },
        }
        lemma_prefix_len_app(tok, ss + tail, type_char_p());
        assert(spec_token_len(f) == tok.len());
    }
    match sep {
        FooterSeparator::Value => {
            assert(f[ln] == ':');
            assert(spec_sep_at(f, ln) == Some(FooterSeparator::Value));
        },
        FooterSeparator::Ref => {
            assert(f[ln] == ' ');
            assert(f[ln + 1] == ss[1]);
            assert(f[ln + 1] == '#');
            assert(spec_sep_at(f, ln) == Some(FooterSeparator::Ref));
        },
    }
}

/// How a footer value followed by the rendering of the remaining footers
/// is consumed: the value, the blank line when more footers follow, and
/// the scan stops exactly at the next footer block.
#[verifier::rlimit(60)]
proof fn lemma_block_value_region(val: Seq<char>, fs1: Seq<FooterView>)
    requires
        value_text(val),
        fs1.len() > 0 ==> footer_wf(fs1[0]),
    ensures
        value_take(val + spec_render_footers(fs1)) == val.len() + (if fs1.len() == 0 {
            0int
        } else {
            2int
        }),
        trim_end(
            (val + spec_render_footers(fs1)).take(
                value_take(val + spec_render_footers(fs1)) as int,
            ),
        ) == val,
        (val + spec_render_footers(fs1)).skip(value_take(val + spec_render_footers(fs1)) as int)
            == footers_block(fs1),
{
    let rtail = spec_render_footers(fs1);
    let rest = val + rtail;
    if fs1.len() == 0 {
        assert(rtail.len() == 0);
        assert(rest =~= val);
        lemma_trim_len_eq(val, val.len());
        assert(rest.take(val.len() as int) =~= val);
        assert(trim_end(rest.take(val.len() as int)) =~= val);
        assert(rest.skip(val.len() as int) =~= Seq::<char>::empty());
        assert(footers_block(fs1) =~= Seq::<char>::empty());
    } else {
        reveal_strlit("\n\n");
        lemma_phrase_facts();
        lemma_render_block(fs1);
        let blk2 = footers_block(fs1);
        assert(rtail == "\n\n"@ + blk2);
        let t2 = "\n\n"@ + blk2;
        assert(t2.len() >= 2);
        assert(t2[0] == '\n');
        assert(t2[1] == '\n');
        lemma_value_take_append(val, t2);
        let s3 = t2.skip(1);
        let f1 = fs1[0];
        lemma_footer_text_lookahead(
            f1.token,
            f1.sep,
            f1.value + spec_render_footers(fs1.drop_first()),
        );
        assert(blk2 =~= f1.token + spec_sep_str(f1.sep) + (f1.value + spec_render_footers(
            fs1.drop_first(),
        )));
        assert(is_footer_start(blk2));
        assert(s3[0] == '\n');
        if starts_with_breaking_phrase(s3) {
            assert(s3.subrange(0, 15)[0] == s3[0]);
            assert(false);
        }
        assert(!(type_char_p()(s3[0])));
        assert(prefix_len(s3, type_char_p()) == 0);
        assert(spec_token_len(s3) == 0);
        assert(!is_footer_start(s3));
        assert(!(non_newline_p()(s3[0])));
        assert(prefix_len(s3, non_newline_p()) == 0);
        assert(line_len(s3) == 1);
        assert(s3.skip(1) =~= blk2);
        assert(is_space_char('\n'));
        assert(all_space(s3.take(1))) by {
            assert forall|i: int| 0 <= i < 1 implies is_space_char(#[trigger] s3.take(1)[i]) by {
                assert(s3.take(1)[i] == s3[0]);
            }
        }
        assert(scan_take(s3, false, false) == 1 + scan_take(blk2, all_space(s3.take(1)), false));
        assert(scan_take(blk2, all_space(s3.take(1)), false) == 0);
        assert(rest =~= val + t2);
        assert(value_take(rest) == val.len() + 2);
        assert(rest.take((val.len() + 2) as int) =~= val + "\n\n"@);
        assert forall|i: int| 0 <= i < "\n\n"@.len() implies is_space_char(
            #[trigger] "\n\n"@[i],
        ) by {}
        lemma_trim_append(val, "\n\n"@);
        lemma_trim_len_eq(val, val.len());
        assert(trim_len(val + "\n\n"@) == val.len());
        assert(trim_end(val + "\n\n"@) =~= val);
        assert(trim_end(rest.take((val.len() + 2) as int)) == trim_end(val + "\n\n"@));
        assert(rest.skip((val.len() + 2) as int) =~= blk2);
    }
}

/// The head of a footer block: its token, separator, and the absence of
/// whitespace before the value.
proof fn lemma_block_head(f0: FooterView, fs1: Seq<FooterView>)
    requires
        footer_wf(f0),
    ensures
        ({
            let blk = f0.token + spec_sep_str(f0.sep) + f0.value + spec_render_footers(fs1);
            let q = (f0.token.len() + spec_sep_len(f0.sep)) as int;
            &&& spec_token_len(blk) == f0.token.len()
            &&& spec_sep_at(blk, f0.token.len() as int) == Some(f0.sep)
            &&& blk.len() == q + f0.value.len() + spec_render_footers(fs1).len()
            &&& blk.skip(q) == f0.value + spec_render_footers(fs1)
            &&& prefix_len(blk.skip(q), space_p()) == 0
            &&& blk.subrange(0, f0.token.len() as int) == f0.token
        }),
{
    reveal_strlit(":");
    reveal_strlit(" #");
    let tok = f0.token;
    let ss = spec_sep_str(f0.sep);
    let val = f0.value;
    let rtail = spec_render_footers(fs1);
    let blk = tok + ss + val + rtail;
    lemma_footer_text_lookahead(tok, f0.sep, val + rtail);
    assert(blk =~= tok + ss + (val + rtail));
    assert(ss.len() == spec_sep_len(f0.sep));
    let q = (tok.len() + spec_sep_len(f0.sep)) as int;
    assert(blk.skip(q) =~= val + rtail);
    assert((val + rtail)[0] == val[0]);
    assert(prefix_len(val + rtail, space_p()) == 0);
    assert(blk.subrange(0, tok.len() as int) =~= tok);
}

/// The footer block of well-formed footers parses back to exactly those
/// footers.
#[verifier::rlimit(100)]
proof fn lemma_footers_block_parse(fs: Seq<FooterView>)
    requires
        forall|k: int| 0 <= k < fs.len() ==> footer_wf(#[trigger] fs[k]),
    ensures
        spec_footers(footers_block(fs)) == Ok::<Seq<FooterView>, ErrorKind>(fs),
    decreases fs.len(),
{
    if fs.len() == 0 {
        assert(footers_block(fs).len() == 0);
        assert(fs =~= Seq::<FooterView>::empty());
    } else {
        let f0 = fs[0];
        assert(footer_wf(f0));
        let fs1 = fs.drop_first();
        assert forall|k: int| 0 <= k < fs1.len() implies footer_wf(#[trigger] fs1[k]) by {
            assert(fs1[k] == fs[k + 1]);
        }
        if fs1.len() > 0 {
            assert(footer_wf(fs1[0]));
        }
        lemma_block_unfold(f0, fs1);
        lemma_footers_block_parse(fs1);
        assert(footers_block(fs) == f0.token + spec_sep_str(f0.sep) + f0.value
            + spec_render_footers(fs1));
        assert(seq![f0] + fs1 =~= fs);
    }
}

/// One unfolding of the footer block: the first footer comes off whole,
/// and parsing continues at the block of the remaining footers.
#[verifier::rlimit(100)]
proof fn lemma_block_unfold(f0: FooterView, fs1: Seq<FooterView>)
    requires
        footer_wf(f0),
        fs1.len() > 0 ==> footer_wf(fs1[0]),
    ensures
        ({
            let blk = f0.token + spec_sep_str(f0.sep) + f0.value + spec_render_footers(fs1);
            spec_footers(blk) == match spec_footers(footers_block(fs1)) {
                Err(k) => Err::<Seq<FooterView>, ErrorKind>(k),
                Ok(fs2) => Ok::<Seq<FooterView>, ErrorKind>(seq![f0] + fs2),
            }
        }),
{
    lemma_phrase_facts();
    let tok = f0.token;
    let val = f0.value;
    let rtail = spec_render_footers(fs1);
    let blk = tok + spec_sep_str(f0.sep) + val + rtail;
    lemma_block_head(f0, fs1);
    let len0 = tok.len() as int;
    assert(len0 > 0);
    let q = len0 + spec_sep_len(f0.sep) as int;
    assert(capped((q + prefix_len(blk.skip(q), space_p())) as nat, blk.len()) == q);
    let rest = blk.skip(q);
    assert(rest.len() > 0);
    lemma_block_value_region(val, fs1);
    assert(rest == val + rtail);
    let vt = value_take(rest) as int;
    lemma_value_take_le(rest);
    assert(q + vt <= blk.len());
    assert(blk.skip(q + vt) =~= rest.skip(vt));
    assert(rest.skip(vt) == footers_block(fs1));
    // the trimmed value region
    assert(blk.subrange(q, q + vt) =~= rest.take(vt));
    assert(rest.take(vt).take(trim_len(rest.take(vt)) as int) == val);
    lemma_trim_len_props(rest.take(vt));
    assert(trim_len(rest.take(vt)) == val.len());
    assert(blk.subrange(q, (q + val.len()) as int) =~= val);
    // one unfolding of the footer block
    assert(blk.skip(0) =~= blk);
    assert(spec_token_len(blk.skip(0)) == tok.len());
    assert(spec_sep_at(blk.skip(0), len0) == Some(f0.sep));
    crate::parser::lemma_footer_step(blk, 0, tok.len(), f0.sep, q, q + vt, q + val.len() as int);
    let fv = FooterView {
        token: blk.subrange(0, len0),
        sep: f0.sep,
        value: blk.subrange(q, (q + val.len()) as int),
    };
    assert(fv == f0);
}

/// The blank line before a footer block scans as one consumed line, after
/// which the scan stops at the block.
proof fn lemma_nl_block_scan(fs: Seq<FooterView>, g: bool)
    requires
        fs.len() > 0,
        footer_wf(fs[0]),
    ensures
        scan_take(("\n\n"@ + footers_block(fs)).skip(1), false, g) == 1,
{
    reveal_strlit("\n\n");
    lemma_phrase_facts();
    let blk = footers_block(fs);
    let t2 = "\n\n"@ + blk;
    let s3 = t2.skip(1);
    assert(t2[1] == '\n');
    assert(s3[0] == '\n');
    let f0 = fs[0];
    lemma_footer_text_lookahead(
        f0.token,
        f0.sep,
        f0.value + spec_render_footers(fs.drop_first()),
    );
    assert(blk =~= f0.token + spec_sep_str(f0.sep) + (f0.value + spec_render_footers(
        fs.drop_first(),
    )));
    assert(is_footer_start(blk));
    if starts_with_breaking_phrase(s3) {
        assert(s3.subrange(0, 15)[0] == s3[0]);
        assert(false);
    }
    assert(!(type_char_p()(s3[0])));
    assert(prefix_len(s3, type_char_p()) == 0);
    assert(spec_token_len(s3) == 0);
    assert(!is_footer_start(s3));
    assert(!(non_newline_p()(s3[0])));
    assert(prefix_len(s3, non_newline_p()) == 0);
    assert(line_len(s3) == 1);
    assert(s3.skip(1) =~= blk);
    assert(is_space_char('\n'));
    assert(all_space(s3.take(1))) by {
        assert forall|i: int| 0 <= i < 1 implies is_space_char(#[trigger] s3.take(1)[i]) by {
            assert(s3.take(1)[i] == s3[0]);
        }
    }
    assert(scan_take(s3, false, g) == 1 + scan_take(blk, all_space(s3.take(1)), g));
    assert(scan_take(blk, all_space(s3.take(1)), g) == 0);
}

/// The rendered summary of a well-formed commit parses back to its own
/// parts, with the `!` marker standing exactly when the commit is
/// breaking.
#[verifier::rlimit(100)]
proof fn lemma_render_summary_parse(c: CommitView)
    requires
        type_text(c.ty),
        c.scope matches Some(sc) ==> scope_text(sc),
        desc_text(c.description),
    ensures
        spec_summary(spec_render(c)) == Ok::<SummaryView, ErrorKind>(SummaryView {
            ty: c.ty,
            scope: c.scope,
            bang: c.breaking,
            desc: c.description,
            end: spec_render_summary(c).len(),
        }),
{
    reveal_strlit("(");
    reveal_strlit(")");
    reveal_strlit("!");
    reveal_strlit(": ");
    reveal_strlit("\n\n");
    let summ = spec_render_summary(c);
    let bodypart: Seq<char> = match c.body {
        Some(b) => "\n\n"@ + b,
        None => Seq::<char>::empty(),
    };
    let tail = bodypart + spec_render_footers(c.footers);
    let s = spec_render(c);
    assert(s =~= summ + tail);
    let scope_part: Seq<char> = match c.scope {
        Some(sc) => "("@ + sc + ")"@,
        None => Seq::<char>::empty(),
    };
    let bang_part: Seq<char> = if c.breaking {
        "!"@
    } else {
        Seq::<char>::empty()
    };
    assert(summ == c.ty + scope_part + bang_part + ": "@ + c.description);
    if tail.len() > 0 {
        match c.body {
            Some(b) => {
                assert(tail[0] == "\n\n"@[0]);
            },
            None => {
                assert(c.footers.len() > 0);
                lemma_render_block(c.footers);
                assert(tail =~= "\n\n"@ + footers_block(c.footers));
                assert(tail[0] == "\n\n"@[0]);
            },
        }
        assert(tail[0] == '\n');
    }
    let ty = c.ty;
    let lt = ty.len() as int;
    let x = scope_part + bang_part + (": "@ + c.description) + tail;
    assert(s =~= ty + x);
    assert(x.len() > 0);
    match c.scope {
        Some(sc) => {
            assert(x[0] == '(');
        },
        None => {
            if c.breaking {
                assert(x[0] == '!');
            } else {
                assert(x[0] == ':');
            }
        },
    }
    assert(!is_type_char('('));
    assert(!is_type_char('!'));
    assert(!is_type_char(':'));
    assert forall|i: int| 0 <= i < ty.len() implies type_char_p()(#[trigger] (ty + x)[i]) by {
        assert((ty + x)[i] == ty[i]);
    }
    assert(!(type_char_p()((ty + x)[ty.len() as int])));
    lemma_prefix_len_eq_app_helper(ty, x, s);
    assert(prefix_len(s, type_char_p()) == lt);
    assert(s.take(lt) =~= ty);
    let p: int;
    match c.scope {
        Some(sc) => {
            assert(s[lt] == x[0]);
            assert(s[lt] == '(');
            let y = ")"@ + bang_part + (": "@ + c.description) + tail;
            assert(s.skip(lt + 1) =~= sc + y);
            assert(y[0] == ')');
            assert(!crate::parser::is_scope_char(')'));
            assert forall|i: int| 0 <= i < sc.len() implies crate::parser::scope_char_p()(
                #[trigger] (sc + y)[i],
            ) by {
                assert((sc + y)[i] == sc[i]);
            }
            assert(!(crate::parser::scope_char_p()((sc + y)[sc.len() as int])));
            lemma_prefix_len_eq(sc + y, crate::parser::scope_char_p(), sc.len());
            assert(prefix_len(s.skip(lt + 1), crate::parser::scope_char_p()) == sc.len());
            let sl = sc.len() as int;
            assert(s[lt + 1 + sl] == y[0]);
            assert(lt + 1 + sl < s.len());
            assert(s.skip(lt + 1).take(sl) =~= sc);
            p = lt + 1 + sl + 1;
        },
        None => {
            assert(s[lt] != '(');
            p = lt;
        },
    }
    // the tail of the summary
    assert(s.skip(p) =~= bang_part + (": "@ + c.description + tail));
    lemma_render_tail_parse(s, s.take(lt), match c.scope {
        Some(sc) => Some(s.skip(lt + 1).take(sc.len() as int)),
        None => None,
    }, p, c.breaking, c.description, tail);
    assert(q_end_of(p, c.breaking) + 2 + c.description.len() == summ.len());
}

/// Where the colon of a summary stands, given where its type and scope
/// end.
spec fn q_end_of(p: int, brk: bool) -> int {
    if brk {
        p + 1
    } else {
        p
    }
}

/// The tail of a rendered summary parses back: the optional `!`, the
/// colon, one space, and the description up to the line end.
#[verifier::rlimit(100)]
proof fn lemma_render_tail_parse(
    s: Seq<char>,
    tyv: Seq<char>,
    scv: Option<Seq<char>>,
    p: int,
    brk: bool,
    desc: Seq<char>,
    tail: Seq<char>,
)
    requires
        0 <= p <= s.len(),
        desc_text(desc),
        tail.len() > 0 ==> tail[0] == '\n',
        s.skip(p) == (if brk {
            "!"@
        } else {
            Seq::<char>::empty()
        }) + (": "@ + desc + tail),
    ensures
        spec_summary_tail(s, tyv, scv, p as nat) == Ok::<SummaryView, ErrorKind>(
            SummaryView {
                ty: tyv,
                scope: scv,
                bang: brk,
                desc,
                end: (q_end_of(p, brk) + 2 + desc.len()) as nat,
            },
        ),
{
    reveal_strlit("!");
    reveal_strlit(": ");
    let rp = s.skip(p);
    let inner = ": "@ + desc + tail;
    let bang_part: Seq<char> = if brk {
        "!"@
    } else {
        Seq::<char>::empty()
    };
    assert(rp == bang_part + inner);
    assert(inner[0] == ':');
    assert(inner[1] == ' ');
    let q: int;
    if brk {
        assert(s[p] == rp[0]);
        assert(rp[0] == '!');
        q = p + 1;
    } else {
        assert(s[p] == rp[0]);
        assert(rp[0] == ':');
        assert(s[p] != '!');
        q = p;
    }
    assert(rp[q - p] == inner[0]);
    assert(s[q] == rp[q - p]);
    assert(s[q] == ':');
    // one inline space, then the description
    let z = s.skip(q + 1);
    assert(z =~= rp.skip(q + 1 - p));
    assert(rp.skip(q + 1 - p) =~= inner.skip(1));
    assert(inner.skip(1) =~= seq![' '] + (desc + tail));
    assert(z =~= seq![' '] + (desc + tail));
    assert(crate::parser::is_inline_space_char(' '));
    assert(!crate::parser::is_inline_space_char(desc[0]));
    assert forall|i: int| 0 <= i < 1 implies crate::parser::inline_space_p()(
        #[trigger] (seq![' '] + (desc + tail))[i],
    ) by {
        assert((seq![' '] + (desc + tail))[i] == ' ');
    }
    assert(!(crate::parser::inline_space_p()((seq![' '] + (desc + tail))[1])));
    lemma_prefix_len_eq(seq![' '] + (desc + tail), crate::parser::inline_space_p(), 1);
    assert(prefix_len(z, crate::parser::inline_space_p()) == 1);
    let zd = s.skip(q + 2);
    assert(zd =~= rp.skip(q + 2 - p));
    assert(rp.skip(q + 2 - p) =~= inner.skip(2));
    assert(inner.skip(2) =~= desc + tail);
    assert(zd =~= desc + tail);
    assert forall|i: int| 0 <= i < desc.len() implies crate::parser::text_char_p()(
        #[trigger] (desc + tail)[i],
    ) by {
        assert((desc + tail)[i] == desc[i]);
    }
    if tail.len() > 0 {
        assert((desc + tail)[desc.len() as int] == tail[0]);
        assert(!(crate::parser::text_char_p()((desc + tail)[desc.len() as int])));
    }
    lemma_prefix_len_eq(desc + tail, crate::parser::text_char_p(), desc.len());
    assert(prefix_len(zd, crate::parser::text_char_p()) == desc.len());
    assert(zd.take(desc.len() as int) =~= desc);
}

/// All characters of a concatenation's left part satisfy the type
/// predicate and the right part starts otherwise: the type scan stops at
/// the seam.
proof fn lemma_prefix_len_eq_app_helper(ty: Seq<char>, x: Seq<char>, s: Seq<char>)
    requires
        s == ty + x,
        forall|i: int| 0 <= i < ty.len() ==> type_char_p()(#[trigger] (ty + x)[i]),
        x.len() > 0,
        !(type_char_p()((ty + x)[ty.len() as int])),
    ensures
        prefix_len(s, type_char_p()) == ty.len(),
{
    lemma_prefix_len_eq(ty + x, type_char_p(), ty.len());
}

/// The canonical rendering of a well-formed commit parses back to the
/// message the commit stands for.
proof fn lemma_render_parse(c: CommitView)
    requires
        commit_wf(c),
    ensures
        spec_message(spec_render(c)) == Ok::<MessageView, ErrorKind>(message_of(c)),
{
    if c.body is None && c.footers.len() == 0 {
        lemma_render_parse_plain(c);
    } else {
        match c.body {
            Some(_) => {
                lemma_render_parse_body(c);
            },
            None => {
                lemma_render_parse_footers_only(c);
            },
        }
    }
}

/// A commit with neither body nor footers renders to its summary alone.
proof fn lemma_render_parse_plain(c: CommitView)
    requires
        commit_wf(c),
        c.body is None,
        c.footers.len() == 0,
    ensures
        spec_message(spec_render(c)) == Ok::<MessageView, ErrorKind>(message_of(c)),
{
    lemma_render_summary_parse(c);
    let s = spec_render(c);
    let summ = spec_render_summary(c);
    let rf = spec_render_footers(c.footers);
    assert(rf.len() == 0);
    assert(s =~= summ);
    assert(c.footers =~= Seq::<FooterView>::empty());
}

/// A commit with a body renders to summary, blank line, body, and the
/// footer block.
#[verifier::rlimit(100)]
proof fn lemma_render_parse_body(c: CommitView)
    requires
        commit_wf(c),
        c.body is Some,
    ensures
        spec_message(spec_render(c)) == Ok::<MessageView, ErrorKind>(message_of(c)),
{
    reveal_strlit("\n\n");
    lemma_phrase_facts();
    lemma_render_summary_parse(c);
    let s = spec_render(c);
    let summ = spec_render_summary(c);
    let p = summ.len() as int;
    let rf = spec_render_footers(c.footers);
    {
        match c.body {
            Some(b) => {
                assert(body_text(b));
                assert(s =~= summ + (("\n\n"@ + b) + rf));
                assert(s.skip(p) =~= ("\n\n"@ + b) + rf);
                assert(s[p] == '\n');
                assert(s[p + 1] == '\n');
                assert(s.len() == p + 2 + b.len() + rf.len());
                assert(crate::parser::line_ending_len(s, p) == 1);
                assert(crate::parser::line_ending_len(s, p + 1) == 1);
                let r = s.skip(p + 2);
                assert(r =~= b + rf);
                assert(s[p + 2] == b[0]);
                if s[p + 2] == '\r' {
                    assert(b[0] == '\r');
                    if b.len() == 1 {
                        assert(is_space_char(b.last()));
                        assert(false);
                    }
                    assert(s[p + 3] == b[1]);
                    assert(b[1] != '\n');
                }
                assert(crate::parser::line_ending_len(s, p + 2) == 0);
                assert(crate::parser::skip_newlines(s, (p + 2) as nat) == p + 2);
                if c.footers.len() == 0 {
                    assert(rf.len() == 0);
                    assert(r =~= b);
                    assert(body_take(r, true) == b.len());
                    assert(r.take(b.len() as int) =~= b);
                    lemma_trim_len_eq(b, b.len());
                    assert(trim_end(b) =~= b);
                    assert(r.skip(b.len() as int) =~= Seq::<char>::empty());
                    assert(c.footers =~= Seq::<FooterView>::empty());
                } else {
                    assert(footer_wf(c.footers[0]));
                    lemma_render_block(c.footers);
                    let blk = footers_block(c.footers);
                    let t2 = "\n\n"@ + blk;
                    assert(t2[0] == '\n');
                    assert(r =~= b + t2);
                    lemma_scan_take_append(b, t2, true, true);
                    lemma_nl_block_scan(c.footers, true);
                    assert(scan_take(t2.skip(1), false, true) == 1);
                    assert(body_take(r, true) == b.len() + 2);
                    assert(r.take((b.len() + 2) as int) =~= b + "\n\n"@);
                    assert forall|i: int| 0 <= i < "\n\n"@.len() implies is_space_char(
                        #[trigger] "\n\n"@[i],
                    ) by {}
                    lemma_trim_append(b, "\n\n"@);
                    lemma_trim_len_eq(b, b.len());
                    assert(trim_len(b + "\n\n"@) == b.len());
                    assert(trim_end(b + "\n\n"@) =~= b);
                    assert(r.skip((b.len() + 2) as int) =~= blk);
                    lemma_footers_block_parse(c.footers);
                }
            },
            None => {
                assert(false);
            },
        }
    }
}

/// A commit with footers but no body renders to summary, blank line, and
/// the footer block.
#[verifier::rlimit(100)]
proof fn lemma_render_parse_footers_only(c: CommitView)
    requires
        commit_wf(c),
        c.body is None,
        c.footers.len() > 0,
    ensures
        spec_message(spec_render(c)) == Ok::<MessageView, ErrorKind>(message_of(c)),
{
    reveal_strlit("\n\n");
    lemma_phrase_facts();
    lemma_render_summary_parse(c);
    let s = spec_render(c);
    let summ = spec_render_summary(c);
    let p = summ.len() as int;
    {
        {
            {
                assert(c.footers.len() > 0);
                assert(footer_wf(c.footers[0]));
                lemma_render_block(c.footers);
                let blk = footers_block(c.footers);
                assert(s =~= summ + ("\n\n"@ + blk));
                assert(s.skip(p) =~= "\n\n"@ + blk);
                assert(s[p] == '\n');
                assert(s[p + 1] == '\n');
                let f0 = c.footers[0];
                assert(blk == f0.token + spec_sep_str(f0.sep) + f0.value + spec_render_footers(
                    c.footers.drop_first(),
                ));
                assert(blk[0] == f0.token[0]);
                if f0.token == breaking_phrase() {
                    assert(f0.token[0] == 'B');
                } else {
                    assert(is_type_char(f0.token[0]));
                }
                assert(blk[0] != '\n');
                assert(blk[0] != '\r');
                assert(blk.len() > 0);
                assert(s.len() == p + 2 + blk.len());
                assert(crate::parser::line_ending_len(s, p) == 1);
                assert(crate::parser::line_ending_len(s, p + 1) == 1);
                assert(s[p + 2] == blk[0]);
                assert(crate::parser::line_ending_len(s, p + 2) == 0);
                assert(crate::parser::skip_newlines(s, (p + 2) as nat) == p + 2);
                let r = s.skip(p + 2);
                assert(r =~= blk);
                lemma_block_head(f0, c.footers.drop_first());
                assert(is_footer_start(blk));
                assert(body_take(r, true) == 0);
                assert(r.skip(0) =~= blk);
                lemma_footers_block_parse(c.footers);
            }
        }
    }
}

// ---------------------------------------------------------------------------
// What parsing produces is well-formed
// ---------------------------------------------------------------------------

/// A parsed summary has a valid type, scope and description.
proof fn lemma_summary_tail_wf(
    s: Seq<char>,
    tyv: Seq<char>,
    scv: Option<Seq<char>>,
    p: nat,
    sum: SummaryView,
)
    requires
        spec_summary_tail(s, tyv, scv, p) == Ok::<SummaryView, ErrorKind>(sum),
    ensures
        desc_text(sum.desc),
        sum.ty == tyv,
        sum.scope == scv,
{
    let bang = p < s.len() && s[p as int] == '!';
    let q = if bang {
        p + 1
    } else {
        p
    };
    let w = prefix_len(s.skip(q + 1 as int), crate::parser::inline_space_p());
    let d = prefix_len(s.skip((q + 1 + w) as int), crate::parser::text_char_p());
    assert(d > 0);
    lemma_prefix_len_props(s.skip(q + 1 as int), crate::parser::inline_space_p());
    lemma_prefix_len_props(s.skip((q + 1 + w) as int), crate::parser::text_char_p());
    let zd = s.skip((q + 1 + w) as int);
    assert forall|i: int| 0 <= i < d implies crate::parser::is_text_char(
        #[trigger] zd.take(d as int)[i],
    ) by {
        assert(zd.take(d as int)[i] == zd[i]);
        assert(crate::parser::text_char_p()(zd[i]));
    }
    assert(zd.take(d as int)[0] == zd[0]);
    assert(zd[0] == s[(q + 1 + w) as int]);
    assert(w < s.skip(q + 1 as int).len());
    assert(s.skip(q + 1 as int)[w as int] == s[(q + 1 + w) as int]);
    assert(!(crate::parser::inline_space_p()(s.skip(q + 1 as int)[w as int])));
    assert(!is_space_char(zd[0]));
}

/// A parsed summary has a valid type, scope and description.
proof fn lemma_summary_wf(s: Seq<char>, sum: SummaryView)
    requires
        spec_summary(s) == Ok::<SummaryView, ErrorKind>(sum),
    ensures
        type_text(sum.ty),
        sum.scope matches Some(sc) ==> scope_text(sc),
        desc_text(sum.desc),
{
    let t = prefix_len(s, type_char_p());
    lemma_prefix_len_props(s, type_char_p());
    assert(t > 0);
    assert forall|i: int| 0 <= i < t implies is_type_char(#[trigger] s.take(t as int)[i]) by {
        assert(s.take(t as int)[i] == s[i]);
        assert(type_char_p()(s[i]));
    }
    if t < s.len() && s[t as int] == '(' {
        let sl = prefix_len(s.skip((t + 1) as int), crate::parser::scope_char_p());
        lemma_prefix_len_props(s.skip((t + 1) as int), crate::parser::scope_char_p());
        assert(sl > 0);
        let sc = s.skip((t + 1) as int).take(sl as int);
        assert forall|i: int| 0 <= i < sl implies crate::parser::is_scope_char(
            #[trigger] sc[i],
        ) by {
            assert(sc[i] == s.skip((t + 1) as int)[i]);
            assert(crate::parser::scope_char_p()(s.skip((t + 1) as int)[i]));
        }
        lemma_summary_tail_wf(s, s.take(t as int), Some(sc), (t + 1 + sl + 1) as nat, sum);
    } else {
        lemma_summary_tail_wf(s, s.take(t as int), None, t, sum);
    }
}

/// Parsed footers have valid tokens and values.
#[verifier::rlimit(60)]
proof fn lemma_footers_wf(x: Seq<char>, fs: Seq<FooterView>)
    requires
        spec_footers(x) == Ok::<Seq<FooterView>, ErrorKind>(fs),
    ensures
        forall|k: int| 0 <= k < fs.len() ==> footer_wf(#[trigger] fs[k]),
    decreases x.len(),
{
    if x.len() == 0 {
    } else {
        let t = spec_token_len(x);
        assert(t > 0);
        crate::parser::lemma_token_len_le(x);
        match spec_sep_at(x, t as int) {
            None => {
                assert(false);
            },
            Some(sep) => {
                // the token
                if starts_with_breaking_phrase(x) {
                    assert(x.take(15) =~= x.subrange(0, 15));
                    assert(token_text(x.take(t as int)));
                } else {
                    lemma_prefix_len_props(x, type_char_p());
                    assert forall|i: int| 0 <= i < t implies is_type_char(
                        #[trigger] x.take(t as int)[i],
                    ) by {
                        assert(x.take(t as int)[i] == x[i]);
                        assert(type_char_p()(x[i]));
                    }
                    assert(token_text(x.take(t as int)));
                }
                let q = (t + spec_sep_len(sep)) as int;
                assert(q <= x.len());
                let w = prefix_len(x.skip(q), space_p());
                lemma_prefix_len_props(x.skip(q), space_p());
                let w_end = capped((q + w) as nat, x.len());
                assert(w_end == q + w);
                let rest = x.skip(w_end as int);
                assert(rest.len() > 0);
                // the first value character is not whitespace
                assert(w < x.skip(q).len());
                assert(x.skip(q)[w as int] == x[q + w]);
                assert(rest[0] == x[q + w]);
                assert(!is_space_char(rest[0]));
                let vt = value_take(rest);
                lemma_value_take_le(rest);
                assert(vt >= 1);
                let consumed = rest.take(vt as int);
                assert(consumed[0] == rest[0]);
                lemma_trim_len_props(consumed);
                if trim_len(consumed) == 0 {
                    assert(is_space_char(consumed[0]));
                    assert(false);
                }
                let value = trim_end(consumed);
                assert(value[0] == consumed[0]);
                assert(!is_space_char(value.last()));
                lemma_value_take_prefix(rest);
                lemma_value_take_trim(consumed);
                assert(value_text(value));
                let v_end = capped((w_end + vt) as nat, x.len());
                assert(v_end == w_end + vt);
                let fv = FooterView { token: x.take(t as int), sep, value };
                match spec_footers(x.skip(v_end as int)) {
                    Err(_) => {
                        assert(false);
                    },
                    Ok(fs2) => {
                        lemma_footers_wf(x.skip(v_end as int), fs2);
                        assert(fs == seq![fv] + fs2);
                        assert forall|k: int| 0 <= k < fs.len() implies footer_wf(
                            #[trigger] fs[k],
                        ) by {
                            if k == 0 {
                                assert(fs[0] == fv);
                            } else {
                                assert(fs[k] == fs2[k - 1]);
                            }
                        }
                    },
                }
            },
        }
    }
}

/// The breaking-change fields a derived commit carries are consistent by
/// construction.
proof fn lemma_commit_of_breaking(m: MessageView)
    ensures
        commit_of(m).breaking_description == (match first_breaking_value(commit_of(m).footers) {
            Some(v) => Some(v),
            None => if commit_of(m).breaking {
                Some(commit_of(m).description)
            } else {
                None
            },
        }),
        commit_of(m).breaking == (commit_of(m).breaking_description is Some),
{
}

/// Whatever `spec_message` accepts is a well-formed commit.
#[verifier::rlimit(60)]
proof fn lemma_message_wf(s: Seq<char>, m: MessageView)
    requires
        spec_message(s) == Ok::<MessageView, ErrorKind>(m),
    ensures
        commit_wf(commit_of(m)),
{
    lemma_commit_of_breaking(m);
    match spec_summary(s) {
        Err(_) => {
            assert(false);
        },
        Ok(sum) => {
            lemma_summary_wf(s, sum);
            let p = sum.end;
            if p == s.len() {
            } else {
                let l1 = crate::parser::line_ending_len(s, p as int);
                assert(l1 != 0);
                if p + l1 == s.len() {
                } else {
                    let l2 = crate::parser::line_ending_len(s, (p + l1) as int);
                    assert(l2 != 0);
                    let p2 = crate::parser::skip_newlines(s, (p + l1 + l2) as nat);
                    crate::parser::lemma_skip_newlines_le(s, (p + l1 + l2) as nat);
                    let r = s.skip(p2 as int);
                    let bt = body_take(r, true);
                    lemma_scan_take_le(r, true, true);
                    if bt == 0 {
                        lemma_footers_wf(r.skip(bt as int), m.footers);
                    } else {
                        let consumed = r.take(bt as int);
                        assert(trim_len(consumed) > 0);
                        let b = trim_end(consumed);
                        lemma_trim_len_props(consumed);
                        assert(!is_space_char(b.last()));
                        assert(b[0] == consumed[0]);
                        assert(consumed[0] == r[0]);
                        assert(r[0] == s[p2 as int]);
                        assert(crate::parser::line_ending_len(s, p2 as int) == 0);
                        assert(b[0] != '\n');
                        if b[0] == '\r' && b.len() > 1 {
                            assert(b[1] == consumed[1]);
                            assert(consumed[1] == r[1]);
                            assert(r[1] == s[p2 + 1 as int]);
                            assert(p2 + 1 < s.len());
                            assert(b[1] != '\n');
                        }
                        lemma_scan_take_prefix(r, true, true);
                        lemma_scan_take_trim(consumed, true, true);
                        assert(body_take(b, true) == b.len());
                        assert(body_text(b));
                        lemma_footers_wf(r.skip(bt as int), m.footers);
                    }
                }
            }
        },
    }
}

// ---------------------------------------------------------------------------
// The laws
// ---------------------------------------------------------------------------

/// For every valid type, optional scope and description, parsing the
/// canonical summary `type[(scope)]: description` succeeds and yields
/// exactly those parts, with no body and no footers.
pub proof fn lemma_format_roundtrip(ty: Seq<char>, scope: Option<Seq<char>>, desc: Seq<char>)
    requires
        type_text(ty),
        scope matches Some(sc) ==> scope_text(sc),
        desc_text(desc),
    ensures
        ({
            let c0 = CommitView {
                ty,
                scope,
                description: desc,
                body: None,
                breaking: false,
                breaking_description: None,
                footers: Seq::<FooterView>::empty(),
            };
            spec_message(spec_render(c0)) == Ok::<MessageView, ErrorKind>(
                MessageView {
                    ty,
                    scope,
                    bang: false,
                    desc,
                    body: None,
                    footers: Seq::<FooterView>::empty(),
                },
            )
        }),
{
    let c0 = CommitView {
        ty,
        scope,
        description: desc,
        body: None,
        breaking: false,
        breaking_description: None,
        footers: Seq::<FooterView>::empty(),
    };
    assert(first_breaking_value(c0.footers) is None);
    assert(commit_wf(c0));
    lemma_render_parse(c0);
}

/// Re-parsing the canonical re-serialization of a successfully parsed
/// commit yields an equal structured result.
pub proof fn lemma_reparse_idempotent(s: Seq<char>, m: MessageView)
    requires
        spec_message(s) == Ok::<MessageView, ErrorKind>(m),
    ensures
        spec_message(spec_render(commit_of(m))) matches Ok(m2) && commit_of(m2) == commit_of(m),
{
    lemma_message_wf(s, m);
    let c = commit_of(m);
    lemma_render_parse(c);
    let m2 = message_of(c);
    assert(commit_of(m2).ty == c.ty);
    assert(commit_of(m2).breaking_description == c.breaking_description);
    assert(commit_of(m2).breaking == c.breaking);
    assert(commit_of(m2) == c);
}

/// A line that matches the footer lookahead but stands after a non-blank
/// line stays inside the body: when the first line of the remaining text
/// is neither a footer start nor blank, the body consumes at least the
/// first two lines, whatever the second looks like.
pub proof fn lemma_footer_lookahead_gated(r: Seq<char>)
    requires
        r.len() > 0,
        !is_footer_start(r),
        !all_space(r.take(line_len(r) as int)),
        line_len(r) < r.len(),
    ensures
        body_take(r, true) >= line_len(r) + line_len(r.skip(line_len(r) as int)),
{
    let l = line_len(r) as int;
    lemma_line_len_props(r);
    let r2 = r.skip(l);
    lemma_line_len_props(r2);
    assert(r2.len() > 0);
    assert(scan_take(r2, false, true) == line_len(r2) + scan_take(
        r2.skip(line_len(r2) as int),
        all_space(r2.take(line_len(r2) as int)),
        true,
    ));
}

/// A footer value spans further lines until the next footer-lookahead
/// match: when the line after the value's first line does not match, the
/// value consumes at least both lines.
pub proof fn lemma_value_spans_lines(r: Seq<char>)
    requires
        r.len() > 0,
        line_len(r) < r.len(),
        !is_footer_start(r.skip(line_len(r) as int)),
    ensures
        value_take(r) >= line_len(r) + line_len(r.skip(line_len(r) as int)),
{
    let l = line_len(r) as int;
    lemma_line_len_props(r);
    let r2 = r.skip(l);
    lemma_line_len_props(r2);
    assert(r2.len() > 0);
    assert(scan_take(r2, true, false) == line_len(r2) + scan_take(
        r2.skip(line_len(r2) as int),
        all_space(r2.take(line_len(r2) as int)),
        false,
    ));
}

} // verus!
