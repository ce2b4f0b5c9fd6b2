//! Building the syntax tree of a section (a run of tokens without whitespace).
use vstd::prelude::*;
use vstd::slice::slice_subrange;

use crate::error::{spec_error, spec_error_at, Error};
use crate::number::{is_digit, lemma_parse_int_chars, parse_i16, parse_i32, spec_parse_bounded, spec_parse_int};
use crate::tokenizer::{shift_token, shift_tokens, token_views, Token, TokenKind, TokView};
use crate::Options;

verus! {

/// A node of the syntax tree.
#[derive(Debug)]
pub enum AstToken {
    /// Text that stands for itself
    Text(String),
    /// `{a,b,...}`: each alternative is a sequence of nodes
    CommaExpansion(Vec<Vec<AstToken>>),
    /// `{start..end..step}` over integers, each written with `leading_zeros` zeros before it
    NumericExpansion { start: i32, end: i32, step: u16, leading_zeros: usize },
    /// `{start..end..step}` over characters
    CharExpansion { start: u8, end: u8, step: u16 },
}

/// The model of an [`AstToken`].
pub enum Ast {
    Text(Seq<char>),
    Comma(Seq<Seq<Ast>>),
    Numeric { start: i32, end: i32, step: u16, leading_zeros: usize },
    Char { start: u8, end: u8, step: u16 },
}

/// The model of a node.
pub open spec fn ast_view(t: AstToken) -> Ast
    decreases t,
{
    match t {
        AstToken::Text(s) => Ast::Text(s@),
        AstToken::CommaExpansion(groups) => Ast::Comma(groups_view(groups@)),
        AstToken::NumericExpansion { start, end, step, leading_zeros } => Ast::Numeric {
            start,
            end,
            step,
            leading_zeros,
        },
        AstToken::CharExpansion { start, end, step } => Ast::Char { start, end, step },
    }
}

/// The models of a sequence of nodes.
pub open spec fn asts_view(s: Seq<AstToken>) -> Seq<Ast>
    decreases s,
{
    if s.len() == 0 {
        Seq::empty()
    } else {
        asts_view(s.subrange(0, s.len() - 1)).push(ast_view(s[s.len() - 1]))
    }
}

/// The models of the alternatives of a comma expansion.
pub open spec fn groups_view(g: Seq<Vec<AstToken>>) -> Seq<Seq<Ast>>
    decreases g,
{
    if g.len() == 0 {
        Seq::empty()
    } else {
        groups_view(g.subrange(0, g.len() - 1)).push(asts_view(g[g.len() - 1]@))
    }
}

/// Every range in `t` has a positive step.
pub open spec fn wf_ast(t: Ast) -> bool
    decreases t,
{
    match t {
        Ast::Text(_) => true,
        Ast::Comma(groups) => forall|i: int, j: int|
            0 <= i < groups.len() && 0 <= j < groups[i].len() ==> wf_ast(#[trigger] groups[i][j]),
        Ast::Numeric { step, .. } => step >= 1,
        Ast::Char { step, .. } => step >= 1,
    }
}

/// Every range in `s` has a positive step.
pub open spec fn wf_asts(s: Seq<Ast>) -> bool {
    forall|k: int| 0 <= k < s.len() ==> wf_ast(#[trigger] s[k])
}

/// The alternatives of a well-formed comma expansion are well formed.
pub proof fn lemma_wf_comma(groups: Seq<Seq<Ast>>)
    requires
        wf_ast(Ast::Comma(groups)),
    ensures
        forall|m: int| 0 <= m < groups.len() ==> wf_asts(#[trigger] groups[m]),
{
    assert forall|m: int| 0 <= m < groups.len() implies wf_asts(#[trigger] groups[m]) by {
        assert forall|k: int| 0 <= k < groups[m].len() implies wf_ast(#[trigger] groups[m][k]) by {
            let t = Ast::Comma(groups);
            assert(t->Comma_0 == groups);
            assert(decreases_to!(t => groups[m][k]));
            assert(wf_ast(t));
        }
    }
}

/// A comma expansion whose alternatives are well formed is well formed.
pub proof fn lemma_wf_comma_intro(groups: Seq<Seq<Ast>>)
    requires
        forall|m: int| 0 <= m < groups.len() ==> wf_asts(#[trigger] groups[m]),
    ensures
        wf_ast(Ast::Comma(groups)),
{
    let t = Ast::Comma(groups);
    assert forall|i: int, j: int| 0 <= i < groups.len() && 0 <= j < groups[i].len() implies wf_ast(
        #[trigger] groups[i][j],
    ) by {
        assert(wf_asts(groups[i]));
    }
}

pub proof fn lemma_asts_view(s: Seq<AstToken>)
    ensures
        asts_view(s).len() == s.len(),
        forall|i: int| 0 <= i < s.len() ==> #[trigger] asts_view(s)[i] == ast_view(s[i]),
    decreases s.len(),
{
    if s.len() > 0 {
        lemma_asts_view(s.subrange(0, s.len() - 1));
    }
}

pub proof fn lemma_groups_view(g: Seq<Vec<AstToken>>)
    ensures
        groups_view(g).len() == g.len(),
        forall|i: int| 0 <= i < g.len() ==> #[trigger] groups_view(g)[i] == asts_view(g[i]@),
    decreases g.len(),
{
    if g.len() > 0 {
        lemma_groups_view(g.subrange(0, g.len() - 1));
    }
}

proof fn lemma_asts_view_push(s: Seq<AstToken>, t: AstToken)
    ensures
        asts_view(s.push(t)) == asts_view(s).push(ast_view(t)),
{
    lemma_asts_view(s);
    lemma_asts_view(s.push(t));
    assert(asts_view(s.push(t)) =~= asts_view(s).push(ast_view(t)));
}

proof fn lemma_groups_view_push(g: Seq<Vec<AstToken>>, v: Vec<AstToken>)
    ensures
        groups_view(g.push(v)) == groups_view(g).push(asts_view(v@)),
{
    lemma_groups_view(g);
    lemma_groups_view(g.push(v));
    assert(groups_view(g.push(v)) =~= groups_view(g).push(asts_view(v@)));
}

/// One end of a range expansion: a letter, or an integer with the number of zeros
/// written before its first digit.
#[derive(Debug, Clone, Copy)]
pub enum RangeBound {
    Char(u8),
    Int { leading_zeros: usize, value: i32 },
}

/// The number of `0` characters at the start of `s`.
pub open spec fn leading_zero_count(s: Seq<char>) -> nat
    decreases s.len(),
{
    if s.len() == 0 || s[0] != '0' {
        0
    } else {
        1 + leading_zero_count(s.subrange(1, s.len() as int))
    }
}

/// `c` is an ASCII letter.
pub open spec fn is_ascii_letter(c: char) -> bool {
    ('a' <= c && c <= 'z') || ('A' <= c && c <= 'Z')
}

pub open spec fn msg_expected_bound() -> &'static str {
    "Expansion expected either number of character"
}

pub open spec fn msg_missing_start() -> &'static str {
    "Ellipses expansion missing start token"
}

pub open spec fn msg_missing_end() -> &'static str {
    "Ellipses expansion missing end token"
}

pub open spec fn msg_bad_step() -> &'static str {
    "Ellipses expansion step-by must be an integer"
}

pub open spec fn msg_too_many() -> &'static str {
    "Ellipses expansion has too many tokens"
}

pub open spec fn msg_mismatch() -> &'static str {
    "Ellipses expansion start/end mismatch"
}

pub open spec fn msg_failed() -> &'static str {
    "Failed to parse"
}

/// How a token reads as one end of a range: an `i32` as `str::parse` reads it from the
/// raw text (with the zeros before the first digit, the last character aside), else a
/// single ASCII letter.
pub open spec fn spec_range_bound(t: TokView) -> Result<RangeBound, Error> {
    let cs = t.span.chars();
    match spec_parse_bounded(t.span.raw, i32::MIN as int, i32::MAX as int) {
        Some(v) => Ok(
            RangeBound::Int {
                leading_zeros: leading_zero_count(cs.take(cs.len() - 1)) as usize,
                value: v as i32,
            },
        ),
        None => if cs.len() == 1 && is_ascii_letter(cs[0]) {
            Ok(RangeBound::Char(cs[0] as u8))
        } else {
            Err(spec_error_at(msg_expected_bound(), t.pos))
        },
    }
}

/// The step of a range: the magnitude of the third token read as an `i16`, 1 when
/// there is none, and 1 in place of 0.
pub open spec fn spec_step(toks: Seq<TokView>) -> Result<u16, Error> {
    if toks.len() < 3 {
        Ok(1)
    } else {
        match spec_parse_bounded(toks[2].span.raw, i16::MIN as int, i16::MAX as int) {
            Some(v) => {
                let m = if v < 0 {
                    -v
                } else {
                    v
                };
                Ok(if m == 0 {
                    1
                } else {
                    m as u16
                })
            },
            None => Err(spec_error_at(msg_bad_step(), toks[2].pos)),
        }
    }
}

/// The range expansion that the text tokens `toks` of `{a..b}` or `{a..b..c}` spell.
pub open spec fn spec_numeric(toks: Seq<TokView>) -> Result<Ast, Error> {
    if toks.len() == 0 {
        Err(spec_error(msg_missing_start()))
    } else if toks.len() == 1 {
        Err(spec_error(msg_missing_end()))
    } else {
        match spec_step(toks) {
            Err(e) => Err(e),
            Ok(step) => if toks.len() > 3 {
                Err(spec_error_at(msg_too_many(), toks[3].pos))
            } else {
                match spec_range_bound(toks[0]) {
                    Err(e) => Err(e),
                    Ok(a) => match spec_range_bound(toks[1]) {
                        Err(e) => Err(e),
                        Ok(b) => match (a, b) {
                            (RangeBound::Char(start), RangeBound::Char(end)) => Ok(
                                Ast::Char { start, end, step },
                            ),
                            (
                                RangeBound::Int { leading_zeros: z1, value: start },
                                RangeBound::Int { leading_zeros: z2, value: end },
                            ) => Ok(
                                Ast::Numeric {
                                    start,
                                    end,
                                    step,
                                    leading_zeros: if z1 >= z2 {
                                        z1
                                    } else {
                                        z2
                                    },
                                },
                            ),
                            _ => Err(spec_error_at(msg_mismatch(), toks[1].pos)),
                        },
                    },
                }
            },
        }
    }
}

/// No token of `toks` is whitespace.
pub open spec fn no_blanks(toks: Seq<TokView>) -> bool {
    forall|k: int| 0 <= k < toks.len() ==> !(#[trigger] toks[k].kind is Whitespace)
}

/// Every token of `toks` starts before the last byte offset a `usize` can hold.
pub open spec fn positions_fit(toks: Seq<TokView>) -> bool {
    forall|k: int| 0 <= k < toks.len() ==> #[trigger] toks[k].pos < usize::MAX
}

/// What the parser of one brace expansion has seen so far.
pub struct ExpState {
    /// No comma, no nested brace and no misplaced `..` was seen
    pub can_be_numeric: bool,
    pub found_comma: bool,
    /// The text tokens between `..`s that are done
    pub numbers: Seq<TokView>,
    /// The text token since the last `..`
    pub number: Option<TokView>,
    /// The alternatives that are done
    pub groups: Seq<Seq<Ast>>,
    /// The alternative under way
    pub current: Seq<Ast>,
}

pub open spec fn initial_exp_state() -> ExpState {
    ExpState {
        can_be_numeric: true,
        found_comma: false,
        numbers: seq![],
        number: None,
        groups: seq![],
        current: seq![],
    }
}

/// Adds text to an alternative, joining it to a text node at its end.
pub open spec fn add_text(current: Seq<Ast>, text: Seq<char>) -> Seq<Ast> {
    if current.len() > 0 && current.last() is Text {
        current.update(current.len() - 1, Ast::Text(current.last()->Text_0 + text))
    } else {
        current.push(Ast::Text(text))
    }
}

/// What an expansion that cannot be parsed gives: an error in strict mode, else the
/// `{` as text, with parsing to go on right after it.
pub open spec fn spec_unparsed(orig: Seq<TokView>, strict: bool) -> Result<(Seq<TokView>, Ast), Error> {
    if strict {
        Err(spec_error(msg_failed()))
    } else {
        Ok((orig, Ast::Text(seq!['{'])))
    }
}

/// Parses an expansion whose `{` was just read and whose rest is `toks`: gives the
/// tokens after it and its node.
pub open spec fn spec_expansion(toks: Seq<TokView>, strict: bool) -> Result<(Seq<TokView>, Ast), Error>
    decreases toks.len(), 1int,
{
    expansion_loop(toks, toks, initial_exp_state(), strict)
}

/// Goes on with an expansion whose tokens after `{` are `orig`, in state `st`, with
/// `rest` left to read.
pub open spec fn expansion_loop(
    orig: Seq<TokView>,
    rest: Seq<TokView>,
    st: ExpState,
    strict: bool,
) -> Result<(Seq<TokView>, Ast), Error>
    decreases rest.len(), 0int,
{
    if rest.len() == 0 {
        spec_unparsed(orig, strict)
    } else {
        let t = rest[0];
        let r = rest.subrange(1, rest.len() as int);
        match t.kind {
            TokenKind::Start { .. } => match spec_expansion(r, strict) {
                Err(e) => Err(e),
                Ok((r2, a)) => if r2.len() <= r.len() {
                    expansion_loop(
                        orig,
                        r2,
                        ExpState { can_be_numeric: false, current: st.current.push(a), ..st },
                        strict,
                    )
                } else {
                    spec_unparsed(orig, strict)
                },
            },
            TokenKind::End => if st.found_comma {
                Ok((r, Ast::Comma(st.groups.push(st.current))))
            } else {
                let numbers = match st.number {
                    Some(n) => st.numbers.push(n),
                    None => st.numbers,
                };
                if st.can_be_numeric {
                    match spec_numeric(numbers) {
                        Ok(a) => Ok((r, a)),
                        Err(e) => if strict {
                            Err(e)
                        } else {
                            spec_unparsed(orig, strict)
                        },
                    }
                } else {
                    spec_unparsed(orig, strict)
                }
            },
            TokenKind::Comma => expansion_loop(
                orig,
                r,
                ExpState {
                    can_be_numeric: false,
                    found_comma: true,
                    groups: st.groups.push(st.current),
                    current: seq![],
                    ..st
                },
                strict,
            ),
            TokenKind::Ellipses => {
                let current = add_text(st.current, t.span.chars());
                let st2 = match st.number {
                    Some(n) => ExpState {
                        numbers: st.numbers.push(n),
                        number: None,
                        current,
                        ..st
                    },
                    None => ExpState { can_be_numeric: false, current, ..st },
                };
                expansion_loop(orig, r, st2, strict)
            },
            _ => expansion_loop(
                orig,
                r,
                ExpState {
                    number: Some(t),
                    current: add_text(st.current, t.span.chars()),
                    ..st
                },
                strict,
            ),
        }
    }
}

/// Parses a section: each `{` starts an expansion, any other token stands for its text.
pub open spec fn spec_parse_section(toks: Seq<TokView>, strict: bool) -> Result<Seq<Ast>, Error>
    decreases toks.len(),
{
    if toks.len() == 0 {
        Ok(seq![])
    } else {
        let t = toks[0];
        let r = toks.subrange(1, toks.len() as int);
        match t.kind {
            TokenKind::Start { .. } => match spec_expansion(r, strict) {
                Err(e) => Err(e),
                Ok((r2, a)) => if r2.len() <= r.len() {
                    prepend_ok(seq![a], spec_parse_section(r2, strict))
                } else {
                    Err(spec_error(msg_failed()))
                },
            },
            _ => prepend_ok(seq![Ast::Text(t.span.chars())], spec_parse_section(r, strict)),
        }
    }
}

/// `r` with `prefix` put before its value.
pub open spec fn prepend_ok(prefix: Seq<Ast>, r: Result<Seq<Ast>, Error>) -> Result<Seq<Ast>, Error> {
    match r {
        Ok(s) => Ok(prefix + s),
        Err(e) => Err(e),
    }
}

/// The model of what `parse_expansion` returns.
pub open spec fn expansion_result_view(r: Result<(&[Token], AstToken), Error>) -> Result<
    (Seq<TokView>, Ast),
    Error,
> {
    match r {
        Ok((rest, a)) => Ok((token_views(rest@), ast_view(a))),
        Err(e) => Err(e),
    }
}

/// The model of what `parse_section` returns.
pub open spec fn section_result_view(r: Result<Vec<AstToken>, Error>) -> Result<Seq<Ast>, Error> {
    match r {
        Ok(v) => Ok(asts_view(v@)),
        Err(e) => Err(e),
    }
}


proof fn lemma_leading_zero_count(s: Seq<char>, k: int)
    requires
        0 <= k <= s.len(),
        forall|j: int| 0 <= j < k ==> s[j] == '0',
        k == s.len() || s[k] != '0',
    ensures
        leading_zero_count(s) == k,
    decreases k,
{
    if k > 0 {
        let t = s.subrange(1, s.len() as int);
        assert forall|j: int| 0 <= j < k - 1 implies t[j] == '0' by {
            assert(t[j] == s[j + 1]);
        }
        if k < s.len() {
            assert(t[k - 1] == s[k]);
        }
        lemma_leading_zero_count(t, k - 1);
    }
}

/// Reads `token` as one end of a range.
pub fn parse_as_char_or_int(token: &Token) -> (res: Result<RangeBound, Error>)
    requires
        token.pos < usize::MAX,
    ensures
        res == spec_range_bound(token@),
{
    let chars = token.span.chars();
    if let Some(number) = parse_i32(token.span.raw()) {
        let ghost digits = if token@.span.raw.len() > 0 && (token@.span.raw[0] == '+' || token@.span.raw[0] == '-') {
            token@.span.raw.skip(1)
        } else {
            token@.span.raw
        };
        assert(digits.len() > 0);
        // a number has at least one character
        assert(chars@.len() > 0) by {
            if token@.span.interpret_backslashes {
                assert(token@.span.raw.len() > 0);
                if token@.span.raw[0] == '\\' {
                    assert(digits[0] == token@.span.raw[0]);
                    assert(!crate::number::is_digit(digits[0]));
                }
            }
        }
        let n = chars.len() - 1;
        let mut k: usize = 0;
        while k < n && chars[k] == '0'
            invariant
                k <= n,
                n == chars@.len() - 1,
                forall|j: int| 0 <= j < k ==> chars@[j] == '0',
            decreases n - k,
        {
            k += 1;
        }
        proof {
            lemma_leading_zero_count(chars@.take(n as int), k as int);
        }
        return Ok(RangeBound::Int { leading_zeros: k, value: number });
    }
    if chars.len() == 1 {
        let c = chars[0];
        if ('a' <= c && c <= 'z') || ('A' <= c && c <= 'Z') {
            return Ok(RangeBound::Char(c as u8));
        }
    }
    Err(Error::with_context("Expansion expected either number of character", token))
}

/// The magnitude of `v`.
fn magnitude(v: i16) -> (m: u16)
    ensures
        m == (if v < 0 { -v } else { v as int }),
{
    if v < 0 {
        (-(v as i32)) as u16
    } else {
        v as u16
    }
}

/// Reads the text tokens of a range expansion (`{a..b}` or `{a..b..c}`).
pub fn parse_numeric_expansion(tokens: Vec<Token>) -> (res: Result<AstToken, Error>)
    requires
        positions_fit(token_views(tokens@)),
    ensures
        match res {
            Ok(a) => spec_numeric(token_views(tokens@)) == Ok::<Ast, Error>(ast_view(a)),
            Err(e) => spec_numeric(token_views(tokens@)) == Err::<Ast, Error>(e),
        },
{
    let ghost views = token_views(tokens@);
    if tokens.len() == 0 {
        return Err(Error::new("Ellipses expansion missing start token"));
    }
    if tokens.len() == 1 {
        return Err(Error::new("Ellipses expansion missing end token"));
    }
    let start = tokens[0];
    let end = tokens[1];
    assert(views[0] == start@ && views[1] == end@);
    let mut step: u16 = 1;
    if tokens.len() >= 3 {
        let t = tokens[2];
        assert(views[2] == t@);
        match parse_i16(t.span.raw()) {
            Some(v) => {
                step = magnitude(v);
            },
            None => {
                return Err(Error::with_context("Ellipses expansion step-by must be an integer", &t));
            },
        }
    }
    if step == 0 {
        step = 1;
    }
    assert(spec_step(views) == Ok::<u16, Error>(step));
    if tokens.len() > 3 {
        let t = tokens[3];
        assert(views[3] == t@);
        return Err(Error::with_context("Ellipses expansion has too many tokens", &t));
    }
    let a = match parse_as_char_or_int(&start) {
        Ok(a) => a,
        Err(e) => return Err(e),
    };
    let b = match parse_as_char_or_int(&end) {
        Ok(b) => b,
        Err(e) => return Err(e),
    };
    match (a, b) {
        (RangeBound::Char(start), RangeBound::Char(end)) => Ok(
            AstToken::CharExpansion { start, end, step },
        ),
        (
            RangeBound::Int { leading_zeros: z1, value: start },
            RangeBound::Int { leading_zeros: z2, value: end },
        ) => Ok(
            AstToken::NumericExpansion {
                start,
                end,
                step,
                leading_zeros: if z1 >= z2 {
                    z1
                } else {
                    z2
                },
            },
        ),
        _ => Err(Error::with_context("Ellipses expansion start/end mismatch", &end)),
    }
}


/// The state of the expansion parser's variables.
pub open spec fn exp_state_view(
    can_be_numeric: bool,
    found_comma: bool,
    numbers: Seq<Token>,
    number: Option<Token>,
    groups: Seq<Vec<AstToken>>,
    current: Seq<AstToken>,
) -> ExpState {
    ExpState {
        can_be_numeric,
        found_comma,
        numbers: token_views(numbers),
        number: match number {
            Some(t) => Some(t@),
            None => None,
        },
        groups: groups_view(groups),
        current: asts_view(current),
    }
}

proof fn lemma_views_subrange(s: Seq<Token>, a: int, b: int)
    requires
        0 <= a <= b <= s.len(),
    ensures
        token_views(s.subrange(a, b)) == token_views(s).subrange(a, b),
        no_blanks(token_views(s)) ==> no_blanks(token_views(s.subrange(a, b))),
        positions_fit(token_views(s)) ==> positions_fit(token_views(s.subrange(a, b))),
{
    assert(token_views(s.subrange(a, b)) =~= token_views(s).subrange(a, b));
    if no_blanks(token_views(s)) {
        assert forall|k: int| 0 <= k < b - a implies !(#[trigger] token_views(s.subrange(a, b))[k].kind is Whitespace) by {
            assert(token_views(s)[k + a] == token_views(s.subrange(a, b))[k]);
        }
    }
    if positions_fit(token_views(s)) {
        assert forall|k: int| 0 <= k < b - a implies #[trigger] token_views(s.subrange(a, b))[k].pos < usize::MAX by {
            assert(token_views(s)[k + a] == token_views(s.subrange(a, b))[k]);
        }
    }
}

proof fn lemma_prepend_ok(a: Seq<Ast>, b: Seq<Ast>, r: Result<Seq<Ast>, Error>)
    ensures
        prepend_ok(a, prepend_ok(b, r)) == prepend_ok(a + b, r),
{
    if let Ok(s) = r {
        assert(a + (b + s) =~= (a + b) + s);
    }
}

/// Appends the characters `v` to `s`.
fn push_chars(s: &mut String, v: &Vec<char>)
    ensures
        final(s)@ == old(s)@ + v@,
{
    let mut i: usize = 0;
    while i < v.len()
        invariant
            i <= v@.len(),
            s@ == old(s)@ + v@.take(i as int),
        decreases v@.len() - i,
    {
        s.push(v[i]);
        i += 1;
        assert(s@ =~= old(s)@ + v@.take(i as int));
    }
    assert(v@.take(v@.len() as int) =~= v@);
}

/// Adds the text `chars` to the alternative `current`, joining it to a text node at
/// its end.
fn add_text_node(current: &mut Vec<AstToken>, chars: &Vec<char>)
    ensures
        asts_view(final(current)@) == add_text(asts_view(old(current)@), chars@),
{
    let ghost old_view = asts_view(current@);
    proof {
        lemma_asts_view(current@);
    }
    match current.pop() {
        Some(AstToken::Text(mut last)) => {
            let ghost before = current@;
            let ghost last_view = last@;
            push_chars(&mut last, chars);
            current.push(AstToken::Text(last));
            proof {
                lemma_asts_view(before);
                lemma_asts_view(current@);
                assert(old_view.last() == Ast::Text(last_view));
                assert(asts_view(current@) =~= add_text(old_view, chars@));
            }
        },
        Some(other) => {
            let ghost before = current@;
            current.push(other);
            let mut s = String::new();
            push_chars(&mut s, chars);
            current.push(AstToken::Text(s));
            proof {
                lemma_asts_view(before);
                lemma_asts_view(current@);
                assert(current@.subrange(0, current@.len() - 1) =~= old(current)@);
                assert(asts_view(current@) =~= add_text(old_view, chars@));
            }
        },
        None => {
            let mut s = String::new();
            push_chars(&mut s, chars);
            current.push(AstToken::Text(s));
            proof {
                lemma_asts_view(current@);
                assert(asts_view(current@) =~= add_text(old_view, chars@));
            }
        },
    }
}

/// The result of an expansion that cannot be parsed.
fn unparsed<'a>(orig: &'a [Token<'a>], options: &Options) -> (res: Result<
    (&'a [Token<'a>], AstToken),
    Error,
>)
    ensures
        expansion_result_view(res) == spec_unparsed(token_views(orig@), options.strict),
        res matches Ok((rest, _)) ==> rest@ == orig@,
{
    if options.strict {
        Err(Error::new("Failed to parse"))
    } else {
        let mut s = String::new();
        s.push('{');
        assert(s@ =~= seq!['{']);
        Ok((orig, AstToken::Text(s)))
    }
}

/// Parses an expansion whose `{` was just read and whose rest is `input`: gives the
/// tokens after it and its node.
pub fn parse_expansion<'a>(input: &'a [Token<'a>], options: &Options) -> (res: Result<
    (&'a [Token<'a>], AstToken),
    Error,
>)
    requires
        no_blanks(token_views(input@)),
        positions_fit(token_views(input@)),
    ensures
        expansion_result_view(res) == spec_expansion(token_views(input@), options.strict),
        res matches Ok((rest, _)) ==> rest@.len() <= input@.len() && rest@ == input@.subrange(
            input@.len() - rest@.len(),
            input@.len() as int,
        ),
    decreases input@.len(),
{
    let entry_input = input;
    let ghost orig = token_views(input@);
    let ghost olen = input@.len();
    let mut rest = input;
    let mut can_be_numeric = true;
    let mut found_comma = false;
    let mut numexp_ast: Vec<Token<'a>> = Vec::new();
    let mut numexp_current: Option<Token<'a>> = None;
    let mut comexp_ast: Vec<Vec<AstToken>> = Vec::new();
    let mut comexp_current: Vec<AstToken> = Vec::new();
    proof {
        assert(token_views(numexp_ast@) =~= Seq::<TokView>::empty());
        assert(groups_view(comexp_ast@) =~= Seq::<Seq<Ast>>::empty());
        assert(asts_view(comexp_current@) =~= Seq::<Ast>::empty());
        assert(rest@.subrange(0, olen as int) =~= rest@);
    }
    while rest.len() > 0
        invariant
            entry_input@.len() == olen,
            input@ == entry_input@,
            orig == token_views(entry_input@),
            no_blanks(orig),
            positions_fit(orig),
            rest@.len() <= olen,
            rest@ == entry_input@.subrange(olen - rest@.len(), olen as int),
            expansion_loop(
                orig,
                token_views(rest@),
                exp_state_view(
                    can_be_numeric,
                    found_comma,
                    numexp_ast@,
                    numexp_current,
                    comexp_ast@,
                    comexp_current@,
                ),
                options.strict,
            ) == spec_expansion(orig, options.strict),
            positions_fit(token_views(numexp_ast@)),
            numexp_current matches Some(t) ==> t.pos < usize::MAX,
        decreases rest@.len(),
    {
        let ghost cur = rest@;
        let ghost st = exp_state_view(
            can_be_numeric,
            found_comma,
            numexp_ast@,
            numexp_current,
            comexp_ast@,
            comexp_current@,
        );
        proof {
            lemma_views_subrange(entry_input@, olen - cur.len(), olen as int);
            lemma_views_subrange(cur, 1, cur.len() as int);
            assert(token_views(cur)[0] == cur[0]@);
            assert(token_views(cur)[0].pos < usize::MAX);
        }
        let token = rest[0];
        rest = slice_subrange(rest, 1, rest.len());
        assert(rest@ == entry_input@.subrange(olen - rest@.len(), olen as int));
        match token.kind {
            TokenKind::Start { .. } => {
                can_be_numeric = false;
                match parse_expansion(rest, options) {
                    Ok((new_input, new_ast)) => {
                        let ghost before = comexp_current@;
                        comexp_current.push(new_ast);
                        proof {
                            lemma_asts_view_push(before, new_ast);
                        }
                        assert(new_input@ == entry_input@.subrange(
                            olen - new_input@.len(),
                            olen as int,
                        ));
                        rest = new_input;
                    },
                    Err(err) => {
                        return Err(err);
                    },
                }
            },
            TokenKind::End => {
                if found_comma {
                    let ghost before = comexp_ast@;
                    comexp_ast.push(comexp_current);
                    proof {
                        lemma_groups_view_push(before, comexp_current);
                    }
                    return Ok((rest, AstToken::CommaExpansion(comexp_ast)));
                }
                if let Some(t) = numexp_current {
                    let ghost before = numexp_ast@;
                    numexp_ast.push(t);
                    assert(token_views(numexp_ast@) =~= token_views(before).push(t@));
                }
                if can_be_numeric {
                    match parse_numeric_expansion(numexp_ast) {
                        Ok(val) => {
                            return Ok((rest, val));
                        },
                        Err(err) => {
                            if options.strict {
                                return Err(err);
                            }
                        },
                    }
                }
                return unparsed(entry_input, options);
            },
            TokenKind::Comma => {
                can_be_numeric = false;
                found_comma = true;
                let ghost before = comexp_ast@;
                comexp_ast.push(comexp_current);
                proof {
                    lemma_groups_view_push(before, comexp_current);
                }
                comexp_current = Vec::new();
                assert(asts_view(comexp_current@) =~= Seq::<Ast>::empty());
            },
            TokenKind::Ellipses => {
                let chars = token.span.chars();
                add_text_node(&mut comexp_current, &chars);
                if let Some(t) = numexp_current {
                    let ghost before = numexp_ast@;
                    numexp_ast.push(t);
                    assert(token_views(numexp_ast@) =~= token_views(before).push(t@));
                    numexp_current = None;
                } else {
                    can_be_numeric = false;
                }
            },
            TokenKind::Text => {
                let chars = token.span.chars();
                add_text_node(&mut comexp_current, &chars);
                numexp_current = Some(token);
            },
            TokenKind::Whitespace => {
                proof {
                    assert(!(orig[olen - cur.len()].kind is Whitespace));
                }
                return unparsed(entry_input, options);
            },
        }
    }
    unparsed(entry_input, options)
}

/// Parses a section: a run of tokens with no whitespace among them.
pub fn parse_section<'a>(input: &'a [Token<'a>], options: &Options) -> (res: Result<
    Vec<AstToken>,
    Error,
>)
    requires
        no_blanks(token_views(input@)),
        positions_fit(token_views(input@)),
    ensures
        section_result_view(res) == spec_parse_section(token_views(input@), options.strict),
{
    let ghost orig = token_views(input@);
    let mut ast: Vec<AstToken> = Vec::new();
    let mut rest = input;
    proof {
        assert(asts_view(ast@) =~= Seq::<Ast>::empty());
        assert(prepend_ok(seq![], spec_parse_section(orig, options.strict)) == spec_parse_section(
            orig,
            options.strict,
        )) by {
            if let Ok(s) = spec_parse_section(orig, options.strict) {
                assert(Seq::<Ast>::empty() + s =~= s);
            }
        }
    }
    while rest.len() > 0
        invariant
            orig == token_views(input@),
            no_blanks(token_views(rest@)),
            positions_fit(token_views(rest@)),
            prepend_ok(asts_view(ast@), spec_parse_section(token_views(rest@), options.strict))
                == spec_parse_section(orig, options.strict),
        decreases rest@.len(),
    {
        let ghost cur = rest@;
        let ghost before = ast@;
        proof {
            lemma_views_subrange(cur, 1, cur.len() as int);
            assert(token_views(cur)[0] == cur[0]@);
        }
        let token = rest[0];
        rest = slice_subrange(rest, 1, rest.len());
        match token.kind {
            TokenKind::Start { .. } => {
                match parse_expansion(rest, options) {
                    Ok((new_input, ast_token)) => {
                        ast.push(ast_token);
                        proof {
                            lemma_asts_view_push(before, ast_token);
                            assert(asts_view(before).push(ast_view(ast_token)) =~= asts_view(before) + seq![ast_view(ast_token)]);
                            lemma_views_subrange(rest@, rest@.len() - new_input@.len(), rest@.len() as int);
                            lemma_prepend_ok(asts_view(before), seq![ast_view(ast_token)], spec_parse_section(token_views(new_input@), options.strict));
                        }
                        assert(token_views(rest@) == token_views(cur).subrange(1, cur.len() as int));
                        assert(spec_parse_section(token_views(cur), options.strict) == prepend_ok(seq![ast_view(ast_token)], spec_parse_section(token_views(new_input@), options.strict)));
                        rest = new_input;
                    },
                    Err(err) => {
                        return Err(err);
                    },
                }
            },
            TokenKind::Whitespace => {
                proof {
                    assert(!(token_views(cur)[0].kind is Whitespace));
                }
                return Ok(ast);
            },
            _ => {
                assert(token_views(rest@) == token_views(cur).subrange(1, cur.len() as int));
                assert(spec_parse_section(token_views(cur), options.strict) == prepend_ok(seq![Ast::Text(token@.span.chars())], spec_parse_section(token_views(rest@), options.strict)));
                let text = token.span.to_string();
                ast.push(AstToken::Text(text));
                proof {
                    lemma_asts_view_push(before, AstToken::Text(text));
                    assert(asts_view(before).push(Ast::Text(text@)) =~= asts_view(before) + seq![Ast::Text(text@)]);
                    lemma_prepend_ok(asts_view(before), seq![Ast::Text(token@.span.chars())], spec_parse_section(token_views(rest@), options.strict));
                }
            },
        }
    }
    proof {
        assert(asts_view(ast@) + Seq::<Ast>::empty() =~= asts_view(ast@));
    }
    Ok(ast)
}


proof fn lemma_add_text_wf(current: Seq<Ast>, text: Seq<char>)
    requires
        wf_asts(current),
    ensures
        wf_asts(add_text(current, text)),
{
    let r = add_text(current, text);
    assert forall|k: int| 0 <= k < r.len() implies wf_ast(#[trigger] r[k]) by {
        if k < current.len() && r[k] != current[k] {
            assert(r[k] is Text);
        }
    }
}

/// A range expansion that reads has a positive step.
pub proof fn lemma_numeric_wf(toks: Seq<TokView>)
    ensures
        spec_numeric(toks) matches Ok(a) ==> wf_ast(a),
{
}

/// What an expansion gives leaves at most the tokens it was given, holds only ranges
/// with a positive step, and in lenient mode is never an error.
pub proof fn lemma_expansion(toks: Seq<TokView>, strict: bool)
    ensures
        spec_expansion(toks, strict) matches Ok((r, a)) ==> r.len() <= toks.len() && wf_ast(a),
        !strict ==> spec_expansion(toks, strict) is Ok,
    decreases toks.len(), 1int,
{
    let st = initial_exp_state();
    assert(wf_asts(st.current));
    lemma_expansion_loop(toks, toks, st, strict);
}

proof fn lemma_expansion_loop(orig: Seq<TokView>, rest: Seq<TokView>, st: ExpState, strict: bool)
    requires
        rest.len() <= orig.len(),
        wf_asts(st.current),
        forall|m: int| 0 <= m < st.groups.len() ==> wf_asts(#[trigger] st.groups[m]),
    ensures
        expansion_loop(orig, rest, st, strict) matches Ok((r, a)) ==> r.len() <= orig.len()
            && wf_ast(a),
        !strict ==> expansion_loop(orig, rest, st, strict) is Ok,
    decreases rest.len(), 0int,
{
    if rest.len() > 0 {
        let t = rest[0];
        let r = rest.subrange(1, rest.len() as int);
        match t.kind {
            TokenKind::Start { .. } => {
                lemma_expansion(r, strict);
                match spec_expansion(r, strict) {
                    Ok((r2, a)) => {
                        if r2.len() <= r.len() {
                            let st2 = ExpState {
                                can_be_numeric: false,
                                current: st.current.push(a),
                                ..st
                            };
                            assert(wf_asts(st2.current)) by {
                                assert forall|k: int| 0 <= k < st2.current.len() implies wf_ast(
                                    #[trigger] st2.current[k],
                                ) by {
                                    if k < st.current.len() {
                                        assert(st2.current[k] == st.current[k]);
                                    }
                                }
                            }
                            lemma_expansion_loop(orig, r2, st2, strict);
                        }
                    },
                    Err(_) => {},
                }
            },
            TokenKind::End => {
                if st.found_comma {
                    let g = st.groups.push(st.current);
                    assert forall|m: int| 0 <= m < g.len() implies wf_asts(#[trigger] g[m]) by {
                        if m < st.groups.len() {
                            assert(g[m] == st.groups[m]);
                        }
                    }
                    lemma_wf_comma_intro(g);
                } else {
                    let numbers = match st.number {
                        Some(n) => st.numbers.push(n),
                        None => st.numbers,
                    };
                    lemma_numeric_wf(numbers);
                }
            },
            TokenKind::Comma => {
                let st2 = ExpState {
                    can_be_numeric: false,
                    found_comma: true,
                    groups: st.groups.push(st.current),
                    current: seq![],
                    ..st
                };
                assert forall|m: int| 0 <= m < st2.groups.len() implies wf_asts(
                    #[trigger] st2.groups[m],
                ) by {
                    if m < st.groups.len() {
                        assert(st2.groups[m] == st.groups[m]);
                    }
                }
                lemma_expansion_loop(orig, r, st2, strict);
            },
            TokenKind::Ellipses => {
                let current = add_text(st.current, t.span.chars());
                lemma_add_text_wf(st.current, t.span.chars());
                let st2 = match st.number {
                    Some(n) => ExpState {
                        numbers: st.numbers.push(n),
                        number: None,
                        current,
                        ..st
                    },
                    None => ExpState { can_be_numeric: false, current, ..st },
                };
                lemma_expansion_loop(orig, r, st2, strict);
            },
            _ => {
                lemma_add_text_wf(st.current, t.span.chars());
                lemma_expansion_loop(
                    orig,
                    r,
                    ExpState {
                        number: Some(t),
                        current: add_text(st.current, t.span.chars()),
                        ..st
                    },
                    strict,
                );
            },
        }
    }
}

/// A parsed section holds only ranges with a positive step, and in lenient mode
/// parsing a section never fails.
pub proof fn lemma_parse_section(toks: Seq<TokView>, strict: bool)
    ensures
        spec_parse_section(toks, strict) matches Ok(s) ==> wf_asts(s),
        !strict ==> spec_parse_section(toks, strict) is Ok,
    decreases toks.len(),
{
    if toks.len() > 0 {
        let t = toks[0];
        let r = toks.subrange(1, toks.len() as int);
        match t.kind {
            TokenKind::Start { .. } => {
                lemma_expansion(r, strict);
                if let Ok((r2, a)) = spec_expansion(r, strict) {
                    lemma_parse_section(r2, strict);
                    if let Ok(tail) = spec_parse_section(r2, strict) {
                        let s = seq![a] + tail;
                        assert forall|k: int| 0 <= k < s.len() implies wf_ast(#[trigger] s[k]) by {
                            if k > 0 {
                                assert(s[k] == tail[k - 1]);
                            }
                        }
                    }
                }
            },
            _ => {
                lemma_parse_section(r, strict);
                if let Ok(tail) = spec_parse_section(r, strict) {
                    let s = seq![Ast::Text(t.span.chars())] + tail;
                    assert forall|k: int| 0 <= k < s.len() implies wf_ast(#[trigger] s[k]) by {
                        if k > 0 {
                            assert(s[k] == tail[k - 1]);
                        }
                    }
                }
            },
        }
    }
}

/// An expansion that parses in strict mode parses the same way in lenient mode.
pub proof fn lemma_expansion_strict_lenient(toks: Seq<TokView>)
    ensures
        spec_expansion(toks, true) is Ok ==> spec_expansion(toks, false) == spec_expansion(toks, true),
    decreases toks.len(), 1int,
{
    lemma_loop_strict_lenient(toks, toks, initial_exp_state());
}

proof fn lemma_loop_strict_lenient(orig: Seq<TokView>, rest: Seq<TokView>, st: ExpState)
    ensures
        expansion_loop(orig, rest, st, true) is Ok ==> expansion_loop(orig, rest, st, false)
            == expansion_loop(orig, rest, st, true),
    decreases rest.len(), 0int,
{
    if rest.len() > 0 {
        let t = rest[0];
        let r = rest.subrange(1, rest.len() as int);
        match t.kind {
            TokenKind::Start { .. } => {
                lemma_expansion_strict_lenient(r);
                if let Ok((r2, a)) = spec_expansion(r, true) {
                    if r2.len() <= r.len() {
                        lemma_loop_strict_lenient(
                            orig,
                            r2,
                            ExpState { can_be_numeric: false, current: st.current.push(a), ..st },
                        );
                    }
                }
            },
            TokenKind::End => {},
            TokenKind::Comma => {
                lemma_loop_strict_lenient(
                    orig,
                    r,
                    ExpState {
                        can_be_numeric: false,
                        found_comma: true,
                        groups: st.groups.push(st.current),
                        current: seq![],
                        ..st
                    },
                );
            },
            TokenKind::Ellipses => {
                let current = add_text(st.current, t.span.chars());
                let st2 = match st.number {
                    Some(n) => ExpState {
                        numbers: st.numbers.push(n),
                        number: None,
                        current,
                        ..st
                    },
                    None => ExpState { can_be_numeric: false, current, ..st },
                };
                lemma_loop_strict_lenient(orig, r, st2);
            },
            _ => {
                lemma_loop_strict_lenient(
                    orig,
                    r,
                    ExpState {
                        number: Some(t),
                        current: add_text(st.current, t.span.chars()),
                        ..st
                    },
                );
            },
        }
    }
}

/// A section that parses in strict mode parses the same way in lenient mode.
pub proof fn lemma_section_strict_lenient(toks: Seq<TokView>)
    ensures
        spec_parse_section(toks, true) is Ok ==> spec_parse_section(toks, false)
            == spec_parse_section(toks, true),
    decreases toks.len(),
{
    if toks.len() > 0 {
        let t = toks[0];
        let r = toks.subrange(1, toks.len() as int);
        match t.kind {
            TokenKind::Start { .. } => {
                lemma_expansion_strict_lenient(r);
                if let Ok((r2, a)) = spec_expansion(r, true) {
                    if r2.len() <= r.len() {
                        lemma_section_strict_lenient(r2);
                    }
                }
            },
            _ => {
                lemma_section_strict_lenient(r);
            },
        }
    }
}

/// The parser state with its tokens moved on.
pub open spec fn shift_exp_state(st: ExpState, d: int, b: int) -> ExpState {
    ExpState {
        numbers: shift_tokens(st.numbers, d, b),
        number: match st.number {
            Some(t) => Some(shift_token(t, d, b)),
            None => None,
        },
        ..st
    }
}

proof fn lemma_range_bound_shift(t: TokView, d: int, b: int)
    ensures
        match spec_range_bound(t) {
            Ok(v) => spec_range_bound(shift_token(t, d, b)) == Ok::<RangeBound, Error>(v),
            Err(_) => spec_range_bound(shift_token(t, d, b)) is Err,
        },
{
}

proof fn lemma_numeric_shift(toks: Seq<TokView>, d: int, b: int)
    ensures
        match spec_numeric(toks) {
            Ok(a) => spec_numeric(shift_tokens(toks, d, b)) == Ok::<Ast, Error>(a),
            Err(_) => spec_numeric(shift_tokens(toks, d, b)) is Err,
        },
{
    let st = shift_tokens(toks, d, b);
    if toks.len() >= 2 {
        lemma_range_bound_shift(toks[0], d, b);
        lemma_range_bound_shift(toks[1], d, b);
        assert(st[0] == shift_token(toks[0], d, b));
        assert(st[1] == shift_token(toks[1], d, b));
        if toks.len() >= 3 {
            assert(st[2] == shift_token(toks[2], d, b));
        }
    }
}

proof fn lemma_shift_tail(rest: Seq<TokView>, d: int, b: int)
    requires
        rest.len() > 0,
    ensures
        shift_tokens(rest, d, b).subrange(1, rest.len() as int) == shift_tokens(rest.subrange(1, rest.len() as int), d, b),
        shift_tokens(rest, d, b)[0] == shift_token(rest[0], d, b),
{
    assert(shift_tokens(rest, d, b).subrange(1, rest.len() as int) =~= shift_tokens(rest.subrange(1, rest.len() as int), d, b));
}

/// Where the tokens stand in the input, and which `}` each `{` records, does not change
/// what an expansion parses to, only where an error points.
pub proof fn lemma_expansion_shift(toks: Seq<TokView>, strict: bool, d: int, b: int)
    ensures
        match spec_expansion(toks, strict) {
            Ok((r, a)) => spec_expansion(shift_tokens(toks, d, b), strict) == Ok::<(Seq<TokView>, Ast), Error>((shift_tokens(r, d, b), a)),
            Err(_) => spec_expansion(shift_tokens(toks, d, b), strict) is Err,
        },
    decreases toks.len(), 1int,
{
    let st = initial_exp_state();
    assert(shift_exp_state(st, d, b) == st) by {
        assert(shift_tokens(st.numbers, d, b) =~= st.numbers);
    }
    lemma_loop_shift(toks, toks, st, strict, d, b);
}

proof fn lemma_loop_shift(orig: Seq<TokView>, rest: Seq<TokView>, st: ExpState, strict: bool, d: int, b: int)
    ensures
        match expansion_loop(orig, rest, st, strict) {
            Ok((r, a)) => expansion_loop(shift_tokens(orig, d, b), shift_tokens(rest, d, b), shift_exp_state(st, d, b), strict)
                == Ok::<(Seq<TokView>, Ast), Error>((shift_tokens(r, d, b), a)),
            Err(_) => expansion_loop(shift_tokens(orig, d, b), shift_tokens(rest, d, b), shift_exp_state(st, d, b), strict) is Err,
        },
    decreases rest.len(), 0int,
{
    let so = shift_tokens(orig, d, b);
    let sr = shift_tokens(rest, d, b);
    let ss = shift_exp_state(st, d, b);
    if rest.len() > 0 {
        let t = rest[0];
        let r = rest.subrange(1, rest.len() as int);
        lemma_shift_tail(rest, d, b);
        match t.kind {
            TokenKind::Start { .. } => {
                lemma_expansion_shift(r, strict, d, b);
                if let Ok((r2, a)) = spec_expansion(r, strict) {
                    if r2.len() <= r.len() {
                        lemma_loop_shift(
                            orig,
                            r2,
                            ExpState { can_be_numeric: false, current: st.current.push(a), ..st },
                            strict,
                            d,
                            b,
                        );
                    }
                }
            },
            TokenKind::End => {
                let numbers = match st.number {
                    Some(n) => st.numbers.push(n),
                    None => st.numbers,
                };
                let snumbers = match ss.number {
                    Some(n) => ss.numbers.push(n),
                    None => ss.numbers,
                };
                assert(snumbers =~= shift_tokens(numbers, d, b));
                lemma_numeric_shift(numbers, d, b);
            },
            TokenKind::Comma => {
                lemma_loop_shift(
                    orig,
                    r,
                    ExpState {
                        can_be_numeric: false,
                        found_comma: true,
                        groups: st.groups.push(st.current),
                        current: seq![],
                        ..st
                    },
                    strict,
                    d,
                    b,
                );
            },
            TokenKind::Ellipses => {
                let current = add_text(st.current, t.span.chars());
                let st2 = match st.number {
                    Some(n) => ExpState {
                        numbers: st.numbers.push(n),
                        number: None,
                        current,
                        ..st
                    },
                    None => ExpState { can_be_numeric: false, current, ..st },
                };
                let ss2 = match ss.number {
                    Some(n) => ExpState {
                        numbers: ss.numbers.push(n),
                        number: None,
                        current,
                        ..ss
                    },
                    None => ExpState { can_be_numeric: false, current, ..ss },
                };
                assert(ss2 == shift_exp_state(st2, d, b)) by {
                    if let Some(n) = st.number {
                        assert(ss.numbers.push(shift_token(n, d, b)) =~= shift_tokens(st.numbers.push(n), d, b));
                    }
                }
                lemma_loop_shift(orig, r, st2, strict, d, b);
            },
            _ => {
                lemma_loop_shift(
                    orig,
                    r,
                    ExpState {
                        number: Some(t),
                        current: add_text(st.current, t.span.chars()),
                        ..st
                    },
                    strict,
                    d,
                    b,
                );
            },
        }
    }
}

/// Where the tokens stand in the input, and which `}` each `{` records, does not change
/// what a section parses to, only where an error points.
pub proof fn lemma_section_shift(toks: Seq<TokView>, strict: bool, d: int, b: int)
    ensures
        match spec_parse_section(toks, strict) {
            Ok(v) => spec_parse_section(shift_tokens(toks, d, b), strict) == Ok::<Seq<Ast>, Error>(v),
            Err(_) => spec_parse_section(shift_tokens(toks, d, b), strict) is Err,
        },
    decreases toks.len(),
{
    if toks.len() > 0 {
        let t = toks[0];
        let r = toks.subrange(1, toks.len() as int);
        lemma_shift_tail(toks, d, b);
        match t.kind {
            TokenKind::Start { .. } => {
                lemma_expansion_shift(r, strict, d, b);
                if let Ok((r2, a)) = spec_expansion(r, strict) {
                    if r2.len() <= r.len() {
                        lemma_section_shift(r2, strict, d, b);
                    }
                }
            },
            _ => {
                lemma_section_shift(r, strict, d, b);
            },
        }
    }
}

/// `r` is what is left of `toks` after a `}` token: a proper suffix of `toks` right
/// after an end token.
pub open spec fn after_end(toks: Seq<TokView>, r: Seq<TokView>) -> bool {
    &&& r.len() < toks.len()
    &&& r == toks.subrange(toks.len() - r.len(), toks.len() as int)
    &&& toks[toks.len() - r.len() - 1].kind == TokenKind::End
}

/// An expansion consumes no token only when it is not parsed (in lenient mode, and the
/// `{` stands for itself); else it ends right after a `}` token.
pub proof fn lemma_expansion_ends_at_brace(toks: Seq<TokView>, strict: bool)
    ensures
        spec_expansion(toks, strict) matches Ok((r, a)) ==> {
            ||| r == toks && a == Ast::Text(seq!['{']) && !strict
            ||| after_end(toks, r)
        },
    decreases toks.len(), 1int,
{
    assert(toks.subrange(0, toks.len() as int) =~= toks);
    lemma_loop_ends_at_brace(toks, toks, initial_exp_state(), strict);
}

proof fn lemma_loop_ends_at_brace(orig: Seq<TokView>, rest: Seq<TokView>, st: ExpState, strict: bool)
    requires
        rest.len() <= orig.len(),
        rest == orig.subrange(orig.len() - rest.len(), orig.len() as int),
    ensures
        expansion_loop(orig, rest, st, strict) matches Ok((r, a)) ==> {
            ||| r == orig && a == Ast::Text(seq!['{']) && !strict
            ||| after_end(orig, r)
        },
    decreases rest.len(), 0int,
{
    if rest.len() > 0 {
        let t = rest[0];
        let r = rest.subrange(1, rest.len() as int);
        let k = orig.len() - rest.len();
        assert(r =~= orig.subrange(orig.len() - r.len(), orig.len() as int));
        assert(orig[k] == t);
        match t.kind {
            TokenKind::Start { .. } => {
                lemma_expansion_ends_at_brace(r, strict);
                if let Ok((r2, a)) = spec_expansion(r, strict) {
                    if r2.len() <= r.len() {
                        if r2 != r {
                            assert(r2 =~= orig.subrange(orig.len() - r2.len(), orig.len() as int));
                        }
                        lemma_loop_ends_at_brace(
                            orig,
                            r2,
                            ExpState { can_be_numeric: false, current: st.current.push(a), ..st },
                            strict,
                        );
                    }
                }
            },
            TokenKind::End => {},
            TokenKind::Comma => {
                lemma_loop_ends_at_brace(
                    orig,
                    r,
                    ExpState {
                        can_be_numeric: false,
                        found_comma: true,
                        groups: st.groups.push(st.current),
                        current: seq![],
                        ..st
                    },
                    strict,
                );
            },
            TokenKind::Ellipses => {
                let current = add_text(st.current, t.span.chars());
                let st2 = match st.number {
                    Some(n) => ExpState {
                        numbers: st.numbers.push(n),
                        number: None,
                        current,
                        ..st
                    },
                    None => ExpState { can_be_numeric: false, current, ..st },
                };
                lemma_loop_ends_at_brace(orig, r, st2, strict);
            },
            _ => {
                lemma_loop_ends_at_brace(
                    orig,
                    r,
                    ExpState {
                        number: Some(t),
                        current: add_text(st.current, t.span.chars()),
                        ..st
                    },
                    strict,
                );
            },
        }
    }
}
/// A range of integers `{a..b}` reads each bound as `str::parse::<i32>` does, steps by
/// one, and pads its values with the larger of the runs of zeros written at the start
/// of the two bounds (the last character of each aside): zeros written on either bound
/// are kept.
pub proof fn lemma_integer_range(
    a: TokView,
    dots: TokView,
    b: TokView,
    end: TokView,
    rest: Seq<TokView>,
    strict: bool,
    va: int,
    vb: int,
)
    requires
        a.kind == TokenKind::Text,
        dots.kind == TokenKind::Ellipses,
        b.kind == TokenKind::Text,
        end.kind == TokenKind::End,
        spec_parse_int(a.span.raw) == Some(va),
        spec_parse_int(b.span.raw) == Some(vb),
        i32::MIN <= va <= i32::MAX,
        i32::MIN <= vb <= i32::MAX,
    ensures
        ({
            let za = leading_zero_count(a.span.raw.drop_last()) as usize;
            let zb = leading_zero_count(b.span.raw.drop_last()) as usize;
            spec_expansion(seq![a, dots, b, end] + rest, strict) == Ok::<(Seq<TokView>, Ast), Error>(
                (
                    rest,
                    Ast::Numeric {
                        start: va as i32,
                        end: vb as i32,
                        step: 1,
                        leading_zeros: if za >= zb {
                            za
                        } else {
                            zb
                        },
                    },
                ),
            )
        }),
{
    lemma_plain_bound(a);
    lemma_plain_bound(b);
    let toks = seq![a, dots, b, end] + rest;
    let r1 = toks.subrange(1, toks.len() as int);
    let r2 = r1.subrange(1, r1.len() as int);
    let r3 = r2.subrange(1, r2.len() as int);
    let r4 = r3.subrange(1, r3.len() as int);
    assert(toks[0] == a);
    assert(r1[0] == dots);
    assert(r2[0] == b);
    assert(r3[0] == end);
    assert(r4 =~= rest);
    let s0 = initial_exp_state();
    let s1 = ExpState { number: Some(a), current: add_text(s0.current, a.span.chars()), ..s0 };
    let c2 = add_text(s1.current, dots.span.chars());
    let s2 = ExpState { numbers: s1.numbers.push(a), number: None, current: c2, ..s1 };
    let s3 = ExpState { number: Some(b), current: add_text(s2.current, b.span.chars()), ..s2 };
    assert(expansion_loop(toks, r3, s3, strict) == match spec_numeric(s2.numbers.push(b)) {
        Ok(x) => Ok::<(Seq<TokView>, Ast), Error>((r4, x)),
        Err(e) => if strict {
            Err(e)
        } else {
            spec_unparsed(toks, strict)
        },
    });
    assert(expansion_loop(toks, r2, s2, strict) == expansion_loop(toks, r3, s3, strict));
    assert(expansion_loop(toks, r1, s1, strict) == expansion_loop(toks, r2, s2, strict));
    assert(expansion_loop(toks, toks, s0, strict) == expansion_loop(toks, r1, s1, strict));
    let nums = s2.numbers.push(b);
    assert(nums =~= seq![a, b]);
    assert(nums[0] == a && nums[1] == b);
}

proof fn lemma_plain_bound(t: TokView)
    requires
        spec_parse_int(t.span.raw) is Some,
    ensures
        t.span.chars() == t.span.raw,
        t.span.raw.len() > 0,
        t.span.raw.take(t.span.raw.len() - 1) == t.span.raw.drop_last(),
{
    lemma_parse_int_chars(t.span.raw);
    assert forall|i: int| 0 <= i < t.span.raw.len() implies #[trigger] t.span.raw[i] != '\\' by {
        assert(is_digit(t.span.raw[i]) || t.span.raw[i] == '+' || t.span.raw[i] == '-');
    }
    crate::tokenizer::lemma_unescape_plain(t.span.raw);
    assert(t.span.raw.take(t.span.raw.len() - 1) =~= t.span.raw.drop_last());
}

} // verus!
