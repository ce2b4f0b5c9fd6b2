//! Splitting the input into tokens: braces, commas and `..` inside braces, runs of
//! whitespace and runs of text.
use vstd::prelude::*;
use vstd::slice::slice_subrange;
use vstd::utf8::{encode_scalar, encode_utf8};

use crate::error::{spec_error_at, Error};
use crate::Options;

verus! {

/// What a token is.
#[derive(Clone, Copy, Debug, PartialEq, Eq)]
pub enum TokenKind {
    /// `{`; `end` is the index of the matching `}` token, if there is one
    Start { end: Option<usize> },
    /// `}`
    End,
    /// `,` inside braces
    Comma,
    /// `..` inside braces
    Ellipses,
    /// A run of spaces, tabs, carriage returns and line feeds
    Whitespace,
    /// A run of anything else
    Text,
}

/// A piece of the input that may hold backslash escapes.
#[derive(Copy, Clone, Debug)]
pub struct EscapeStr<'a> {
    interpret_backslashes: bool,
    raw: &'a [char],
}

/// The model of an [`EscapeStr`]: its raw characters, and whether a backslash in them
/// escapes the character after it.
pub struct EscapedView {
    pub interpret_backslashes: bool,
    pub raw: Seq<char>,
}

/// `raw` with each backslash removed and the character after it kept as it is; a
/// backslash at the very end is dropped.
pub open spec fn unescape(raw: Seq<char>) -> Seq<char>
    decreases raw.len(),
{
    if raw.len() == 0 {
        seq![]
    } else if raw[0] == '\\' {
        if raw.len() == 1 {
            seq![]
        } else {
            seq![raw[1]] + unescape(raw.subrange(2, raw.len() as int))
        }
    } else {
        seq![raw[0]] + unescape(raw.subrange(1, raw.len() as int))
    }
}

impl EscapedView {
    /// The characters that the text stands for.
    pub open spec fn chars(self) -> Seq<char> {
        if self.interpret_backslashes {
            unescape(self.raw)
        } else {
            self.raw
        }
    }
}

impl<'a> View for EscapeStr<'a> {
    type V = EscapedView;

    closed spec fn view(&self) -> EscapedView {
        EscapedView { interpret_backslashes: self.interpret_backslashes, raw: self.raw@ }
    }
}

impl<'a> EscapeStr<'a> {
    /// Text `raw`, read with the escaping rule of `options`.
    pub fn new(raw: &'a [char], options: &Options) -> (s: Self)
        ensures
            s@ == (EscapedView {
                interpret_backslashes: options.interpret_backslashes,
                raw: raw@,
            }),
    {
        Self { interpret_backslashes: options.interpret_backslashes, raw }
    }

    /// The characters as they were written.
    pub fn raw(&self) -> (r: &'a [char])
        ensures
            r@ == self@.raw,
    {
        self.raw
    }

    /// The characters that the text stands for.
    pub fn chars(&self) -> (out: Vec<char>)
        ensures
            out@ == self@.chars(),
    {
        let raw = self.raw;
        let len = raw.len();
        let mut out: Vec<char> = Vec::new();
        if !self.interpret_backslashes {
            let mut i: usize = 0;
            while i < len
                invariant
                    i <= len,
                    len == raw@.len(),
                    out@ == raw@.take(i as int),
                decreases len - i,
            {
                out.push(raw[i]);
                i += 1;
                assert(out@ =~= raw@.take(i as int));
            }
            assert(raw@.take(len as int) =~= raw@);
            return out;
        }
        let mut i: usize = 0;
        assert(raw@.subrange(0, len as int) =~= raw@);
        while i < len
            invariant
                i <= len,
                len == raw@.len(),
                out@ + unescape(raw@.subrange(i as int, len as int)) == unescape(raw@),
            decreases len - i,
        {
            let ghost rest = raw@.subrange(i as int, len as int);
            if raw[i] == '\\' {
                if i + 1 < len {
                    out.push(raw[i + 1]);
                    assert(rest.subrange(2, rest.len() as int) =~= raw@.subrange(
                        i + 2,
                        len as int,
                    ));
                    assert(out@ + unescape(raw@.subrange(i + 2, len as int)) =~= unescape(raw@));
                    i += 2;
                } else {
                    let ghost empty: Seq<char> = seq![];
                    assert(unescape(rest) =~= empty);
                    assert(raw@.subrange(len as int, len as int) =~= empty);
                    i += 1;
                }
            } else {
                out.push(raw[i]);
                assert(rest.subrange(1, rest.len() as int) =~= raw@.subrange(i + 1, len as int));
                assert(out@ + unescape(raw@.subrange(i + 1, len as int)) =~= unescape(raw@));
                i += 1;
            }
        }
        assert(unescape(raw@.subrange(len as int, len as int)) =~= seq![]);
        assert(out@ =~= unescape(raw@));
        out
    }

    /// The number of characters that the text stands for.
    pub fn len(&self) -> (n: usize)
        ensures
            n == self@.chars().len(),
    {
        self.chars().len()
    }

    /// The text that the characters stand for, as a `String`.
    pub fn to_string(&self) -> (s: String)
        ensures
            s@ == self@.chars(),
    {
        let v = self.chars();
        let mut s = String::new();
        let mut i: usize = 0;
        while i < v.len()
            invariant
                i <= v@.len(),
                s@ == v@.take(i as int),
            decreases v@.len() - i,
        {
            s.push(v[i]);
            i += 1;
            assert(s@ =~= v@.take(i as int));
        }
        assert(v@.take(v@.len() as int) =~= v@);
        s
    }
}

/// A token: what it is, the byte offset in the input where it starts, and its text.
#[derive(Clone, Copy, Debug)]
pub struct Token<'a> {
    pub kind: TokenKind,
    pub pos: usize,
    pub span: EscapeStr<'a>,
}

/// The model of a [`Token`].
pub struct TokView {
    pub kind: TokenKind,
    pub pos: int,
    pub span: EscapedView,
}

impl<'a> View for Token<'a> {
    type V = TokView;

    open spec fn view(&self) -> TokView {
        TokView { kind: self.kind, pos: self.pos as int, span: self.span@ }
    }
}

/// The models of a sequence of tokens.
pub open spec fn token_views(s: Seq<Token>) -> Seq<TokView> {
    s.map_values(|t: Token| t@)
}

/// A token whose end is not known yet: what it is, its byte offset, and the index of
/// its first character.
#[derive(Debug)]
pub struct PartialToken {
    pub kind: TokenKind,
    pub pos: usize,
    pub start: usize,
}

impl PartialToken {
    /// Ends the token before character `end` of `span`.
    pub fn with_span<'a>(self, span: &'a [char], end: usize, options: &Options) -> (t: Token<'a>)
        requires
            self.start < end <= span@.len(),
        ensures
            t@ == (TokView {
                kind: self.kind,
                pos: self.pos as int,
                span: EscapedView {
                    interpret_backslashes: options.interpret_backslashes,
                    raw: span@.subrange(self.start as int, end as int),
                },
            }),
    {
        Token {
            kind: self.kind,
            pos: self.pos,
            span: EscapeStr::new(slice_subrange(span, self.start, end), options),
        }
    }
}

/// The byte offset of character `i` of `input` in its UTF-8 encoding.
pub open spec fn byte_offset(input: Seq<char>, i: int) -> int {
    encode_utf8(input.take(i)).len() as int
}

/// `c` is a space, tab, carriage return or line feed.
pub open spec fn is_blank(c: char) -> bool {
    c == ' ' || c == '\t' || c == '\r' || c == '\n'
}

/// A token in the making: what it is, its byte offset, and the index of its first
/// character.
pub struct Pending {
    pub kind: TokenKind,
    pub pos: int,
    pub start: int,
}

/// Where the tokenizer stands: the tokens so far, the token in the making, and the
/// indices of the `{` tokens that are not closed yet, innermost last.
pub struct TokState {
    pub tokens: Seq<TokView>,
    pub pending: Option<Pending>,
    pub stack: Seq<usize>,
}

/// The state before the first character.
pub open spec fn initial_state() -> TokState {
    TokState { tokens: seq![], pending: None, stack: seq![] }
}

/// Ends the token in the making, if any, before character `i`.
pub open spec fn close_pending(input: Seq<char>, interp: bool, st: TokState, i: int) -> TokState {
    match st.pending {
        Some(p) => TokState {
            tokens: st.tokens.push(
                TokView {
                    kind: p.kind,
                    pos: p.pos,
                    span: EscapedView {
                        interpret_backslashes: interp,
                        raw: input.subrange(p.start, i),
                    },
                },
            ),
            pending: None,
            stack: st.stack,
        },
        None => st,
    }
}

/// The token of kind `kind` made of the `n` characters from `i` on.
pub open spec fn fixed_token(
    input: Seq<char>,
    interp: bool,
    kind: TokenKind,
    i: int,
    n: int,
) -> TokView {
    TokView {
        kind,
        pos: byte_offset(input, i),
        span: EscapedView { interpret_backslashes: interp, raw: input.subrange(i, i + n) },
    }
}

/// Records in the `{` token at index `k` that its `}` is token `n`.
pub open spec fn mark_end(tokens: Seq<TokView>, k: int, n: int) -> Seq<TokView> {
    if 0 <= k < tokens.len() && tokens[k].kind is Start {
        tokens.update(k, TokView { kind: TokenKind::Start { end: Some(n as usize) }, ..tokens[k] })
    } else {
        tokens
    }
}

/// Closes the token in the making, then adds the `n`-character token of kind `kind`
/// at character `i`.
pub open spec fn add_fixed(
    input: Seq<char>,
    interp: bool,
    st: TokState,
    kind: TokenKind,
    i: int,
    n: int,
) -> TokState {
    let s = close_pending(input, interp, st, i);
    TokState { tokens: s.tokens.push(fixed_token(input, interp, kind, i, n)), ..s }
}

/// Character `i` continues or starts a token of kind `kind` (whitespace or text).
pub open spec fn extend_run(
    input: Seq<char>,
    interp: bool,
    st: TokState,
    kind: TokenKind,
    i: int,
) -> TokState {
    let s = match st.pending {
        Some(p) => if p.kind == kind {
            st
        } else {
            close_pending(input, interp, st, i)
        },
        None => st,
    };
    match s.pending {
        Some(_) => s,
        None => TokState {
            pending: Some(Pending { kind, pos: byte_offset(input, i), start: i }),
            ..s
        },
    }
}

/// Reads character `i` (and the one after it, for `..` and for an escape); gives the
/// index of the next unread character and the new state.
pub open spec fn step(input: Seq<char>, interp: bool, i: int, st: TokState) -> Result<
    (int, TokState),
    Error,
> {
    let c = input[i];
    if c == '{' {
        let s = close_pending(input, interp, st, i);
        Ok(
            (
                i + 1,
                TokState {
                    tokens: s.tokens.push(
                        fixed_token(input, interp, TokenKind::Start { end: None }, i, 1),
                    ),
                    pending: None,
                    stack: s.stack.push(s.tokens.len() as usize),
                },
            ),
        )
    } else if c == '}' {
        let s = close_pending(input, interp, st, i);
        let n = s.tokens.len() as int;
        let (tokens, stack) = if s.stack.len() > 0 {
            (mark_end(s.tokens, s.stack.last() as int, n), s.stack.drop_last())
        } else {
            (s.tokens, s.stack)
        };
        Ok(
            (
                i + 1,
                TokState {
                    tokens: tokens.push(fixed_token(input, interp, TokenKind::End, i, 1)),
                    pending: None,
                    stack,
                },
            ),
        )
    } else if c == ',' && st.stack.len() > 0 {
        Ok((i + 1, add_fixed(input, interp, st, TokenKind::Comma, i, 1)))
    } else if c == '.' && st.stack.len() > 0 && i + 1 < input.len() && input[i + 1] == '.' {
        Ok((i + 2, add_fixed(input, interp, st, TokenKind::Ellipses, i, 2)))
    } else if is_blank(c) {
        Ok((i + 1, extend_run(input, interp, st, TokenKind::Whitespace, i)))
    } else if interp && c == '\\' {
        if i + 1 < input.len() {
            Ok((i + 2, extend_run(input, interp, st, TokenKind::Text, i)))
        } else {
            Err(Error::IncompleteEscape)
        }
    } else {
        Ok((i + 1, extend_run(input, interp, st, TokenKind::Text, i)))
    }
}

/// Reads the input from character `i` on, starting in state `st`.
pub open spec fn run(input: Seq<char>, interp: bool, i: int, st: TokState) -> Result<
    TokState,
    Error,
>
    decreases input.len() - i,
{
    if i < 0 || i >= input.len() {
        Ok(st)
    } else {
        match step(input, interp, i, st) {
            Ok((j, s)) => if j > i {
                run(input, interp, j, s)
            } else {
                Ok(s)
            },
            Err(e) => Err(e),
        }
    }
}

/// The message for a `{` that is never closed.
pub open spec fn missing_end_message() -> &'static str {
    "Start bracket is missing end bracket"
}

/// The tokens of `input`, or the error that tokenizing it meets: an escape with
/// nothing after it, or (in strict mode) a `{` that is never closed, reported at the
/// innermost such `{`.
pub open spec fn spec_tokenize(input: Seq<char>, options: Options) -> Result<Seq<TokView>, Error> {
    let interp = options.interpret_backslashes;
    match run(input, interp, 0, initial_state()) {
        Err(e) => Err(e),
        Ok(st) => {
            let s = close_pending(input, interp, st, input.len() as int);
            if options.strict && s.stack.len() > 0 && s.stack.last() < s.tokens.len() {
                Err(spec_error_at(missing_end_message(), s.tokens[s.stack.last() as int].pos))
            } else {
                Ok(s.tokens)
            }
        },
    }
}

/// The models of the tokens that `r` holds, or its error.
pub open spec fn tokens_result_view(r: Result<Vec<Token>, Error>) -> Result<Seq<TokView>, Error> {
    match r {
        Ok(v) => Ok(token_views(v@)),
        Err(e) => Err(e),
    }
}

proof fn lemma_encode_concat(a: Seq<char>, b: Seq<char>)
    ensures
        encode_utf8(a + b) == encode_utf8(a) + encode_utf8(b),
    decreases a.len(),
{
    if a.len() == 0 {
        assert(a + b =~= b);
        assert(encode_utf8(a) + encode_utf8(b) =~= encode_utf8(b));
    } else {
        assert((a + b).drop_first() =~= a.drop_first() + b);
        lemma_encode_concat(a.drop_first(), b);
        assert(encode_utf8(a + b) =~= encode_utf8(a) + encode_utf8(b));
    }
}

/// The byte offset of character `i + 1` is that of character `i` plus the width of
/// character `i`, and it does not pass the end of the encoding.
proof fn lemma_byte_offset_step(input: Seq<char>, i: int)
    requires
        0 <= i < input.len(),
    ensures
        byte_offset(input, i + 1) == byte_offset(input, i) + encode_scalar(input[i] as u32).len(),
        byte_offset(input, i + 1) <= encode_utf8(input).len(),
        encode_scalar(input[i] as u32).len() >= 1,
{
    assert(input.take(i + 1) =~= input.take(i) + seq![input[i]]);
    lemma_encode_concat(input.take(i), seq![input[i]]);
    let one = seq![input[i]];
    assert(one[0] == input[i]);
    assert(one.drop_first() =~= Seq::<char>::empty());
    assert(encode_utf8(Seq::<char>::empty()) =~= Seq::<u8>::empty());
    assert(encode_utf8(one) =~= encode_scalar(input[i] as u32));
    assert(input =~= input.take(i + 1) + input.skip(i + 1));
    lemma_encode_concat(input.take(i + 1), input.skip(i + 1));
}

/// The number of bytes that `c` takes in UTF-8.
pub fn utf8_width(c: char) -> (w: usize)
    ensures
        w == encode_scalar(c as u32).len(),
{
    let u = c as u32;
    proof {
        vstd::utf8::char_is_scalar(c);
    }
    if u <= 0x7f {
        1
    } else if u <= 0x7ff {
        2
    } else if u <= 0xffff {
        3
    } else {
        4
    }
}

/// Splits `input` into tokens.
pub fn tokenize<'a>(input: &'a [char], options: &Options) -> (res: Result<Vec<Token<'a>>, Error>)
    requires
        encode_utf8(input@).len() <= usize::MAX,
    ensures
        tokens_result_view(res) == spec_tokenize(input@, *options),
        res matches Ok(v) ==> forall|k: int|
            0 <= k < v.len() ==> #[trigger] v[k].pos < encode_utf8(input@).len(),
{
    let interp = options.interpret_backslashes;
    let mut tokens: Vec<Token<'a>> = Vec::new();
    let mut token: Option<PartialToken> = None;
    let mut brace_stack: Vec<usize> = Vec::new();
    let len = input.len();
    let ghost total = encode_utf8(input@).len() as int;
    let mut i: usize = 0;
    let mut byte: usize = 0;
    assert(input@.take(0) =~= Seq::<char>::empty());
    assert(state_view(tokens@, token, brace_stack@) == initial_state()) by {
        assert(token_views(tokens@) =~= Seq::<TokView>::empty());
        assert(brace_stack@ =~= Seq::<usize>::empty());
    }
    while i < len
        invariant
            i <= len,
            len == input@.len(),
            total == encode_utf8(input@).len(),
            total <= usize::MAX,
            interp == options.interpret_backslashes,
            byte == byte_offset(input@, i as int),
            byte <= total,
            run(input@, interp, i as int, state_view(tokens@, token, brace_stack@)) == run(
                input@,
                interp,
                0,
                initial_state(),
            ),
            forall|k: int| 0 <= k < brace_stack@.len() ==> #[trigger] brace_stack@[k] < tokens@.len(),
            forall|k: int| 0 <= k < tokens@.len() ==> #[trigger] tokens@[k].pos < total,
            token matches Some(p) ==> p.start < i && p.pos < total,
        decreases len - i,
    {
        let c = input[i];
        let w = utf8_width(c);
        proof {
            lemma_byte_offset_step(input@, i as int);
        }
        let ghost st = state_view(tokens@, token, brace_stack@);
        if c == '{' {
            flush(&mut tokens, &mut token, input, i, options);
            brace_stack.push(tokens.len());
            let t = Token {
                kind: TokenKind::Start { end: None },
                pos: byte,
                span: EscapeStr::new(slice_subrange(input, i, i + 1), options),
            };
            tokens.push(t);
            proof {
                assert(token_views(tokens@) =~= close_pending(input@, interp, st, i as int).tokens.push(
                    t@,
                ));
            }
            i += 1;
            byte += w;
        } else if c == '}' {
            flush(&mut tokens, &mut token, input, i, options);
            let ghost s = close_pending(input@, interp, st, i as int);
            if brace_stack.len() > 0 {
                let start_pos = brace_stack.pop().unwrap();
                let n = tokens.len();
                let t = tokens[start_pos];
                if let TokenKind::Start { .. } = t.kind {
                    tokens.set(
                        start_pos,
                        Token { kind: TokenKind::Start { end: Some(n) }, pos: t.pos, span: t.span },
                    );
                }
                proof {
                    assert(brace_stack@ =~= s.stack.drop_last());
                    assert(token_views(tokens@) =~= mark_end(s.tokens, start_pos as int, n as int));
                }
            }
            let ghost before = token_views(tokens@);
            let t = Token {
                kind: TokenKind::End,
                pos: byte,
                span: EscapeStr::new(slice_subrange(input, i, i + 1), options),
            };
            tokens.push(t);
            proof {
                assert(token_views(tokens@) =~= before.push(t@));
            }
            i += 1;
            byte += w;
        } else if c == ',' && brace_stack.len() > 0 {
            flush(&mut tokens, &mut token, input, i, options);
            let ghost before = token_views(tokens@);
            let t = Token {
                kind: TokenKind::Comma,
                pos: byte,
                span: EscapeStr::new(slice_subrange(input, i, i + 1), options),
            };
            tokens.push(t);
            proof {
                assert(token_views(tokens@) =~= before.push(t@));
            }
            i += 1;
            byte += w;
        } else if c == '.' && brace_stack.len() > 0 && i + 1 < len && input[i + 1] == '.' {
            flush(&mut tokens, &mut token, input, i, options);
            let ghost before = token_views(tokens@);
            let t = Token {
                kind: TokenKind::Ellipses,
                pos: byte,
                span: EscapeStr::new(slice_subrange(input, i, i + 2), options),
            };
            tokens.push(t);
            proof {
                assert(token_views(tokens@) =~= before.push(t@));
                lemma_byte_offset_step(input@, i + 1);
            }
            i += 2;
            byte += w + 1;
        } else if c == ' ' || c == '\t' || c == '\r' || c == '\n' {
            extend(&mut tokens, &mut token, input, i, byte, TokenKind::Whitespace, options);
            i += 1;
            byte += w;
        } else {
            let escape = interp && c == '\\';
            if escape && i + 1 >= len {
                return Err(Error::IncompleteEscape);
            }
            extend(&mut tokens, &mut token, input, i, byte, TokenKind::Text, options);
            if escape {
                let w2 = utf8_width(input[i + 1]);
                proof {
                    lemma_byte_offset_step(input@, i + 1);
                }
                i += 2;
                byte += w + w2;
            } else {
                i += 1;
                byte += w;
            }
        }
    }
    flush(&mut tokens, &mut token, input, len, options);
    if options.strict && brace_stack.len() > 0 {
        let idx = brace_stack[brace_stack.len() - 1];
        if idx < tokens.len() {
            return Err(Error::with_context("Start bracket is missing end bracket", &tokens[idx]));
        }
    }
    Ok(tokens)
}

/// The model of the tokenizer's variables.
pub open spec fn state_view(tokens: Seq<Token>, token: Option<PartialToken>, stack: Seq<usize>) -> TokState {
    TokState {
        tokens: token_views(tokens),
        pending: match token {
            Some(p) => Some(Pending { kind: p.kind, pos: p.pos as int, start: p.start as int }),
            None => None,
        },
        stack,
    }
}

/// Ends the token in the making, if any, before character `i`.
fn flush<'a>(
    tokens: &mut Vec<Token<'a>>,
    token: &mut Option<PartialToken>,
    input: &'a [char],
    i: usize,
    options: &Options,
)
    requires
        i <= input@.len(),
        *old(token) matches Some(p) ==> p.start < i,
    ensures
        state_view(final(tokens)@, *final(token), seq![]) == close_pending(
            input@,
            options.interpret_backslashes,
            state_view(old(tokens)@, *old(token), seq![]),
            i as int,
        ),
        *final(token) is None,
        final(tokens)@.len() >= old(tokens)@.len(),
        forall|k: int| 0 <= k < old(tokens)@.len() ==> final(tokens)@[k] == old(tokens)@[k],
        *old(token) matches Some(p) ==> final(tokens)@.len() == old(tokens)@.len() + 1
            && final(tokens)@.last().pos == p.pos,
        *old(token) is None ==> final(tokens)@ == old(tokens)@,
{
    if let Some(t) = token.take() {
        let ghost before = token_views(tokens@);
        let made = t.with_span(input, i, options);
        tokens.push(made);
        assert(token_views(tokens@) =~= before.push(made@));
    }
}

/// Whether two token kinds are the same.
fn same_kind(a: TokenKind, b: TokenKind) -> (r: bool)
    ensures
        r == (a == b),
{
    match (a, b) {
        (TokenKind::Start { end: x }, TokenKind::Start { end: y }) => match (x, y) {
            (Some(m), Some(n)) => m == n,
            (None, None) => true,
            _ => false,
        },
        (TokenKind::End, TokenKind::End) => true,
        (TokenKind::Comma, TokenKind::Comma) => true,
        (TokenKind::Ellipses, TokenKind::Ellipses) => true,
        (TokenKind::Whitespace, TokenKind::Whitespace) => true,
        (TokenKind::Text, TokenKind::Text) => true,
        _ => false,
    }
}

/// Character `i`, at byte offset `byte`, continues or starts a token of kind `kind`.
fn extend<'a>(
    tokens: &mut Vec<Token<'a>>,
    token: &mut Option<PartialToken>,
    input: &'a [char],
    i: usize,
    byte: usize,
    kind: TokenKind,
    options: &Options,
)
    requires
        i < input@.len(),
        byte == byte_offset(input@, i as int),
        *old(token) matches Some(p) ==> p.start < i,
    ensures
        forall|stack: Seq<usize>|
            state_view(final(tokens)@, *final(token), stack) == #[trigger] extend_run(
                input@,
                options.interpret_backslashes,
                state_view(old(tokens)@, *old(token), stack),
                kind,
                i as int,
            ),
        final(tokens)@.len() >= old(tokens)@.len(),
        forall|k: int| 0 <= k < old(tokens)@.len() ==> final(tokens)@[k] == old(tokens)@[k],
        final(tokens)@.len() <= old(tokens)@.len() + 1,
        final(tokens)@.len() == old(tokens)@.len() + 1 ==> (*old(token) matches Some(p)
            && final(tokens)@.last().pos == p.pos),
        *final(token) matches Some(p) ==> p.start <= i && (p.start == i ==> p.pos == byte) && (
        p.start < i ==> *old(token) == *final(token)),
{
    let same = match token {
        Some(p) => same_kind(p.kind, kind),
        None => false,
    };
    if !same {
        flush(tokens, token, input, i, options);
    }
    if token.is_none() {
        *token = Some(PartialToken { kind, pos: byte, start: i });
    }
}


/// The only error that reading the characters can meet is an escape with nothing
/// after it.
proof fn lemma_run_errors(input: Seq<char>, interp: bool, i: int, st: TokState)
    ensures
        run(input, interp, i, st) matches Err(e) ==> e == Error::IncompleteEscape,
    decreases input.len() - i,
{
    if 0 <= i < input.len() {
        if let Ok((j, s)) = step(input, interp, i, st) {
            if j > i {
                lemma_run_errors(input, interp, j, s);
            }
        }
    }
}

/// In lenient mode the only error that tokenizing can meet is an escape with nothing
/// after it.
pub proof fn lemma_lenient_tokenize(input: Seq<char>, options: Options)
    requires
        !options.strict,
    ensures
        spec_tokenize(input, options) matches Err(e) ==> e == Error::IncompleteEscape,
{
    lemma_run_errors(input, options.interpret_backslashes, 0, initial_state());
}

/// The raw texts of `toks`, one after the other.
pub open spec fn joined_raw(toks: Seq<TokView>) -> Seq<char>
    decreases toks.len(),
{
    if toks.len() == 0 {
        seq![]
    } else {
        joined_raw(toks.drop_last()) + toks.last().span.raw
    }
}

/// The text read so far of the token in the making.
pub open spec fn pending_text(input: Seq<char>, st: TokState, i: int) -> Seq<char> {
    match st.pending {
        Some(p) => input.subrange(p.start, i),
        None => seq![],
    }
}

/// Every character before `i` is in a token or in the token in the making.
pub open spec fn covers(input: Seq<char>, st: TokState, i: int) -> bool {
    &&& 0 <= i <= input.len()
    &&& st.pending matches Some(p) ==> 0 <= p.start <= i
    &&& joined_raw(st.tokens) + pending_text(input, st, i) == input.take(i)
}

proof fn lemma_joined_raw_same(a: Seq<TokView>, b: Seq<TokView>)
    requires
        a.len() == b.len(),
        forall|k: int| 0 <= k < a.len() ==> #[trigger] a[k].span.raw == b[k].span.raw,
    ensures
        joined_raw(a) == joined_raw(b),
    decreases a.len(),
{
    if a.len() > 0 {
        lemma_joined_raw_same(a.drop_last(), b.drop_last());
    }
}

proof fn lemma_joined_raw_push(a: Seq<TokView>, t: TokView)
    ensures
        joined_raw(a.push(t)) == joined_raw(a) + t.span.raw,
{
    assert(a.push(t).drop_last() =~= a);
}

proof fn lemma_close_covers(input: Seq<char>, interp: bool, st: TokState, i: int)
    requires
        covers(input, st, i),
    ensures
        covers(input, close_pending(input, interp, st, i), i),
        close_pending(input, interp, st, i).pending is None,
        close_pending(input, interp, st, i).stack == st.stack,
{
    let s = close_pending(input, interp, st, i);
    if let Some(p) = st.pending {
        lemma_joined_raw_push(st.tokens, s.tokens.last());
        assert(s.tokens.drop_last() =~= st.tokens);
    }
    assert(joined_raw(s.tokens) + pending_text(input, s, i) =~= input.take(i));
}

proof fn lemma_fixed_covers(input: Seq<char>, interp: bool, st: TokState, kind: TokenKind, i: int, n: int)
    requires
        covers(input, st, i),
        st.pending is None,
        i + n <= input.len(),
        n >= 0,
    ensures
        covers(input, TokState { tokens: st.tokens.push(fixed_token(input, interp, kind, i, n)), ..st }, i + n),
{
    let t = fixed_token(input, interp, kind, i, n);
    lemma_joined_raw_push(st.tokens, t);
    assert(input.take(i) + input.subrange(i, i + n) =~= input.take(i + n));
    let s2 = TokState { tokens: st.tokens.push(t), ..st };
    assert(joined_raw(s2.tokens) + pending_text(input, s2, i + n) =~= input.take(i + n));
}

proof fn lemma_extend_covers(input: Seq<char>, interp: bool, st: TokState, kind: TokenKind, i: int, n: int)
    requires
        covers(input, st, i),
        i + n <= input.len(),
        n >= 1,
    ensures
        covers(input, extend_run(input, interp, st, kind, i), i + n),
{
    let s = match st.pending {
        Some(p) => if p.kind == kind {
            st
        } else {
            close_pending(input, interp, st, i)
        },
        None => st,
    };
    lemma_close_covers(input, interp, st, i);
    assert(covers(input, s, i));
    let s2 = extend_run(input, interp, st, kind, i);
    assert(s2.tokens == s.tokens);
    let p = s2.pending.unwrap();
    assert(p.start <= i);
    assert(input.take(i) + input.subrange(i, i + n) =~= input.take(i + n));
    assert(pending_text(input, s2, i + n) =~= pending_text(input, s, i) + input.subrange(i, i + n));
    assert(joined_raw(s2.tokens) + pending_text(input, s2, i + n) =~= input.take(i + n));
}

proof fn lemma_step_covers(input: Seq<char>, interp: bool, i: int, st: TokState)
    requires
        covers(input, st, i),
        i < input.len(),
    ensures
        step(input, interp, i, st) matches Ok((j, s)) ==> i < j <= input.len() && covers(input, s, j),
{
    let c = input[i];
    lemma_close_covers(input, interp, st, i);
    let s = close_pending(input, interp, st, i);
    if c == '{' {
        lemma_fixed_covers(input, interp, s, TokenKind::Start { end: None }, i, 1);
    } else if c == '}' {
        let n = s.tokens.len() as int;
        let tokens = if s.stack.len() > 0 {
            mark_end(s.tokens, s.stack.last() as int, n)
        } else {
            s.tokens
        };
        lemma_joined_raw_same(tokens, s.tokens);
        let s1 = TokState { tokens, pending: None, stack: s.stack };
        lemma_fixed_covers(input, interp, s1, TokenKind::End, i, 1);
    } else if c == ',' && st.stack.len() > 0 {
        lemma_fixed_covers(input, interp, s, TokenKind::Comma, i, 1);
    } else if c == '.' && st.stack.len() > 0 && i + 1 < input.len() && input[i + 1] == '.' {
        lemma_fixed_covers(input, interp, s, TokenKind::Ellipses, i, 2);
    } else if is_blank(c) {
        lemma_extend_covers(input, interp, st, TokenKind::Whitespace, i, 1);
    } else if interp && c == '\\' {
        if i + 1 < input.len() {
            lemma_extend_covers(input, interp, st, TokenKind::Text, i, 2);
        }
    } else {
        lemma_extend_covers(input, interp, st, TokenKind::Text, i, 1);
    }
}

proof fn lemma_run_covers(input: Seq<char>, interp: bool, i: int, st: TokState)
    requires
        covers(input, st, i),
    ensures
        run(input, interp, i, st) matches Ok(s) ==> covers(input, s, input.len() as int),
    decreases input.len() - i,
{
    if i < input.len() {
        lemma_step_covers(input, interp, i, st);
        if let Ok((j, s)) = step(input, interp, i, st) {
            lemma_run_covers(input, interp, j, s);
        }
    }
}

/// Tokenizing loses no character: the raw texts of the tokens, one after the other,
/// are the input.
pub proof fn lemma_tokens_cover_input(input: Seq<char>, options: Options)
    ensures
        spec_tokenize(input, options) matches Ok(toks) ==> joined_raw(toks) == input,
{
    let interp = options.interpret_backslashes;
    let st = initial_state();
    assert(joined_raw(st.tokens) + pending_text(input, st, 0) =~= input.take(0));
    lemma_run_covers(input, interp, 0, st);
    if let Ok(s) = run(input, interp, 0, st) {
        lemma_close_covers(input, interp, s, input.len() as int);
        let s2 = close_pending(input, interp, s, input.len() as int);
        assert(joined_raw(s2.tokens) + pending_text(input, s2, input.len() as int) == input.take(input.len() as int));
        assert(joined_raw(s2.tokens) + Seq::<char>::empty() =~= joined_raw(s2.tokens));
        assert(input.take(input.len() as int) =~= input);
    }
}

/// If token `k` is a `{` that records its `}`, that `}` comes after it.
pub open spec fn matched_end(toks: Seq<TokView>, k: int) -> bool {
    match toks[k].kind {
        TokenKind::Start { end: Some(e) } => k < e < toks.len() && toks[e as int].kind
            == TokenKind::End,
        _ => true,
    }
}

/// The bookkeeping of braces is sound: the stack holds, in increasing order, exactly
/// the `{` tokens not yet closed, and every closed one records its `}`.
pub open spec fn braces_ok(st: TokState) -> bool {
    &&& st.tokens.len() < usize::MAX
    &&& st.pending matches Some(p) ==> (p.kind is Whitespace || p.kind is Text)
    &&& forall|j: int|
        0 <= j < st.stack.len() ==> (#[trigger] st.stack[j]) < st.tokens.len()
            && st.tokens[st.stack[j] as int].kind == TokenKind::Start { end: None }
    &&& forall|i: int, j: int|
        0 <= i < j < st.stack.len() ==> #[trigger] st.stack[i] < #[trigger] st.stack[j]
    &&& forall|k: int|
        0 <= k < st.tokens.len() && #[trigger] st.tokens[k].kind == (TokenKind::Start {
            end: None,
        }) ==> st.stack.contains(k as usize)
    &&& forall|k: int| 0 <= k < st.tokens.len() ==> #[trigger] matched_end(st.tokens, k)
}

/// No more tokens were made than characters read.
pub open spec fn count_ok(st: TokState, i: int) -> bool {
    st.tokens.len() + (if st.pending is Some {
        1int
    } else {
        0int
    }) <= i
}

proof fn lemma_push_braces(st: TokState, t: TokView)
    requires
        braces_ok(st),
        st.tokens.len() + 1 < usize::MAX,
        !(t.kind is Start),
        !(t.kind is End),
    ensures
        braces_ok(TokState { tokens: st.tokens.push(t), ..st }),
{
    let s2 = TokState { tokens: st.tokens.push(t), ..st };
    assert forall|j: int| 0 <= j < s2.stack.len() implies (#[trigger] s2.stack[j]) < s2.tokens.len()
        && s2.tokens[s2.stack[j] as int].kind == TokenKind::Start { end: None } by {
        assert(st.stack[j] < st.tokens.len());
    }
    assert forall|k: int|
        0 <= k < s2.tokens.len() && #[trigger] s2.tokens[k].kind == (TokenKind::Start {
            end: None,
        }) implies s2.stack.contains(k as usize) by {
        assert(k < st.tokens.len());
        assert(st.tokens[k].kind == s2.tokens[k].kind);
    }
    assert forall|k: int| 0 <= k < s2.tokens.len() implies #[trigger] matched_end(s2.tokens, k) by {
        if k < st.tokens.len() {
            assert(matched_end(st.tokens, k));
        }
    }
}

proof fn lemma_close_braces(input: Seq<char>, interp: bool, st: TokState, i: int)
    requires
        braces_ok(st),
        count_ok(st, i),
        i < usize::MAX,
    ensures
        braces_ok(close_pending(input, interp, st, i)),
        count_ok(close_pending(input, interp, st, i), i),
{
    if let Some(p) = st.pending {
        let t = TokView {
            kind: p.kind,
            pos: p.pos,
            span: EscapedView { interpret_backslashes: interp, raw: input.subrange(p.start, i) },
        };
        lemma_push_braces(TokState { pending: None, ..st }, t);
        assert(close_pending(input, interp, st, i) == TokState {
            tokens: st.tokens.push(t),
            pending: None,
            stack: st.stack,
        });
    }
}

proof fn lemma_open_braces(st: TokState, t: TokView)
    requires
        braces_ok(st),
        st.tokens.len() + 1 < usize::MAX,
        st.pending is None,
        t.kind == (TokenKind::Start { end: None }),
    ensures
        braces_ok(TokState {
            tokens: st.tokens.push(t),
            pending: None,
            stack: st.stack.push(st.tokens.len() as usize),
        }),
{
    let n = st.tokens.len();
    let s2 = TokState {
        tokens: st.tokens.push(t),
        pending: None,
        stack: st.stack.push(n as usize),
    };
    assert forall|j: int| 0 <= j < s2.stack.len() implies (#[trigger] s2.stack[j]) < s2.tokens.len()
        && s2.tokens[s2.stack[j] as int].kind == TokenKind::Start { end: None } by {
        if j < st.stack.len() {
            assert(st.stack[j] < st.tokens.len());
        }
    }
    assert forall|a: int, b: int| 0 <= a < b < s2.stack.len() implies #[trigger] s2.stack[a]
        < #[trigger] s2.stack[b] by {
        assert(st.stack[a] < st.tokens.len());
        if b < st.stack.len() {
            assert(st.stack[a] < st.stack[b]);
        }
    }
    assert forall|k: int|
        0 <= k < s2.tokens.len() && #[trigger] s2.tokens[k].kind == (TokenKind::Start {
            end: None,
        }) implies s2.stack.contains(k as usize) by {
        if k < n {
            assert(st.tokens[k].kind == s2.tokens[k].kind);
            assert(st.stack.contains(k as usize));
            let j = choose|j: int| 0 <= j < st.stack.len() && st.stack[j] == k as usize;
            assert(s2.stack[j] == k as usize);
        } else {
            assert(s2.stack[st.stack.len() as int] == k as usize);
        }
    }
    assert forall|k: int| 0 <= k < s2.tokens.len() implies #[trigger] matched_end(s2.tokens, k) by {
        if k < n {
            assert(matched_end(st.tokens, k));
        }
    }
}

proof fn lemma_close_brace_braces(input: Seq<char>, interp: bool, s: TokState, t: TokView)
    requires
        braces_ok(s),
        s.tokens.len() + 1 < usize::MAX,
        s.pending is None,
        t.kind == TokenKind::End,
    ensures
        ({
            let n = s.tokens.len() as int;
            let (tokens, stack) = if s.stack.len() > 0 {
                (mark_end(s.tokens, s.stack.last() as int, n), s.stack.drop_last())
            } else {
                (s.tokens, s.stack)
            };
            braces_ok(TokState { tokens: tokens.push(t), pending: None, stack })
        }),
{
    let n = s.tokens.len() as int;
    if s.stack.len() > 0 {
        let top = s.stack.last() as int;
        assert(s.stack[s.stack.len() - 1] < s.tokens.len());
        let tokens = mark_end(s.tokens, top, n);
        let stack = s.stack.drop_last();
        assert(tokens == s.tokens.update(top, TokView { kind: TokenKind::Start { end: Some(n as usize) }, ..s.tokens[top] }));
        let s2 = TokState { tokens: tokens.push(t), pending: None, stack };
        assert forall|j: int| 0 <= j < s2.stack.len() implies (#[trigger] s2.stack[j]) < s2.tokens.len()
            && s2.tokens[s2.stack[j] as int].kind == TokenKind::Start { end: None } by {
            assert(s.stack[j] < s.tokens.len());
            assert(s.stack[j] < s.stack[s.stack.len() - 1]);
        }
        assert forall|a: int, b: int| 0 <= a < b < s2.stack.len() implies #[trigger] s2.stack[a]
            < #[trigger] s2.stack[b] by {
            assert(s.stack[a] < s.stack[b]);
        }
        assert forall|k: int|
            0 <= k < s2.tokens.len() && #[trigger] s2.tokens[k].kind == (TokenKind::Start {
                end: None,
            }) implies s2.stack.contains(k as usize) by {
            assert(k < n && k != top);
            assert(s.tokens[k].kind == s2.tokens[k].kind);
            assert(s.stack.contains(k as usize));
            let j = choose|j: int| 0 <= j < s.stack.len() && s.stack[j] == k as usize;
            assert(j != s.stack.len() - 1);
            assert(s2.stack[j] == k as usize);
        }
        assert forall|k: int| 0 <= k < s2.tokens.len() implies #[trigger] matched_end(s2.tokens, k) by {
            if k < n && k != top {
                assert(matched_end(s.tokens, k));
                assert(s2.tokens[k] == s.tokens[k]);
                if let TokenKind::Start { end: Some(e) } = s.tokens[k].kind {
                    assert(s.tokens[e as int].kind == TokenKind::End);
                    assert(e as int != top);
                    assert(s2.tokens[e as int] == s.tokens[e as int]);
                }
            }
        }
    } else {
        let s2 = TokState { tokens: s.tokens.push(t), pending: None, stack: s.stack };
        assert forall|k: int|
            0 <= k < s2.tokens.len() && #[trigger] s2.tokens[k].kind == (TokenKind::Start {
                end: None,
            }) implies s2.stack.contains(k as usize) by {
            assert(k < n);
            assert(s.tokens[k].kind == s2.tokens[k].kind);
        }
        assert forall|k: int| 0 <= k < s2.tokens.len() implies #[trigger] matched_end(s2.tokens, k) by {
            if k < n {
                assert(matched_end(s.tokens, k));
            }
        }
    }
}

proof fn lemma_step_braces(input: Seq<char>, interp: bool, i: int, st: TokState)
    requires
        braces_ok(st),
        count_ok(st, i),
        0 <= i < input.len(),
        input.len() < usize::MAX,
    ensures
        step(input, interp, i, st) matches Ok((j, s)) ==> braces_ok(s) && count_ok(s, j),
{
    let c = input[i];
    lemma_close_braces(input, interp, st, i);
    let s = close_pending(input, interp, st, i);
    if c == '{' {
        lemma_open_braces(s, fixed_token(input, interp, TokenKind::Start { end: None }, i, 1));
    } else if c == '}' {
        lemma_close_brace_braces(input, interp, s, fixed_token(input, interp, TokenKind::End, i, 1));
    } else if c == ',' && st.stack.len() > 0 {
        lemma_push_braces(s, fixed_token(input, interp, TokenKind::Comma, i, 1));
    } else if c == '.' && st.stack.len() > 0 && i + 1 < input.len() && input[i + 1] == '.' {
        lemma_push_braces(s, fixed_token(input, interp, TokenKind::Ellipses, i, 2));
    } else {
        let kind = if is_blank(c) {
            TokenKind::Whitespace
        } else {
            TokenKind::Text
        };
        let s1 = match st.pending {
            Some(p) => if p.kind == kind {
                st
            } else {
                close_pending(input, interp, st, i)
            },
            None => st,
        };
        assert(braces_ok(s1));
    }
}

proof fn lemma_run_braces(input: Seq<char>, interp: bool, i: int, st: TokState)
    requires
        braces_ok(st),
        count_ok(st, i),
        0 <= i,
        input.len() < usize::MAX,
    ensures
        run(input, interp, i, st) matches Ok(s) ==> braces_ok(s) && count_ok(
            s,
            if i <= input.len() {
                input.len() as int
            } else {
                i
            },
        ),
    decreases input.len() - i,
{
    if 0 <= i < input.len() {
        lemma_step_braces(input, interp, i, st);
        if let Ok((j, s)) = step(input, interp, i, st) {
            if j > i {
                lemma_run_braces(input, interp, j, s);
                if j > input.len() {
                    assert(step(input, interp, i, st) matches Ok((j2, _)) && j2 <= input.len()) by {
                        reveal_with_fuel(step, 1);
                    }
                }
            }
        }
    }
}

/// Every `{` token that records a `}` records a `}` token after it; and in strict mode
/// every `{` records its `}`.
pub proof fn lemma_braces_matched(input: Seq<char>, options: Options)
    requires
        input.len() < usize::MAX,
    ensures
        spec_tokenize(input, options) matches Ok(toks) ==> {
            &&& forall|k: int| 0 <= k < toks.len() ==> #[trigger] matched_end(toks, k)
            &&& options.strict ==> forall|k: int|
                0 <= k < toks.len() ==> #[trigger] toks[k].kind != (TokenKind::Start { end: None })
        },
{
    let interp = options.interpret_backslashes;
    let st = initial_state();
    lemma_run_braces(input, interp, 0, st);
    if let Ok(s) = run(input, interp, 0, st) {
        lemma_close_braces(input, interp, s, input.len() as int);
        let s2 = close_pending(input, interp, s, input.len() as int);
        if s2.stack.len() > 0 {
            assert(s2.stack[s2.stack.len() - 1] < s2.tokens.len());
        }
    }
}

/// A `{` that records its `}` at index `e` records it `d` places later.
pub open spec fn shift_kind(k: TokenKind, d: int) -> TokenKind {
    match k {
        TokenKind::Start { end: Some(e) } => TokenKind::Start { end: Some((e + d) as usize) },
        _ => k,
    }
}

/// A token moved `d` places on in the token list and `b` bytes on in the input.
pub open spec fn shift_token(t: TokView, d: int, b: int) -> TokView {
    TokView { kind: shift_kind(t.kind, d), pos: t.pos + b, span: t.span }
}

/// Tokens moved `d` places on in the token list and `b` bytes on in the input.
pub open spec fn shift_tokens(s: Seq<TokView>, d: int, b: int) -> Seq<TokView> {
    s.map_values(|t: TokView| shift_token(t, d, b))
}

/// The state of reading a piece of input that starts at character `off` (byte `b`) of a
/// longer input, after the tokens `prefix`.
pub open spec fn shift_state(st: TokState, prefix: Seq<TokView>, b: int, off: int) -> TokState {
    TokState {
        tokens: prefix + shift_tokens(st.tokens, prefix.len() as int, b),
        pending: match st.pending {
            Some(p) => Some(Pending { kind: p.kind, pos: p.pos + b, start: p.start + off }),
            None => None,
        },
        stack: st.stack.map_values(|k: usize| (k + prefix.len()) as usize),
    }
}

/// `x` stands at character `off` (byte `b`) of `c`, and after it comes the end of `c`
/// or a blank.
pub open spec fn embedded(x: Seq<char>, c: Seq<char>, off: int, b: int) -> bool {
    &&& 0 <= off
    &&& off + x.len() <= c.len()
    &&& c.subrange(off, off + x.len()) == x
    &&& b == byte_offset(c, off)
    &&& (off + x.len() == c.len() || is_blank(c[off + x.len()]))
}

proof fn lemma_embedded_subrange(x: Seq<char>, c: Seq<char>, off: int, b: int, a: int, e: int)
    requires
        embedded(x, c, off, b),
        0 <= a <= e <= x.len(),
    ensures
        c.subrange(off + a, off + e) == x.subrange(a, e),
        byte_offset(c, off + a) == b + byte_offset(x, a),
{
    assert(c.subrange(off + a, off + e) =~= x.subrange(a, e)) by {
        assert forall|k: int| 0 <= k < e - a implies c.subrange(off + a, off + e)[k] == x.subrange(a, e)[k] by {
            assert(c.subrange(off, off + x.len())[a + k] == c[off + a + k]);
        }
    }
    assert(c.take(off + a) =~= c.take(off) + x.take(a)) by {
        assert forall|k: int| off <= k < off + a implies c.take(off + a)[k] == (c.take(off) + x.take(a))[k] by {
            assert(c.subrange(off, off + x.len())[k - off] == c[k]);
        }
    }
    lemma_encode_concat(c.take(off), x.take(a));
}

/// The bounds that keep the moved indices within `usize`.
pub open spec fn shift_fits(st: TokState, prefix: Seq<TokView>, x: Seq<char>, i: int) -> bool {
    &&& braces_ok(st)
    &&& count_ok(st, i)
    &&& 0 <= i <= x.len()
    &&& prefix.len() + x.len() < usize::MAX
    &&& st.pending matches Some(p) ==> 0 <= p.start <= i
}

proof fn lemma_shift_push(st: TokState, prefix: Seq<TokView>, b: int, off: int, t: TokView)
    ensures
        shift_tokens(st.tokens.push(t), prefix.len() as int, b) == shift_tokens(st.tokens, prefix.len() as int, b).push(
            shift_token(t, prefix.len() as int, b),
        ),
        prefix + shift_tokens(st.tokens.push(t), prefix.len() as int, b) == (prefix + shift_tokens(st.tokens, prefix.len() as int, b)).push(
            shift_token(t, prefix.len() as int, b),
        ),
{
    let d = prefix.len() as int;
    assert(shift_tokens(st.tokens.push(t), d, b) =~= shift_tokens(st.tokens, d, b).push(shift_token(t, d, b)));
    assert(prefix + shift_tokens(st.tokens.push(t), d, b) =~= (prefix + shift_tokens(st.tokens, d, b)).push(shift_token(t, d, b)));
}

proof fn lemma_close_shift(
    x: Seq<char>,
    c: Seq<char>,
    interp: bool,
    off: int,
    b: int,
    prefix: Seq<TokView>,
    st: TokState,
    i: int,
)
    requires
        embedded(x, c, off, b),
        shift_fits(st, prefix, x, i),
    ensures
        close_pending(c, interp, shift_state(st, prefix, b, off), off + i) == shift_state(
            close_pending(x, interp, st, i),
            prefix,
            b,
            off,
        ),
{
    if let Some(p) = st.pending {
        lemma_embedded_subrange(x, c, off, b, p.start, i);
        let t = TokView {
            kind: p.kind,
            pos: p.pos,
            span: EscapedView { interpret_backslashes: interp, raw: x.subrange(p.start, i) },
        };
        lemma_shift_push(st, prefix, b, off, t);
    }
}

proof fn lemma_fixed_shift(
    x: Seq<char>,
    c: Seq<char>,
    interp: bool,
    off: int,
    b: int,
    prefix: Seq<TokView>,
    kind: TokenKind,
    i: int,
    n: int,
)
    requires
        embedded(x, c, off, b),
        0 <= i,
        0 <= n,
        i + n <= x.len(),
        !(kind is Start) || kind == (TokenKind::Start { end: None }),
    ensures
        fixed_token(c, interp, kind, off + i, n) == shift_token(
            fixed_token(x, interp, kind, i, n),
            prefix.len() as int,
            b,
        ),
{
    lemma_embedded_subrange(x, c, off, b, i, i + n);
}

proof fn lemma_mark_end_shift(tokens: Seq<TokView>, prefix: Seq<TokView>, b: int, top: int, n: int)
    requires
        0 <= top < tokens.len(),
        0 <= n,
        n + prefix.len() < usize::MAX,
    ensures
        mark_end(prefix + shift_tokens(tokens, prefix.len() as int, b), prefix.len() + top, prefix.len() + n)
            == prefix + shift_tokens(mark_end(tokens, top, n), prefix.len() as int, b),
{
    let d = prefix.len() as int;
    let l = prefix + shift_tokens(tokens, d, b);
    assert(l[d + top] == shift_token(tokens[top], d, b));
    if tokens[top].kind is Start {
        assert(prefix + shift_tokens(mark_end(tokens, top, n), d, b) =~= l.update(
            d + top,
            TokView { kind: TokenKind::Start { end: Some((d + n) as usize) }, ..l[d + top] },
        ));
    } else {
        assert(!(l[d + top].kind is Start));
    }
}

proof fn lemma_extend_shift(
    x: Seq<char>,
    c: Seq<char>,
    interp: bool,
    off: int,
    b: int,
    prefix: Seq<TokView>,
    st: TokState,
    kind: TokenKind,
    i: int,
)
    requires
        embedded(x, c, off, b),
        shift_fits(st, prefix, x, i),
        i < x.len(),
    ensures
        extend_run(c, interp, shift_state(st, prefix, b, off), kind, off + i) == shift_state(
            extend_run(x, interp, st, kind, i),
            prefix,
            b,
            off,
        ),
{
    lemma_close_shift(x, c, interp, off, b, prefix, st, i);
    lemma_embedded_subrange(x, c, off, b, i, i);
}

proof fn lemma_step_shift(
    x: Seq<char>,
    c: Seq<char>,
    interp: bool,
    off: int,
    b: int,
    prefix: Seq<TokView>,
    i: int,
    st: TokState,
)
    requires
        embedded(x, c, off, b),
        shift_fits(st, prefix, x, i),
        i < x.len(),
    ensures
        match step(x, interp, i, st) {
            Ok((j, s)) => i < j <= x.len() && shift_fits(s, prefix, x, j) && step(
                c,
                interp,
                off + i,
                shift_state(st, prefix, b, off),
            ) == Ok::<(int, TokState), Error>((off + j, shift_state(s, prefix, b, off))),
            Err(e) => off + x.len() == c.len() ==> step(c, interp, off + i, shift_state(st, prefix, b, off))
                == Err::<(int, TokState), Error>(e),
        },
{
    let sc = shift_state(st, prefix, b, off);
    let ch = x[i];
    assert(c[off + i] == ch) by {
        assert(c.subrange(off, off + x.len())[i] == c[off + i]);
    }
    if i + 1 < x.len() {
        assert(c.subrange(off, off + x.len())[i + 1] == c[off + i + 1]);
    }
    lemma_step_braces(x, interp, i, st);
    lemma_close_shift(x, c, interp, off, b, prefix, st, i);
    let s = close_pending(x, interp, st, i);
    let d = prefix.len() as int;
    assert(sc.stack.len() == st.stack.len());
    if ch == '{' {
        lemma_fixed_shift(x, c, interp, off, b, prefix, TokenKind::Start { end: None }, i, 1);
        lemma_shift_push(s, prefix, b, off, fixed_token(x, interp, TokenKind::Start { end: None }, i, 1));
        assert(shift_state(s, prefix, b, off).tokens.len() == d + s.tokens.len());
        assert(s.stack.push(s.tokens.len() as usize).map_values(|k: usize| (k + d) as usize) =~= s.stack.map_values(
            |k: usize| (k + d) as usize,
        ).push((d + s.tokens.len()) as usize));
    } else if ch == '}' {
        let n = s.tokens.len() as int;
        let ss = shift_state(s, prefix, b, off);
        if s.stack.len() > 0 {
            let top = s.stack.last() as int;
            assert(s.stack[s.stack.len() - 1] < s.tokens.len());
            assert(ss.stack.last() as int == d + top);
            lemma_mark_end_shift(s.tokens, prefix, b, top, n);
            assert(ss.stack.drop_last() =~= s.stack.drop_last().map_values(|k: usize| (k + d) as usize));
            let ts = mark_end(s.tokens, top, n);
            lemma_shift_push(TokState { tokens: ts, pending: None, stack: s.stack.drop_last() }, prefix, b, off, fixed_token(x, interp, TokenKind::End, i, 1));
        } else {
            lemma_shift_push(s, prefix, b, off, fixed_token(x, interp, TokenKind::End, i, 1));
        }
        lemma_fixed_shift(x, c, interp, off, b, prefix, TokenKind::End, i, 1);
    } else if ch == ',' && st.stack.len() > 0 {
        lemma_fixed_shift(x, c, interp, off, b, prefix, TokenKind::Comma, i, 1);
        lemma_shift_push(s, prefix, b, off, fixed_token(x, interp, TokenKind::Comma, i, 1));
    } else if ch == '.' && st.stack.len() > 0 && i + 1 < x.len() && x[i + 1] == '.' {
        lemma_fixed_shift(x, c, interp, off, b, prefix, TokenKind::Ellipses, i, 2);
        lemma_shift_push(s, prefix, b, off, fixed_token(x, interp, TokenKind::Ellipses, i, 2));
    } else {
        if ch == '.' && st.stack.len() > 0 && i + 1 == x.len() && off + x.len() < c.len() {
            assert(is_blank(c[off + i + 1]));
        }
        if is_blank(ch) {
            lemma_extend_shift(x, c, interp, off, b, prefix, st, TokenKind::Whitespace, i);
        } else {
            lemma_extend_shift(x, c, interp, off, b, prefix, st, TokenKind::Text, i);
        }
    }
}

/// Reading a piece of a longer input, after tokens `prefix`, goes as reading the piece
/// alone, with every token moved on; an error of the piece is an error of the whole
/// where the piece ends the whole.
pub proof fn lemma_run_shift(
    x: Seq<char>,
    c: Seq<char>,
    interp: bool,
    off: int,
    b: int,
    prefix: Seq<TokView>,
    i: int,
    st: TokState,
)
    requires
        embedded(x, c, off, b),
        shift_fits(st, prefix, x, i),
    ensures
        match run(x, interp, i, st) {
            Ok(f) => shift_fits(f, prefix, x, x.len() as int) && run(c, interp, off + i, shift_state(st, prefix, b, off)) == run(
                c,
                interp,
                off + x.len(),
                shift_state(f, prefix, b, off),
            ),
            Err(e) => off + x.len() == c.len() ==> run(c, interp, off + i, shift_state(st, prefix, b, off))
                == Err::<TokState, Error>(e),
        },
    decreases x.len() - i,
{
    if i < x.len() {
        lemma_step_shift(x, c, interp, off, b, prefix, i, st);
        if let Ok((j, s)) = step(x, interp, i, st) {
            lemma_run_shift(x, c, interp, off, b, prefix, j, s);
        }
    }
}

/// No character of `s` is a blank.
pub open spec fn no_blank_chars(s: Seq<char>) -> bool {
    forall|k: int| 0 <= k < s.len() ==> !is_blank(#[trigger] s[k])
}

proof fn lemma_shift_nothing(st: TokState)
    ensures
        shift_state(st, seq![], 0, 0) == st,
{
    let e: Seq<TokView> = seq![];
    assert(shift_tokens(st.tokens, 0, 0) =~= st.tokens);
    assert(e + shift_tokens(st.tokens, 0, 0) =~= st.tokens);
    assert(st.stack.map_values(|k: usize| (k + e.len()) as usize) =~= st.stack);
}

proof fn lemma_run_no_blank(x: Seq<char>, interp: bool, i: int, st: TokState)
    requires
        no_blank_chars(x),
        !(st.pending matches Some(p) && p.kind is Whitespace),
    ensures
        run(x, interp, i, st) matches Ok(f) ==> !(f.pending matches Some(p) && p.kind is Whitespace),
    decreases x.len() - i,
{
    if 0 <= i < x.len() {
        if let Ok((j, s)) = step(x, interp, i, st) {
            assert(!is_blank(x[i]));
            if j > i {
                lemma_run_no_blank(x, interp, j, s);
            }
        }
    }
}

proof fn lemma_run_blanks(c: Seq<char>, interp: bool, i: int, n: int, st: TokState)
    requires
        0 <= i <= n <= c.len(),
        forall|k: int| i <= k < n ==> is_blank(#[trigger] c[k]),
        st.pending matches Some(p) && p.kind == TokenKind::Whitespace,
    ensures
        run(c, interp, i, st) == run(c, interp, n, st),
    decreases n - i,
{
    if i < n {
        assert(is_blank(c[i]));
        lemma_run_blanks(c, interp, i + 1, n, st);
    }
}

/// A non-blank character after a run of blanks first ends the run.
proof fn lemma_step_after_blanks(c: Seq<char>, interp: bool, i: int, st: TokState)
    requires
        0 <= i < c.len(),
        !is_blank(c[i]),
        st.pending matches Some(p) && p.kind == TokenKind::Whitespace,
    ensures
        step(c, interp, i, st) == step(c, interp, i, close_pending(c, interp, st, i)),
{
}

/// The tokens of a piece that tokenizes in strict mode: every brace is closed.
pub open spec fn closed_tokens(s1: Seq<char>) -> Seq<TokView> {
    close_pending(s1, true, run(s1, true, 0, initial_state())->Ok_0, s1.len() as int).tokens
}

/// The state after a blank-free piece that tokenizes in strict mode and the blanks
/// after it.
pub open spec fn after_blanks(c: Seq<char>, s1: Seq<char>) -> TokState {
    TokState {
        tokens: closed_tokens(s1),
        pending: Some(
            Pending {
                kind: TokenKind::Whitespace,
                pos: byte_offset(c, s1.len() as int),
                start: s1.len() as int,
            },
        ),
        stack: seq![],
    }
}

proof fn lemma_join_first(s1: Seq<char>, w: Seq<char>, s2: Seq<char>, options: Options)
    requires
        no_blank_chars(s1),
        w.len() > 0,
        forall|k: int| 0 <= k < w.len() ==> is_blank(#[trigger] w[k]),
        options.interpret_backslashes,
        spec_tokenize(s1, Options { strict: true, ..options }) is Ok,
        s1.len() + w.len() + s2.len() < usize::MAX,
    ensures
        spec_tokenize(s1, options) == Ok::<Seq<TokView>, Error>(closed_tokens(s1)),
        spec_tokenize(s1, Options { strict: true, ..options }) == Ok::<Seq<TokView>, Error>(closed_tokens(s1)),
        closed_tokens(s1).len() <= s1.len(),
        run(s1 + w + s2, true, 0, initial_state()) == run(
            s1 + w + s2,
            true,
            (s1.len() + w.len()) as int,
            after_blanks(s1 + w + s2, s1),
        ),
{
    let interp = true;
    let c = s1 + w + s2;
    let n1 = s1.len() as int;
    let n2 = n1 + w.len();
    let init = initial_state();
    assert(c.subrange(0, n1) =~= s1);
    assert(c[n1] == w[0]);
    assert(c.take(0) =~= Seq::<char>::empty());
    assert(embedded(s1, c, 0, 0));
    assert(shift_fits(init, seq![], s1, 0));
    lemma_run_shift(s1, c, interp, 0, 0, seq![], 0, init);
    lemma_shift_nothing(init);
    lemma_run_braces(s1, interp, 0, init);
    lemma_run_no_blank(s1, interp, 0, init);
    let fx = run(s1, interp, 0, init)->Ok_0;
    lemma_shift_nothing(fx);
    lemma_close_braces(s1, interp, fx, n1);
    let t1s = close_pending(s1, interp, fx, n1);
    if t1s.stack.len() > 0 {
        assert(t1s.stack[t1s.stack.len() - 1] < t1s.tokens.len());
    }
    assert(t1s.stack =~= Seq::<usize>::empty());
    let cl = close_pending(c, interp, fx, n1);
    assert(cl == t1s) by {
        if let Some(p) = fx.pending {
            assert(c.subrange(p.start, n1) =~= s1.subrange(p.start, n1));
        }
    }
    let s_ws = after_blanks(c, s1);
    assert(is_blank(c[n1]));
    assert(step(c, interp, n1, fx) == Ok::<(int, TokState), Error>((n1 + 1, s_ws)));
    assert forall|k: int| n1 + 1 <= k < n2 implies is_blank(#[trigger] c[k]) by {
        assert(c[k] == w[k - n1]);
    }
    lemma_run_blanks(c, interp, n1 + 1, n2, s_ws);
    lemma_count_tokens(t1s, n1);
}

proof fn lemma_join_second(s1: Seq<char>, w: Seq<char>, s2: Seq<char>, options: Options)
    requires
        no_blank_chars(s2),
        w.len() > 0,
        options.interpret_backslashes,
        closed_tokens(s1).len() <= s1.len(),
        s1.len() + w.len() + s2.len() < usize::MAX,
    ensures
        ({
            let c = s1 + w + s2;
            let n2 = s1.len() + w.len();
            let t1 = closed_tokens(s1);
            let rc = run(c, true, n2 as int, after_blanks(c, s1));
            let sc = close_pending(c, true, rc->Ok_0, c.len() as int);
            let r2 = run(s2, true, 0, initial_state());
            let s2c = close_pending(s2, true, r2->Ok_0, s2.len() as int);
            &&& (rc is Ok <==> r2 is Ok)
            &&& rc is Ok ==> {
                &&& sc.tokens.len() == t1.len() + 1 + s2c.tokens.len()
                &&& sc.tokens.subrange(0, t1.len() as int) == t1
                &&& sc.tokens[t1.len() as int].kind == TokenKind::Whitespace
                &&& sc.tokens.subrange((t1.len() + 1) as int, sc.tokens.len() as int) == shift_tokens(
                    s2c.tokens,
                    (t1.len() + 1) as int,
                    byte_offset(c, n2 as int),
                )
                &&& sc.stack.len() == s2c.stack.len()
                &&& (s2c.stack.len() > 0 ==> sc.stack.last() < sc.tokens.len() && s2c.stack.last()
                    < s2c.tokens.len())
            }
        }),
{
    let interp = true;
    let c = s1 + w + s2;
    let n1 = s1.len() as int;
    let n2 = n1 + w.len();
    let init = initial_state();
    let t1 = closed_tokens(s1);
    let s_ws = after_blanks(c, s1);
    let wt = TokView {
        kind: TokenKind::Whitespace,
        pos: byte_offset(c, n1),
        span: EscapedView { interpret_backslashes: interp, raw: c.subrange(n1, n2) },
    };
    let pre = t1.push(wt);
    let b2 = byte_offset(c, n2);
    let s2init = TokState { tokens: pre, pending: None, stack: seq![] };
    assert(close_pending(c, interp, s_ws, n2) == s2init);
    assert(shift_state(init, pre, b2, n2) == s2init) by {
        assert(pre + shift_tokens(init.tokens, pre.len() as int, b2) =~= pre);
        assert(init.stack.map_values(|k: usize| (k + pre.len()) as usize) =~= Seq::<usize>::empty());
    }
    assert(c.subrange(n2, n2 + s2.len()) =~= s2);
    if s2.len() == 0 {
        assert(c.len() == n2);
        assert(pre.subrange(0, t1.len() as int) =~= t1);
        assert(pre.subrange((t1.len() + 1) as int, pre.len() as int) =~= shift_tokens(seq![], (t1.len() + 1) as int, b2));
        let r2 = run(s2, true, 0, init);
        assert(close_pending(s2, true, r2->Ok_0, 0).tokens =~= Seq::<TokView>::empty());
    } else {
        assert(c[n2] == s2[0]);
        lemma_step_after_blanks(c, interp, n2, s_ws);
        assert(run(c, interp, n2, s_ws) == run(c, interp, n2, s2init));
        assert(embedded(s2, c, n2, b2));
        assert(shift_fits(init, pre, s2, 0));
        lemma_run_shift(s2, c, interp, n2, b2, pre, 0, init);
        lemma_run_braces(s2, interp, 0, init);
        if let Ok(f2) = run(s2, interp, 0, init) {
            lemma_close_shift(s2, c, interp, n2, b2, pre, f2, s2.len() as int);
            let e2 = close_pending(s2, interp, f2, s2.len() as int);
            let ec = close_pending(c, interp, shift_state(f2, pre, b2, n2), c.len() as int);
            assert(ec == shift_state(e2, pre, b2, n2));
            lemma_close_braces(s2, interp, f2, s2.len() as int);
            if e2.stack.len() > 0 {
                assert(e2.stack[e2.stack.len() - 1] < e2.tokens.len());
                assert(ec.stack.last() == (e2.stack.last() + pre.len()) as usize);
            }
            assert(ec.tokens.subrange(0, t1.len() as int) =~= t1);
            assert(ec.tokens.subrange((t1.len() + 1) as int, ec.tokens.len() as int) =~= shift_tokens(e2.tokens, (t1.len() + 1) as int, b2));
        }
    }
}

/// Tokenizing two blank-free pieces joined by blanks, when the first piece tokenizes
/// in strict mode: the tokens are those of the first piece, one whitespace token, and
/// those of the second piece moved on; it fails exactly when the second piece alone
/// fails.
pub proof fn lemma_tokenize_joined(s1: Seq<char>, w: Seq<char>, s2: Seq<char>, options: Options)
    requires
        no_blank_chars(s1),
        no_blank_chars(s2),
        w.len() > 0,
        forall|k: int| 0 <= k < w.len() ==> is_blank(#[trigger] w[k]),
        options.interpret_backslashes,
        spec_tokenize(s1, Options { strict: true, ..options }) is Ok,
        s1.len() + w.len() + s2.len() < usize::MAX,
    ensures
        spec_tokenize(s1, options) == spec_tokenize(s1, Options { strict: true, ..options }),
        spec_tokenize(s1 + w + s2, options) is Ok <==> spec_tokenize(s2, options) is Ok,
        spec_tokenize(s1 + w + s2, options) is Ok ==> ({
            let t1 = spec_tokenize(s1, options)->Ok_0;
            let t2 = spec_tokenize(s2, options)->Ok_0;
            let tc = spec_tokenize(s1 + w + s2, options)->Ok_0;
            &&& tc.len() == t1.len() + 1 + t2.len()
            &&& tc.subrange(0, t1.len() as int) == t1
            &&& tc[t1.len() as int].kind == TokenKind::Whitespace
            &&& tc.subrange((t1.len() + 1) as int, tc.len() as int) == shift_tokens(
                t2,
                (t1.len() + 1) as int,
                byte_offset(s1 + w + s2, (s1.len() + w.len()) as int),
            )
        }),
{
    lemma_join_first(s1, w, s2, options);
    lemma_join_second(s1, w, s2, options);
}

proof fn lemma_count_tokens(st: TokState, i: int)
    requires
        count_ok(st, i),
    ensures
        st.tokens.len() <= i,
{
}

/// Every token, and the token in the making, starts at the byte offset of the
/// characters before it.
pub open spec fn pos_ok(input: Seq<char>, st: TokState) -> bool {
    &&& forall|k: int|
        0 <= k < st.tokens.len() ==> #[trigger] st.tokens[k].pos == byte_offset(
            input,
            joined_raw(st.tokens.take(k)).len() as int,
        )
    &&& st.pending matches Some(p) ==> p.pos == byte_offset(input, p.start) && p.start
        == joined_raw(st.tokens).len()
}

proof fn lemma_push_pos(input: Seq<char>, tokens: Seq<TokView>, t: TokView)
    requires
        forall|k: int|
            0 <= k < tokens.len() ==> #[trigger] tokens[k].pos == byte_offset(
                input,
                joined_raw(tokens.take(k)).len() as int,
            ),
        t.pos == byte_offset(input, joined_raw(tokens).len() as int),
    ensures
        forall|k: int|
            0 <= k < tokens.push(t).len() ==> #[trigger] tokens.push(t)[k].pos == byte_offset(
                input,
                joined_raw(tokens.push(t).take(k)).len() as int,
            ),
{
    let u = tokens.push(t);
    assert forall|k: int| 0 <= k < u.len() implies #[trigger] u[k].pos == byte_offset(
        input,
        joined_raw(u.take(k)).len() as int,
    ) by {
        if k < tokens.len() {
            assert(u.take(k) =~= tokens.take(k));
        } else {
            assert(u.take(k) =~= tokens);
        }
    }
}

proof fn lemma_close_pos(input: Seq<char>, interp: bool, st: TokState, i: int)
    requires
        covers(input, st, i),
        pos_ok(input, st),
    ensures
        pos_ok(input, close_pending(input, interp, st, i)),
{
    if let Some(p) = st.pending {
        let s = close_pending(input, interp, st, i);
        lemma_push_pos(input, st.tokens, s.tokens.last());
        assert(s.tokens =~= st.tokens.push(s.tokens.last()));
    }
}

proof fn lemma_step_pos(input: Seq<char>, interp: bool, i: int, st: TokState)
    requires
        covers(input, st, i),
        pos_ok(input, st),
        i < input.len(),
    ensures
        step(input, interp, i, st) matches Ok((j, s)) ==> pos_ok(input, s),
{
    let c = input[i];
    lemma_close_covers(input, interp, st, i);
    lemma_close_pos(input, interp, st, i);
    let s = close_pending(input, interp, st, i);
    // with nothing in the making, the tokens hold exactly the characters before `i`
    assert(joined_raw(s.tokens).len() == i) by {
        assert(joined_raw(s.tokens) + pending_text(input, s, i) == input.take(i));
        assert(pending_text(input, s, i) =~= Seq::<char>::empty());
        assert(joined_raw(s.tokens) + Seq::<char>::empty() =~= joined_raw(s.tokens));
    }
    if c == '{' {
        lemma_push_pos(input, s.tokens, fixed_token(input, interp, TokenKind::Start { end: None }, i, 1));
    } else if c == '}' {
        let n = s.tokens.len() as int;
        let tokens = if s.stack.len() > 0 {
            mark_end(s.tokens, s.stack.last() as int, n)
        } else {
            s.tokens
        };
        assert forall|k: int| 0 <= k < tokens.len() implies #[trigger] tokens[k].pos == byte_offset(
            input,
            joined_raw(tokens.take(k)).len() as int,
        ) by {
            lemma_joined_raw_same(tokens.take(k), s.tokens.take(k));
            assert(tokens[k].pos == s.tokens[k].pos);
        }
        lemma_joined_raw_same(tokens, s.tokens);
        lemma_push_pos(input, tokens, fixed_token(input, interp, TokenKind::End, i, 1));
    } else if c == ',' && st.stack.len() > 0 {
        lemma_push_pos(input, s.tokens, fixed_token(input, interp, TokenKind::Comma, i, 1));
    } else if c == '.' && st.stack.len() > 0 && i + 1 < input.len() && input[i + 1] == '.' {
        lemma_push_pos(input, s.tokens, fixed_token(input, interp, TokenKind::Ellipses, i, 2));
    } else {
        let kind = if is_blank(c) {
            TokenKind::Whitespace
        } else {
            TokenKind::Text
        };
        let s1 = match st.pending {
            Some(p) => if p.kind == kind {
                st
            } else {
                close_pending(input, interp, st, i)
            },
            None => st,
        };
        assert(pos_ok(input, s1));
    }
}

proof fn lemma_run_pos(input: Seq<char>, interp: bool, i: int, st: TokState)
    requires
        covers(input, st, i),
        pos_ok(input, st),
    ensures
        run(input, interp, i, st) matches Ok(s) ==> pos_ok(input, s) && covers(input, s, input.len() as int),
    decreases input.len() - i,
{
    if i < input.len() {
        lemma_step_covers(input, interp, i, st);
        lemma_step_pos(input, interp, i, st);
        if let Ok((j, s)) = step(input, interp, i, st) {
            lemma_run_pos(input, interp, j, s);
        }
    }
}

proof fn lemma_joined_raw_prefix(s: Seq<TokView>, m: int)
    requires
        0 <= m <= s.len(),
    ensures
        joined_raw(s.take(m)) == joined_raw(s).take(joined_raw(s.take(m)).len() as int),
        joined_raw(s.take(m)).len() <= joined_raw(s).len(),
    decreases s.len() - m,
{
    if m < s.len() {
        lemma_joined_raw_prefix(s, m + 1);
        assert(s.take(m + 1).drop_last() =~= s.take(m));
        let a = joined_raw(s.take(m));
        let b = joined_raw(s.take(m + 1));
        assert(b == a + s[m].span.raw);
        assert(a =~= joined_raw(s).take(a.len() as int)) by {
            assert forall|q: int| 0 <= q < a.len() implies a[q] == joined_raw(s).take(a.len() as int)[q] by {
                assert(b[q] == a[q]);
                assert(joined_raw(s).take(b.len() as int)[q] == joined_raw(s)[q]);
            }
        }
    } else {
        assert(s.take(m) =~= s);
    }
}

/// Byte offsets: the first token starts at byte 0, and each token starts where the
/// UTF-8 encoding of the one before it ends.
pub proof fn lemma_token_offsets(input: Seq<char>, options: Options)
    ensures
        spec_tokenize(input, options) matches Ok(toks) ==> {
            &&& toks.len() > 0 ==> toks[0].pos == 0
            &&& forall|k: int|
                0 <= k < toks.len() - 1 ==> #[trigger] toks[k + 1].pos == toks[k].pos + encode_utf8(
                    toks[k].span.raw,
                ).len()
        },
{
    let interp = options.interpret_backslashes;
    let st = initial_state();
    assert(joined_raw(st.tokens) + pending_text(input, st, 0) =~= input.take(0));
    lemma_run_pos(input, interp, 0, st);
    lemma_tokens_cover_input(input, options);
    if let Ok(f) = run(input, interp, 0, st) {
        lemma_close_pos(input, interp, f, input.len() as int);
        let toks = close_pending(input, interp, f, input.len() as int).tokens;
        if toks.len() > 0 {
            assert(toks.take(0) =~= Seq::<TokView>::empty());
            assert(input.take(0) =~= Seq::<char>::empty());
        }
        if spec_tokenize(input, options) is Ok {
            assert forall|k: int| 0 <= k < toks.len() - 1 implies #[trigger] toks[k + 1].pos
                == toks[k].pos + encode_utf8(toks[k].span.raw).len() by {
                lemma_joined_raw_prefix(toks, k + 1);
                assert(toks.take(k + 1).drop_last() =~= toks.take(k));
                let a = joined_raw(toks.take(k));
                let b = joined_raw(toks.take(k + 1));
                assert(b == a + toks[k].span.raw);
                assert(joined_raw(toks) == input);
                assert(input.take(b.len() as int) =~= input.take(a.len() as int) + toks[k].span.raw) by {
                    assert(input.take(b.len() as int) == b);
                    assert forall|q: int| 0 <= q < a.len() implies input.take(a.len() as int)[q] == b[q] by {
                        assert(input[q] == b[q]);
                    }
                }
                lemma_encode_concat(input.take(a.len() as int), toks[k].span.raw);
            }
        }
    }
}
/// How a token changes the nesting of braces: one up for `{`, one down for `}`.
pub open spec fn brace_delta(t: TokView) -> int {
    match t.kind {
        TokenKind::Start { .. } => 1,
        TokenKind::End => -1,
        _ => 0,
    }
}

/// The nesting that tokens `a` up to `b` (excluded) add: their `{` tokens less their
/// `}` tokens.
pub open spec fn brace_depth(toks: Seq<TokView>, a: int, b: int) -> int
    decreases b - a,
{
    if b <= a {
        0
    } else {
        brace_depth(toks, a, b - 1) + brace_delta(toks[b - 1])
    }
}

/// If token `k` is a `{` that records its `}` at `e`, the nesting counted from `k` on
/// stays above zero through token `e - 1` and falls to zero with token `e`: `e` is the
/// first token after which the braces from `k` on balance.
pub open spec fn first_balance(toks: Seq<TokView>, k: int) -> bool {
    match toks[k].kind {
        TokenKind::Start { end: Some(e) } => brace_depth(toks, k, e + 1) == 0 && forall|m: int|
            k < m <= e ==> #[trigger] brace_depth(toks, k, m) > 0,
        _ => true,
    }
}

/// Each open `{` (at place `j` of the stack) is followed by a nesting of exactly the
/// braces still open from it on, never zero; each closed one balances first at its `}`.
spec fn depth_ok(st: TokState) -> bool {
    &&& forall|j: int|
        0 <= j < st.stack.len() ==> brace_depth(
            st.tokens,
            #[trigger] st.stack[j] as int,
            st.tokens.len() as int,
        ) == st.stack.len() - j
    &&& forall|j: int, m: int|
        0 <= j < st.stack.len() && st.stack[j] < m <= st.tokens.len() ==> #[trigger] brace_depth(
            st.tokens,
            st.stack[j] as int,
            m,
        ) > 0
    &&& forall|k: int| 0 <= k < st.tokens.len() ==> #[trigger] first_balance(st.tokens, k)
}

proof fn lemma_depth_same(t1: Seq<TokView>, t2: Seq<TokView>, a: int, m: int)
    requires
        0 <= a,
        m <= t1.len() <= t2.len(),
        forall|i: int| 0 <= i < t1.len() ==> brace_delta(#[trigger] t2[i]) == brace_delta(t1[i]),
    ensures
        brace_depth(t2, a, m) == brace_depth(t1, a, m),
    decreases m - a,
{
    if m > a {
        lemma_depth_same(t1, t2, a, m - 1);
        assert(brace_delta(t2[m - 1]) == brace_delta(t1[m - 1]));
    }
}

proof fn lemma_depth_extend(t1: Seq<TokView>, t2: Seq<TokView>)
    requires
        t1.len() <= t2.len(),
        forall|i: int| 0 <= i < t1.len() ==> brace_delta(#[trigger] t2[i]) == brace_delta(t1[i]),
    ensures
        forall|a: int, m: int|
            0 <= a && m <= t1.len() ==> #[trigger] brace_depth(t2, a, m) == brace_depth(t1, a, m),
{
    assert forall|a: int, m: int| 0 <= a && m <= t1.len() implies #[trigger] brace_depth(t2, a, m)
        == brace_depth(t1, a, m) by {
        lemma_depth_same(t1, t2, a, m);
    }
}

/// Adding a token that is no brace keeps the nesting facts.
proof fn lemma_push_depth(st: TokState, t: TokView)
    requires
        braces_ok(st),
        depth_ok(st),
        brace_delta(t) == 0,
    ensures
        depth_ok(TokState { tokens: st.tokens.push(t), ..st }),
{
    let n = st.tokens.len() as int;
    let t2 = st.tokens.push(t);
    let s2 = TokState { tokens: t2, ..st };
    lemma_depth_extend(st.tokens, t2);
    assert forall|j: int| 0 <= j < s2.stack.len() implies brace_depth(
        t2,
        #[trigger] s2.stack[j] as int,
        n + 1,
    ) == s2.stack.len() - j by {
        let a = st.stack[j] as int;
        assert(a < n);
        assert(brace_depth(t2, a, n + 1) == brace_depth(t2, a, n) + brace_delta(t2[n]));
        assert(brace_depth(st.tokens, a, n) == st.stack.len() - j);
    }
    assert forall|j: int, m: int|
        0 <= j < s2.stack.len() && s2.stack[j] < m <= n + 1 implies #[trigger] brace_depth(
        t2,
        s2.stack[j] as int,
        m,
    ) > 0 by {
        let a = st.stack[j] as int;
        if m <= n {
            assert(brace_depth(st.tokens, a, m) > 0);
        } else {
            assert(a < n);
            assert(brace_depth(t2, a, n + 1) == brace_depth(t2, a, n) + brace_delta(t2[n]));
            assert(brace_depth(st.tokens, a, n) == st.stack.len() - j);
        }
    }
    assert forall|k: int| 0 <= k < n + 1 implies #[trigger] first_balance(t2, k) by {
        if k < n {
            assert(first_balance(st.tokens, k));
            assert(matched_end(st.tokens, k));
            assert(t2[k] == st.tokens[k]);
            if let TokenKind::Start { end: Some(e) } = st.tokens[k].kind {
                assert(brace_depth(t2, k, e + 1) == brace_depth(st.tokens, k, e + 1));
                assert forall|m: int| k < m <= e implies #[trigger] brace_depth(t2, k, m) > 0 by {
                    assert(brace_depth(st.tokens, k, m) > 0);
                }
            }
        }
    }
}

proof fn lemma_open_depth(st: TokState, t: TokView)
    requires
        braces_ok(st),
        depth_ok(st),
        st.tokens.len() + 1 < usize::MAX,
        t.kind == (TokenKind::Start { end: None }),
    ensures
        depth_ok(TokState {
            tokens: st.tokens.push(t),
            pending: None,
            stack: st.stack.push(st.tokens.len() as usize),
        }),
{
    let n = st.tokens.len() as int;
    let t2 = st.tokens.push(t);
    let s2 = TokState { tokens: t2, pending: None, stack: st.stack.push(n as usize) };
    lemma_depth_extend(st.tokens, t2);
    assert(brace_depth(t2, n, n + 1) == brace_depth(t2, n, n) + brace_delta(t2[n]));
    assert forall|j: int| 0 <= j < s2.stack.len() implies brace_depth(
        t2,
        #[trigger] s2.stack[j] as int,
        n + 1,
    ) == s2.stack.len() - j by {
        if j < st.stack.len() {
            let a = st.stack[j] as int;
            assert(a < n);
            assert(brace_depth(t2, a, n + 1) == brace_depth(t2, a, n) + brace_delta(t2[n]));
            assert(brace_depth(st.tokens, a, n) == st.stack.len() - j);
        }
    }
    assert forall|j: int, m: int|
        0 <= j < s2.stack.len() && s2.stack[j] < m <= n + 1 implies #[trigger] brace_depth(
        t2,
        s2.stack[j] as int,
        m,
    ) > 0 by {
        if j < st.stack.len() {
            let a = st.stack[j] as int;
            if m <= n {
                assert(brace_depth(st.tokens, a, m) > 0);
            } else {
                assert(a < n);
                assert(brace_depth(t2, a, n + 1) == brace_depth(t2, a, n) + brace_delta(t2[n]));
                assert(brace_depth(st.tokens, a, n) == st.stack.len() - j);
            }
        }
    }
    assert forall|k: int| 0 <= k < n + 1 implies #[trigger] first_balance(t2, k) by {
        if k < n {
            assert(first_balance(st.tokens, k));
            assert(matched_end(st.tokens, k));
            assert(t2[k] == st.tokens[k]);
            if let TokenKind::Start { end: Some(e) } = st.tokens[k].kind {
                assert(brace_depth(t2, k, e + 1) == brace_depth(st.tokens, k, e + 1));
                assert forall|m: int| k < m <= e implies #[trigger] brace_depth(t2, k, m) > 0 by {
                    assert(brace_depth(st.tokens, k, m) > 0);
                }
            }
        }
    }
}

proof fn lemma_close_brace_depth(s: TokState, t: TokView)
    requires
        braces_ok(s),
        depth_ok(s),
        s.tokens.len() + 1 < usize::MAX,
        t.kind == TokenKind::End,
    ensures
        ({
            let n = s.tokens.len() as int;
            let (tokens, stack) = if s.stack.len() > 0 {
                (mark_end(s.tokens, s.stack.last() as int, n), s.stack.drop_last())
            } else {
                (s.tokens, s.stack)
            };
            depth_ok(TokState { tokens: tokens.push(t), pending: None, stack })
        }),
{
    let n = s.tokens.len() as int;
    if s.stack.len() > 0 {
        let l = s.stack.len() - 1;
        let top = s.stack.last() as int;
        assert(s.stack[l] < s.tokens.len());
        let tokens = mark_end(s.tokens, top, n);
        let stack = s.stack.drop_last();
        assert(tokens == s.tokens.update(top, TokView { kind: TokenKind::Start { end: Some(n as usize) }, ..s.tokens[top] }));
        let t2 = tokens.push(t);
        let s2 = TokState { tokens: t2, pending: None, stack };
        assert forall|i: int| 0 <= i < n implies brace_delta(#[trigger] t2[i]) == brace_delta(s.tokens[i]) by {
        }
        lemma_depth_extend(s.tokens, t2);
        assert forall|j: int| 0 <= j < s2.stack.len() implies brace_depth(
            t2,
            #[trigger] s2.stack[j] as int,
            n + 1,
        ) == s2.stack.len() - j by {
            let a = s.stack[j] as int;
            assert(a < n);
            assert(brace_depth(t2, a, n + 1) == brace_depth(t2, a, n) + brace_delta(t2[n]));
            assert(brace_depth(s.tokens, a, n) == s.stack.len() - j);
        }
        assert forall|j: int, m: int|
            0 <= j < s2.stack.len() && s2.stack[j] < m <= n + 1 implies #[trigger] brace_depth(
            t2,
            s2.stack[j] as int,
            m,
        ) > 0 by {
            let a = s.stack[j] as int;
            if m <= n {
                assert(brace_depth(s.tokens, a, m) > 0);
            } else {
                assert(a < n);
                assert(brace_depth(t2, a, n + 1) == brace_depth(t2, a, n) + brace_delta(t2[n]));
                assert(brace_depth(s.tokens, a, n) == s.stack.len() - j);
            }
        }
        assert forall|k: int| 0 <= k < n + 1 implies #[trigger] first_balance(t2, k) by {
            if k == top {
                assert(brace_depth(t2, top, n + 1) == brace_depth(t2, top, n) + brace_delta(t2[n]));
                assert(brace_depth(s.tokens, top, n) == s.stack.len() - l);
                assert forall|m: int| top < m <= n implies #[trigger] brace_depth(t2, top, m) > 0 by {
                    assert(brace_depth(s.tokens, s.stack[l] as int, m) > 0);
                }
            } else if k < n {
                assert(first_balance(s.tokens, k));
                assert(matched_end(s.tokens, k));
                assert(t2[k] == s.tokens[k]);
                if let TokenKind::Start { end: Some(e) } = s.tokens[k].kind {
                    assert(brace_depth(t2, k, e + 1) == brace_depth(s.tokens, k, e + 1));
                    assert forall|m: int| k < m <= e implies #[trigger] brace_depth(t2, k, m) > 0 by {
                        assert(brace_depth(s.tokens, k, m) > 0);
                    }
                }
            }
        }
    } else {
        lemma_push_end_no_open(s, t);
    }
}

proof fn lemma_push_end_no_open(s: TokState, t: TokView)
    requires
        braces_ok(s),
        depth_ok(s),
        s.stack.len() == 0,
        t.kind == TokenKind::End,
    ensures
        depth_ok(TokState { tokens: s.tokens.push(t), pending: None, stack: s.stack }),
{
    let n = s.tokens.len() as int;
    let t2 = s.tokens.push(t);
    lemma_depth_extend(s.tokens, t2);
    assert forall|k: int| 0 <= k < n + 1 implies #[trigger] first_balance(t2, k) by {
        if k < n {
            assert(first_balance(s.tokens, k));
            assert(matched_end(s.tokens, k));
            assert(t2[k] == s.tokens[k]);
            if let TokenKind::Start { end: Some(e) } = s.tokens[k].kind {
                assert(brace_depth(t2, k, e + 1) == brace_depth(s.tokens, k, e + 1));
                assert forall|m: int| k < m <= e implies #[trigger] brace_depth(t2, k, m) > 0 by {
                    assert(brace_depth(s.tokens, k, m) > 0);
                }
            }
        }
    }
}

proof fn lemma_close_depth(input: Seq<char>, interp: bool, st: TokState, i: int)
    requires
        braces_ok(st),
        depth_ok(st),
    ensures
        depth_ok(close_pending(input, interp, st, i)),
{
    if let Some(p) = st.pending {
        let t = TokView {
            kind: p.kind,
            pos: p.pos,
            span: EscapedView { interpret_backslashes: interp, raw: input.subrange(p.start, i) },
        };
        assert(brace_delta(t) == 0);
        lemma_push_depth(TokState { pending: None, ..st }, t);
        assert(close_pending(input, interp, st, i) == TokState {
            tokens: st.tokens.push(t),
            pending: None,
            stack: st.stack,
        });
    }
}

proof fn lemma_step_depth(input: Seq<char>, interp: bool, i: int, st: TokState)
    requires
        braces_ok(st),
        depth_ok(st),
        count_ok(st, i),
        0 <= i < input.len(),
        input.len() < usize::MAX,
    ensures
        step(input, interp, i, st) matches Ok((j, s)) ==> depth_ok(s),
{
    let c = input[i];
    lemma_close_braces(input, interp, st, i);
    lemma_close_depth(input, interp, st, i);
    let s = close_pending(input, interp, st, i);
    if c == '{' {
        lemma_open_depth(s, fixed_token(input, interp, TokenKind::Start { end: None }, i, 1));
    } else if c == '}' {
        lemma_close_brace_depth(s, fixed_token(input, interp, TokenKind::End, i, 1));
    } else if c == ',' && st.stack.len() > 0 {
        lemma_push_depth(s, fixed_token(input, interp, TokenKind::Comma, i, 1));
    } else if c == '.' && st.stack.len() > 0 && i + 1 < input.len() && input[i + 1] == '.' {
        lemma_push_depth(s, fixed_token(input, interp, TokenKind::Ellipses, i, 2));
    } else {
        let kind = if is_blank(c) {
            TokenKind::Whitespace
        } else {
            TokenKind::Text
        };
        let s1 = match st.pending {
            Some(p) => if p.kind == kind {
                st
            } else {
                close_pending(input, interp, st, i)
            },
            None => st,
        };
        assert(depth_ok(s1));
    }
}

proof fn lemma_run_depth(input: Seq<char>, interp: bool, i: int, st: TokState)
    requires
        braces_ok(st),
        depth_ok(st),
        count_ok(st, i),
        0 <= i,
        input.len() < usize::MAX,
    ensures
        run(input, interp, i, st) matches Ok(s) ==> depth_ok(s) && braces_ok(s) && count_ok(
            s,
            if i <= input.len() {
                input.len() as int
            } else {
                i
            },
        ),
    decreases input.len() - i,
{
    lemma_run_braces(input, interp, i, st);
    if 0 <= i < input.len() {
        lemma_step_braces(input, interp, i, st);
        lemma_step_depth(input, interp, i, st);
        if let Ok((j, s)) = step(input, interp, i, st) {
            if j > i {
                lemma_run_depth(input, interp, j, s);
            }
        }
    }
}

/// Each `{` token that records its `}` records the first token after which the braces
/// from it on balance: counting `{` up and `}` down from the `{`, the count stays above
/// zero until that `}` and is zero right after it.
pub proof fn lemma_end_is_first_balance(input: Seq<char>, options: Options)
    requires
        input.len() < usize::MAX,
    ensures
        spec_tokenize(input, options) matches Ok(toks) ==> forall|k: int|
            0 <= k < toks.len() ==> #[trigger] first_balance(toks, k),
{
    let interp = options.interpret_backslashes;
    let st = initial_state();
    lemma_run_depth(input, interp, 0, st);
    if let Ok(s) = run(input, interp, 0, st) {
        lemma_close_depth(input, interp, s, input.len() as int);
    }
}

/// A whitespace or text token.
pub open spec fn is_run(k: TokenKind) -> bool {
    k is Whitespace || k is Text
}

/// A whitespace or text token is not empty, and a whitespace token holds only
/// whitespace.
pub open spec fn run_token_ok(t: TokView) -> bool {
    is_run(t.kind) ==> t.span.raw.len() > 0 && (t.kind is Whitespace ==> forall|q: int|
        0 <= q < t.span.raw.len() ==> is_blank(#[trigger] t.span.raw[q]))
}

/// Tokens `k` and `k + 1` are not two runs of one kind: a run of whitespace or of text
/// is never cut in two.
pub open spec fn runs_apart(toks: Seq<TokView>, k: int) -> bool {
    !(is_run(toks[k].kind) && toks[k + 1].kind == toks[k].kind)
}

spec fn tokens_runs_ok(toks: Seq<TokView>) -> bool {
    &&& forall|k: int| 0 <= k < toks.len() ==> #[trigger] run_token_ok(toks[k])
    &&& forall|k: int| 0 <= k < toks.len() - 1 ==> #[trigger] runs_apart(toks, k)
}

/// The tokens so far keep runs whole, and the run in the making (from `p.start` up to
/// character `i`) is not empty, holds only whitespace if it is whitespace, and is of
/// another kind than the token before it.
spec fn runs_ok(input: Seq<char>, st: TokState, i: int) -> bool {
    &&& tokens_runs_ok(st.tokens)
    &&& match st.pending {
        Some(p) => {
            &&& is_run(p.kind)
            &&& 0 <= p.start < i <= input.len()
            &&& p.kind is Whitespace ==> forall|q: int|
                p.start <= q < i ==> is_blank(#[trigger] input[q])
            &&& st.tokens.len() > 0 ==> st.tokens.last().kind != p.kind
        },
        None => st.tokens.len() > 0 ==> !is_run(st.tokens.last().kind),
    }
}

proof fn lemma_push_runs(toks: Seq<TokView>, t: TokView)
    requires
        tokens_runs_ok(toks),
        run_token_ok(t),
        toks.len() > 0 ==> !(is_run(toks.last().kind) && t.kind == toks.last().kind),
    ensures
        tokens_runs_ok(toks.push(t)),
{
    let u = toks.push(t);
    assert forall|k: int| 0 <= k < u.len() implies #[trigger] run_token_ok(u[k]) by {
        if k < toks.len() {
            assert(run_token_ok(toks[k]));
        }
    }
    assert forall|k: int| 0 <= k < u.len() - 1 implies #[trigger] runs_apart(u, k) by {
        if k < toks.len() - 1 {
            assert(runs_apart(toks, k));
        }
    }
}

proof fn lemma_close_runs(input: Seq<char>, interp: bool, st: TokState, i: int)
    requires
        runs_ok(input, st, i),
    ensures
        ({
            let s = close_pending(input, interp, st, i);
            &&& tokens_runs_ok(s.tokens)
            &&& s.pending is None
            &&& s.stack == st.stack
            &&& s.tokens.len() > 0
                ==> !is_run(s.tokens.last().kind) || (st.pending matches Some(p)
                && s.tokens.last().kind == p.kind)
        }),
{
    if let Some(p) = st.pending {
        let t = TokView {
            kind: p.kind,
            pos: p.pos,
            span: EscapedView { interpret_backslashes: interp, raw: input.subrange(p.start, i) },
        };
        assert(run_token_ok(t)) by {
            if p.kind is Whitespace {
                assert forall|q: int| 0 <= q < t.span.raw.len() implies is_blank(
                    #[trigger] t.span.raw[q],
                ) by {
                    assert(t.span.raw[q] == input[p.start + q]);
                }
            }
        }
        lemma_push_runs(st.tokens, t);
    }
}

proof fn lemma_mark_end_runs(toks: Seq<TokView>, k: int, n: int)
    requires
        tokens_runs_ok(toks),
    ensures
        tokens_runs_ok(mark_end(toks, k, n)),
        mark_end(toks, k, n).len() == toks.len(),
        toks.len() > 0 ==> (is_run(mark_end(toks, k, n).last().kind) <==> is_run(toks.last().kind)),
{
    let m = mark_end(toks, k, n);
    assert forall|q: int| 0 <= q < m.len() && is_run(#[trigger] m[q].kind) implies m[q] == toks[q] by {
    }
    assert forall|q: int| 0 <= q < m.len() implies #[trigger] run_token_ok(m[q]) by {
        assert(run_token_ok(toks[q]));
    }
    assert forall|q: int| 0 <= q < m.len() - 1 implies #[trigger] runs_apart(m, q) by {
        assert(runs_apart(toks, q));
        if is_run(m[q].kind) {
            assert(m[q] == toks[q]);
            if m[q + 1].kind == m[q].kind {
                assert(m[q + 1] == toks[q + 1]);
            }
        }
    }
}

proof fn lemma_step_runs(input: Seq<char>, interp: bool, i: int, st: TokState)
    requires
        runs_ok(input, st, i),
        0 <= i < input.len(),
    ensures
        step(input, interp, i, st) matches Ok((j, s)) ==> i < j <= input.len() && runs_ok(
            input,
            s,
            j,
        ),
{
    let c = input[i];
    lemma_close_runs(input, interp, st, i);
    let s = close_pending(input, interp, st, i);
    if c == '{' {
        lemma_push_runs(s.tokens, fixed_token(input, interp, TokenKind::Start { end: None }, i, 1));
    } else if c == '}' {
        let n = s.tokens.len() as int;
        let tokens = if s.stack.len() > 0 {
            mark_end(s.tokens, s.stack.last() as int, n)
        } else {
            s.tokens
        };
        lemma_mark_end_runs(s.tokens, s.stack.last() as int, n);
        lemma_push_runs(tokens, fixed_token(input, interp, TokenKind::End, i, 1));
    } else if c == ',' && st.stack.len() > 0 {
        lemma_push_runs(s.tokens, fixed_token(input, interp, TokenKind::Comma, i, 1));
    } else if c == '.' && st.stack.len() > 0 && i + 1 < input.len() && input[i + 1] == '.' {
        lemma_push_runs(s.tokens, fixed_token(input, interp, TokenKind::Ellipses, i, 2));
    } else {
        let kind = if is_blank(c) {
            TokenKind::Whitespace
        } else {
            TokenKind::Text
        };
        let j = if !is_blank(c) && interp && c == '\\' {
            i + 2
        } else {
            i + 1
        };
        if let Ok((j2, s2)) = step(input, interp, i, st) {
            assert(j2 == j);
            assert(s2 == extend_run(input, interp, st, kind, i));
            match st.pending {
                Some(p) => {
                    if p.kind == kind {
                        assert(s2 == st);
                        if kind is Whitespace {
                            assert forall|q: int| p.start <= q < j implies is_blank(
                                #[trigger] input[q],
                            ) by {
                                if q < i {
                                    assert(is_blank(input[q]));
                                }
                            }
                        }
                    } else {
                        assert(s2.tokens == s.tokens);
                        assert(s.tokens.last().kind == p.kind);
                    }
                },
                None => {},
            }
        }
    }
}

proof fn lemma_run_runs(input: Seq<char>, interp: bool, i: int, st: TokState)
    requires
        runs_ok(input, st, i),
        0 <= i <= input.len(),
    ensures
        run(input, interp, i, st) matches Ok(s) ==> runs_ok(input, s, input.len() as int),
    decreases input.len() - i,
{
    if i < input.len() {
        lemma_step_runs(input, interp, i, st);
        if let Ok((j, s)) = step(input, interp, i, st) {
            lemma_run_runs(input, interp, j, s);
        }
    }
}

/// Runs of whitespace and of text are kept whole: no two neighbouring tokens are runs
/// of one kind, no run token is empty, and a whitespace token holds only whitespace.
pub proof fn lemma_runs_maximal(input: Seq<char>, options: Options)
    ensures
        spec_tokenize(input, options) matches Ok(toks) ==> {
            &&& forall|k: int| 0 <= k < toks.len() ==> #[trigger] run_token_ok(toks[k])
            &&& forall|k: int| 0 <= k < toks.len() - 1 ==> #[trigger] runs_apart(toks, k)
        },
{
    let interp = options.interpret_backslashes;
    let st = initial_state();
    lemma_run_runs(input, interp, 0, st);
    if let Ok(s) = run(input, interp, 0, st) {
        lemma_close_runs(input, interp, s, input.len() as int);
    }
}

/// Unescaping drops each escaping backslash whatever character follows it, keeps that
/// character, and keeps every other character as it is; a lone backslash at the end
/// stands for nothing.
pub proof fn lemma_unescape_step(c: char, s: Seq<char>)
    ensures
        unescape(seq!['\\', c] + s) == seq![c] + unescape(s),
        c != '\\' ==> unescape(seq![c] + s) == seq![c] + unescape(s),
        unescape(seq!['\\']) == Seq::<char>::empty(),
{
    let x = seq!['\\', c] + s;
    assert(x.subrange(2, x.len() as int) =~= s);
    assert(x[0] == '\\' && x[1] == c);
    let y = seq![c] + s;
    assert(y.subrange(1, y.len() as int) =~= s);
    assert(y[0] == c);
}

/// Text without backslashes unescapes to itself.
pub proof fn lemma_unescape_plain(s: Seq<char>)
    requires
        forall|i: int| 0 <= i < s.len() ==> #[trigger] s[i] != '\\',
    ensures
        unescape(s) == s,
    decreases s.len(),
{
    if s.len() > 0 {
        let t = s.subrange(1, s.len() as int);
        lemma_unescape_plain(t);
        lemma_unescape_step(s[0], t);
        assert(s =~= seq![s[0]] + t);
    }
}

/// Every backslash of `raw` has the character after it in `raw` too: `raw` is made of
/// single characters other than a backslash and of pairs of a backslash and any
/// character.
pub open spec fn escapes_whole(raw: Seq<char>) -> bool
    decreases raw.len(),
{
    if raw.len() == 0 {
        true
    } else if raw[0] == '\\' {
        raw.len() >= 2 && escapes_whole(raw.subrange(2, raw.len() as int))
    } else {
        escapes_whole(raw.subrange(1, raw.len() as int))
    }
}

/// A token keeps its escapes whole, and only a text token holds a backslash.
pub open spec fn escapes_kept(t: TokView) -> bool {
    &&& escapes_whole(t.span.raw)
    &&& !(t.kind is Text) ==> forall|q: int|
        0 <= q < t.span.raw.len() ==> #[trigger] t.span.raw[q] != '\\'
}

pub(crate) proof fn lemma_escapes_concat(x: Seq<char>, y: Seq<char>)
    requires
        escapes_whole(x),
        escapes_whole(y),
    ensures
        escapes_whole(x + y),
    decreases x.len(),
{
    if x.len() > 0 {
        let n: int = if x[0] == '\\' { 2 } else { 1 };
        lemma_escapes_concat(x.subrange(n, x.len() as int), y);
        assert((x + y).subrange(n, (x + y).len() as int) =~= x.subrange(n, x.len() as int) + y);
        assert((x + y)[0] == x[0]);
    }
}

proof fn lemma_escapes_plain(x: Seq<char>)
    requires
        forall|q: int| 0 <= q < x.len() ==> #[trigger] x[q] != '\\',
    ensures
        escapes_whole(x),
    decreases x.len(),
{
    if x.len() > 0 {
        let y = x.subrange(1, x.len() as int);
        assert forall|q: int| 0 <= q < y.len() implies #[trigger] y[q] != '\\' by {
            assert(y[q] == x[q + 1]);
        }
        lemma_escapes_plain(y);
    }
}

proof fn lemma_escape_pair(c: char)
    ensures
        escapes_whole(seq!['\\', c]),
{
    let x = seq!['\\', c];
    assert(x.subrange(2, 2) =~= Seq::<char>::empty());
    assert(x[0] == '\\' && x.len() == 2);
    assert(escapes_whole(x.subrange(2, 2)));
}

spec fn esc_ok(input: Seq<char>, interp: bool, st: TokState, i: int) -> bool {
    interp ==> {
        &&& forall|k: int| 0 <= k < st.tokens.len() ==> #[trigger] escapes_kept(st.tokens[k])
        &&& st.pending matches Some(p) ==> escapes_whole(input.subrange(p.start, i))
    }
}

proof fn lemma_push_esc(toks: Seq<TokView>, t: TokView)
    requires
        forall|k: int| 0 <= k < toks.len() ==> #[trigger] escapes_kept(toks[k]),
        escapes_kept(t),
    ensures
        forall|k: int| 0 <= k < toks.push(t).len() ==> #[trigger] escapes_kept(toks.push(t)[k]),
{
    assert forall|k: int| 0 <= k < toks.push(t).len() implies #[trigger] escapes_kept(toks.push(t)[k]) by {
        if k < toks.len() {
            assert(escapes_kept(toks[k]));
        }
    }
}

proof fn lemma_fixed_esc(input: Seq<char>, interp: bool, kind: TokenKind, i: int, n: int)
    requires
        0 <= i,
        0 <= n,
        i + n <= input.len(),
        forall|q: int| i <= q < i + n ==> #[trigger] input[q] != '\\',
        !(kind is Text),
    ensures
        escapes_kept(fixed_token(input, interp, kind, i, n)),
{
    let raw = input.subrange(i, i + n);
    assert forall|q: int| 0 <= q < raw.len() implies #[trigger] raw[q] != '\\' by {
        assert(raw[q] == input[i + q]);
    }
    lemma_escapes_plain(raw);
}

proof fn lemma_close_esc(input: Seq<char>, interp: bool, st: TokState, i: int)
    requires
        runs_ok(input, st, i),
        esc_ok(input, interp, st, i),
    ensures
        esc_ok(input, interp, close_pending(input, interp, st, i), i),
{
    if interp {
        if let Some(p) = st.pending {
            let raw = input.subrange(p.start, i);
            let t = TokView {
                kind: p.kind,
                pos: p.pos,
                span: EscapedView { interpret_backslashes: interp, raw },
            };
            if !(p.kind is Text) {
                assert forall|q: int| 0 <= q < raw.len() implies #[trigger] raw[q] != '\\' by {
                    assert(raw[q] == input[p.start + q]);
                    assert(is_blank(input[p.start + q]));
                }
            }
            lemma_push_esc(st.tokens, t);
        }
    }
}

proof fn lemma_step_esc(input: Seq<char>, interp: bool, i: int, st: TokState)
    requires
        runs_ok(input, st, i),
        esc_ok(input, interp, st, i),
        0 <= i < input.len(),
    ensures
        step(input, interp, i, st) matches Ok((j, s)) ==> esc_ok(input, interp, s, j),
{
    if interp {
        let c = input[i];
        lemma_close_esc(input, interp, st, i);
        lemma_close_runs(input, interp, st, i);
        let s = close_pending(input, interp, st, i);
        if c == '{' {
            lemma_fixed_esc(input, interp, TokenKind::Start { end: None }, i, 1);
            lemma_push_esc(s.tokens, fixed_token(input, interp, TokenKind::Start { end: None }, i, 1));
        } else if c == '}' {
            let n = s.tokens.len() as int;
            let tokens = if s.stack.len() > 0 {
                mark_end(s.tokens, s.stack.last() as int, n)
            } else {
                s.tokens
            };
            assert forall|k: int| 0 <= k < tokens.len() implies #[trigger] escapes_kept(tokens[k]) by {
                assert(escapes_kept(s.tokens[k]));
                assert(tokens[k].span == s.tokens[k].span);
                assert(tokens[k].kind is Text <==> s.tokens[k].kind is Text);
            }
            lemma_fixed_esc(input, interp, TokenKind::End, i, 1);
            lemma_push_esc(tokens, fixed_token(input, interp, TokenKind::End, i, 1));
        } else if c == ',' && st.stack.len() > 0 {
            lemma_fixed_esc(input, interp, TokenKind::Comma, i, 1);
            lemma_push_esc(s.tokens, fixed_token(input, interp, TokenKind::Comma, i, 1));
        } else if c == '.' && st.stack.len() > 0 && i + 1 < input.len() && input[i + 1] == '.' {
            lemma_fixed_esc(input, interp, TokenKind::Ellipses, i, 2);
            lemma_push_esc(s.tokens, fixed_token(input, interp, TokenKind::Ellipses, i, 2));
        } else {
            let kind = if is_blank(c) {
                TokenKind::Whitespace
            } else {
                TokenKind::Text
            };
            if let Ok((j, s2)) = step(input, interp, i, st) {
                assert(s2 == extend_run(input, interp, st, kind, i));
                let piece = input.subrange(i, j);
                assert(escapes_whole(piece)) by {
                    if !is_blank(c) && c == '\\' {
                        assert(j == i + 2);
                        assert(piece =~= seq!['\\', input[i + 1]]);
                        lemma_escape_pair(input[i + 1]);
                    } else {
                        assert(j == i + 1);
                        assert(piece =~= seq![c]);
                        lemma_escapes_plain(piece);
                    }
                }
                match st.pending {
                    Some(p) => {
                        if p.kind == kind {
                            assert(input.subrange(p.start, j) =~= input.subrange(p.start, i) + piece);
                            lemma_escapes_concat(input.subrange(p.start, i), piece);
                        } else {
                            assert(s2.pending == Some(Pending { kind, pos: byte_offset(input, i), start: i }));
                        }
                    },
                    None => {},
                }
            }
        }
    }
}

proof fn lemma_run_esc(input: Seq<char>, interp: bool, i: int, st: TokState)
    requires
        runs_ok(input, st, i),
        esc_ok(input, interp, st, i),
        0 <= i <= input.len(),
    ensures
        run(input, interp, i, st) matches Ok(s) ==> runs_ok(input, s, input.len() as int)
            && esc_ok(input, interp, s, input.len() as int),
    decreases input.len() - i,
{
    if i < input.len() {
        lemma_step_runs(input, interp, i, st);
        lemma_step_esc(input, interp, i, st);
        if let Ok((j, s)) = step(input, interp, i, st) {
            lemma_run_esc(input, interp, j, s);
        }
    }
}

/// With backslash escapes on, a backslash and the character after it always fall in
/// one token, and only a text token holds a backslash: an escaped character is never
/// read as a brace, a comma, `..` or whitespace.
pub proof fn lemma_escapes_stay_in_text(input: Seq<char>, options: Options)
    requires
        options.interpret_backslashes,
    ensures
        spec_tokenize(input, options) matches Ok(toks) ==> forall|k: int|
            0 <= k < toks.len() ==> #[trigger] escapes_kept(toks[k]),
{
    let interp = options.interpret_backslashes;
    let st = initial_state();
    lemma_run_esc(input, interp, 0, st);
    if let Ok(s) = run(input, interp, 0, st) {
        lemma_close_esc(input, interp, s, input.len() as int);
    }
}

/// A brace, a comma or whitespace: a character that may end a run of text between
/// braces.
pub open spec fn is_separator(c: char) -> bool {
    c == '{' || c == '}' || c == ',' || is_blank(c)
}

/// Text that stands for itself between braces: made of characters other than a
/// separator and a backslash, and of pairs of a backslash and any character.
pub open spec fn plain_text(s: Seq<char>) -> bool
    decreases s.len(),
{
    if s.len() == 0 {
        true
    } else if s[0] == '\\' {
        s.len() >= 2 && plain_text(s.subrange(2, s.len() as int))
    } else {
        !is_separator(s[0]) && plain_text(s.subrange(1, s.len() as int))
    }
}

/// The tokens from `from` on are text or `..` tokens read with escapes on.
pub open spec fn inner_tokens(toks: Seq<TokView>, from: int) -> bool {
    forall|k: int|
        from <= k < toks.len() ==> (#[trigger] toks[k].kind is Text || toks[k].kind is Ellipses)
            && toks[k].span.interpret_backslashes
}

proof fn lemma_inner_extend(a: Seq<TokView>, b: Seq<TokView>, c: Seq<TokView>)
    requires
        a.len() <= b.len() <= c.len(),
        b.take(a.len() as int) == a,
        c.take(b.len() as int) == b,
        inner_tokens(b, a.len() as int),
        inner_tokens(c, b.len() as int),
    ensures
        c.take(a.len() as int) == a,
        inner_tokens(c, a.len() as int),
{
    assert(c.take(a.len() as int) =~= b.take(a.len() as int));
    assert forall|k: int| a.len() <= k < c.len() implies (#[trigger] c[k].kind is Text
        || c[k].kind is Ellipses) && c[k].span.interpret_backslashes by {
        if k < b.len() {
            assert(c[k] == c.take(b.len() as int)[k]);
            assert(b[k].kind is Text || b[k].kind is Ellipses);
        }
    }
}

/// Reading plain text between braces, from `i` up to the separator at `e`, makes only
/// text and `..` tokens and leaves the open braces as they are.
proof fn lemma_plain_run(input: Seq<char>, i: int, e: int, st: TokState) -> (st2: TokState)
    requires
        0 <= i <= e < input.len(),
        plain_text(input.subrange(i, e)),
        input[e] == ',' || input[e] == '}',
        st.stack.len() > 0,
        st.pending matches Some(p) ==> p.kind is Text,
        covers(input, st, i),
    ensures
        run(input, true, i, st) == run(input, true, e, st2),
        st2.stack == st.stack,
        st.tokens.len() <= st2.tokens.len(),
        st2.tokens.take(st.tokens.len() as int) == st.tokens,
        inner_tokens(st2.tokens, st.tokens.len() as int),
        st2.pending matches Some(p) ==> p.kind is Text,
        covers(input, st2, e),
    decreases e - i,
{
    if i == e {
        assert(st.tokens.take(st.tokens.len() as int) =~= st.tokens);
        st
    } else {
        let c = input[i];
        let sub = input.subrange(i, e);
        assert(sub[0] == c);
        lemma_step_covers(input, true, i, st);
        lemma_close_covers(input, true, st, i);
        let sc = close_pending(input, true, st, i);
        let n: int = if c == '\\' || (c == '.' && input[i + 1] == '.') {
            2
        } else {
            1
        };
        if c == '\\' {
            assert(sub.len() >= 2);
        } else {
            assert(!is_separator(c));
            if c == '.' && input[i + 1] == '.' {
                assert(i + 1 < e);
                let t1 = sub.subrange(1, sub.len() as int);
                assert(t1[0] == '.');
                assert(plain_text(t1));
                assert(plain_text(t1.subrange(1, t1.len() as int)));
                assert(t1.subrange(1, t1.len() as int) =~= sub.subrange(2, sub.len() as int));
            }
        }
        assert(plain_text(sub.subrange(n, sub.len() as int)));
        assert(sub.subrange(n, sub.len() as int) =~= input.subrange(i + n, e));
        let s = if c == '.' && input[i + 1] == '.' {
            add_fixed(input, true, st, TokenKind::Ellipses, i, 2)
        } else {
            extend_run(input, true, st, TokenKind::Text, i)
        };
        assert(step(input, true, i, st) == Ok::<(int, TokState), Error>((i + n, s)));
        // the tokens `s` adds are text or `..` tokens
        assert(s.tokens.take(st.tokens.len() as int) =~= st.tokens);
        assert(inner_tokens(s.tokens, st.tokens.len() as int));
        let st2 = lemma_plain_run(input, i + n, e, s);
        lemma_inner_extend(st.tokens, s.tokens, st2.tokens);
        st2
    }
}

proof fn lemma_joined_raw_concat(a: Seq<TokView>, b: Seq<TokView>)
    ensures
        joined_raw(a + b) == joined_raw(a) + joined_raw(b),
    decreases b.len(),
{
    if b.len() == 0 {
        assert(a + b =~= a);
        assert(joined_raw(a) + joined_raw(b) =~= joined_raw(a));
    } else {
        lemma_joined_raw_concat(a, b.drop_last());
        assert((a + b).drop_last() =~= a + b.drop_last());
        assert(joined_raw(a) + joined_raw(b.drop_last()) + b.last().span.raw =~= joined_raw(a)
            + (joined_raw(b.drop_last()) + b.last().span.raw));
    }
}

/// `t` with the tokens from `k` on (those after the first `k`) split off: their raw
/// texts are what the raw texts of `t` hold after those of the first `k`.
proof fn lemma_joined_raw_tail(t: Seq<TokView>, k: int, whole: Seq<char>, head: Seq<char>)
    requires
        0 <= k <= t.len(),
        joined_raw(t) == whole,
        joined_raw(t.take(k)) == head,
    ensures
        joined_raw(t.subrange(k, t.len() as int)) == whole.subrange(head.len() as int, whole.len() as int),
        head.len() <= whole.len(),
{
    assert(t =~= t.take(k) + t.subrange(k, t.len() as int));
    lemma_joined_raw_concat(t.take(k), t.subrange(k, t.len() as int));
    let j = joined_raw(t.subrange(k, t.len() as int));
    assert(whole == head + j);
    assert(whole.subrange(head.len() as int, whole.len() as int) =~= j);
}

/// The tokens of `{x,y}` for plain `x` and `y`: the `{`, the text and `..` tokens of
/// `x`, a comma (at index `m`), the text and `..` tokens of `y`, and the `}`.
#[verifier::spinoff_prover]
#[verifier::rlimit(40)]
pub proof fn lemma_two_alternatives_tokens(x: Seq<char>, y: Seq<char>, options: Options) -> (m: int)
    requires
        plain_text(x),
        plain_text(y),
        options.interpret_backslashes,
    ensures
        spec_tokenize(seq!['{'] + x + seq![','] + y + seq!['}'], options) matches Ok(toks) && {
            &&& 0 < m < toks.len() - 1
            &&& toks[0].kind is Start
            &&& toks[m].kind is Comma
            &&& toks.last().kind == TokenKind::End
            &&& forall|k: int|
                0 < k < toks.len() - 1 && k != m ==> (#[trigger] toks[k].kind is Text
                    || toks[k].kind is Ellipses) && toks[k].span.interpret_backslashes
            &&& joined_raw(toks.subrange(1, m)) == x
            &&& joined_raw(toks.subrange(m + 1, toks.len() - 1)) == y
        },
{
    let c = seq!['{'] + x + seq![','] + y + seq!['}'];
    let len = c.len() as int;
    let e1 = 1 + x.len() as int;
    let e2 = e1 + 1 + y.len() as int;
    assert(e2 == len - 1);
    assert(c[0] == '{' && c[e1] == ',' && c[e2] == '}');
    assert(c.subrange(1, e1) =~= x);
    assert(c.subrange(e1 + 1, e2) =~= y);
    let st0 = initial_state();
    assert(joined_raw(st0.tokens) + pending_text(c, st0, 0) =~= c.take(0));
    lemma_step_covers(c, true, 0, st0);
    let t0 = fixed_token(c, true, TokenKind::Start { end: None }, 0, 1);
    let s1 = TokState { tokens: seq![t0], pending: None, stack: seq![0usize] };
    assert(close_pending(c, true, st0, 0) == st0);
    assert(step(c, true, 0, st0) == Ok::<(int, TokState), Error>((1, s1))) by {
        assert(Seq::<TokView>::empty().push(t0) =~= seq![t0]);
        assert(Seq::<usize>::empty().push(0usize) =~= seq![0usize]);
    }
    let s2 = lemma_plain_run(c, 1, e1, s1);
    lemma_close_covers(c, true, s2, e1);
    let s2c = close_pending(c, true, s2, e1);
    let m = s2c.tokens.len() as int;
    let s3 = add_fixed(c, true, s2, TokenKind::Comma, e1, 1);
    assert(step(c, true, e1, s2) == Ok::<(int, TokState), Error>((e1 + 1, s3)));
    lemma_step_covers(c, true, e1, s2);
    let s4 = lemma_plain_run(c, e1 + 1, e2, s3);
    lemma_close_covers(c, true, s4, e2);
    let s4c = close_pending(c, true, s4, e2);
    let n = s4c.tokens.len() as int;
    let tend = fixed_token(c, true, TokenKind::End, e2, 1);
    let marked = mark_end(s4c.tokens, 0, n);
    let s5 = TokState { tokens: marked.push(tend), pending: None, stack: seq![] };
    assert(s4c.stack == seq![0usize]);
    assert(s4c.stack.drop_last() =~= Seq::<usize>::empty());
    assert(step(c, true, e2, s4) == Ok::<(int, TokState), Error>((len, s5)));
    assert(run(c, true, len, s5) == Ok::<TokState, Error>(s5));
    assert(run(c, true, 0, st0) == Ok::<TokState, Error>(s5));
    assert(close_pending(c, true, s5, len) == s5);
    let toks = s5.tokens;
    assert(spec_tokenize(c, options) == Ok::<Seq<TokView>, Error>(toks));
    // where each token came from
    assert(s2c.tokens.take(1) =~= seq![t0]) by {
        assert(s2.tokens.take(1) == s1.tokens);
        if s2.pending is Some {
            assert(s2c.tokens == s2.tokens.push(s2c.tokens.last()));
        }
    }
    assert(s3.tokens == s2c.tokens.push(fixed_token(c, true, TokenKind::Comma, e1, 1)));
    assert(s4c.tokens.take(s3.tokens.len() as int) == s3.tokens) by {
        if s4.pending is Some {
            assert(s4c.tokens == s4.tokens.push(s4c.tokens.last()));
            assert(s4c.tokens.take(s3.tokens.len() as int) =~= s4.tokens.take(s3.tokens.len() as int));
        }
    }
    assert forall|k: int| 0 < k < n implies #[trigger] marked[k] == s4c.tokens[k] by {}
    assert forall|k: int|
        0 < k < toks.len() - 1 && k != m implies (#[trigger] toks[k].kind is Text
        || toks[k].kind is Ellipses) && toks[k].span.interpret_backslashes by {
        assert(toks[k] == s4c.tokens[k]);
        if k < m {
            assert(s4c.tokens[k] == s3.tokens[k]);
            assert(s3.tokens[k] == s2c.tokens[k]);
            if k < s2.tokens.len() {
                assert(s2c.tokens[k] == s2.tokens[k]);
                assert(k >= s1.tokens.len());
            }
        } else if k < s4.tokens.len() {
            assert(s4c.tokens[k] == s4.tokens[k]);
        }
    }
    // the raw texts of the two runs of tokens
    assert(joined_raw(s2c.tokens) == c.take(e1)) by {
        assert(joined_raw(s2c.tokens) + pending_text(c, s2c, e1) == c.take(e1));
        assert(joined_raw(s2c.tokens) + pending_text(c, s2c, e1) =~= joined_raw(s2c.tokens));
    }
    assert(joined_raw(s4c.tokens) == c.take(e2)) by {
        assert(joined_raw(s4c.tokens) + pending_text(c, s4c, e2) == c.take(e2));
        assert(joined_raw(s4c.tokens) + pending_text(c, s4c, e2) =~= joined_raw(s4c.tokens));
    }
    assert(joined_raw(seq![t0]) == seq!['{']) by {
        assert(seq![t0].drop_last() =~= Seq::<TokView>::empty());
        assert(t0.span.raw =~= seq!['{']);
        assert(Seq::<char>::empty() + t0.span.raw =~= t0.span.raw);
    }
    lemma_joined_raw_tail(s2c.tokens, 1, c.take(e1), seq!['{']);
    assert(c.take(e1).subrange(1, e1) =~= x);
    lemma_joined_raw_push(s2c.tokens, fixed_token(c, true, TokenKind::Comma, e1, 1));
    assert(joined_raw(s3.tokens) =~= c.take(e1 + 1));
    lemma_joined_raw_tail(s4c.tokens, s3.tokens.len() as int, c.take(e2), c.take(e1 + 1));
    assert(c.take(e2).subrange(e1 + 1, e2) =~= y);
    assert(toks.subrange(1, m) =~= s2c.tokens.subrange(1, m)) by {
        assert forall|k: int| 1 <= k < m implies toks[k] == s2c.tokens[k] by {
            assert(toks[k] == s4c.tokens[k]);
            assert(s4c.tokens[k] == s3.tokens[k]);
        }
    }
    assert(toks.subrange(m + 1, toks.len() - 1) =~= s4c.tokens.subrange(m + 1, n)) by {
        assert forall|k: int| m + 1 <= k < n implies toks[k] == s4c.tokens[k] by {}
    }
    assert(s2c.tokens.subrange(1, m) =~= s2c.tokens.subrange(1, s2c.tokens.len() as int));
    assert(toks[0].kind is Start);
    assert(toks[m] == s3.tokens[m]);
    m
}

/// Unescaping text whose escapes are whole, followed by more text, unescapes the two
/// one after the other.
pub proof fn lemma_unescape_concat(x: Seq<char>, y: Seq<char>)
    requires
        escapes_whole(x),
    ensures
        unescape(x + y) == unescape(x) + unescape(y),
    decreases x.len(),
{
    if x.len() > 0 {
        if x[0] == '\\' {
            let r = x.subrange(2, x.len() as int);
            lemma_unescape_concat(r, y);
            lemma_unescape_step(x[1], r);
            lemma_unescape_step(x[1], r + y);
            assert(x =~= seq!['\\', x[1]] + r);
            assert(x + y =~= seq!['\\', x[1]] + (r + y));
            assert(seq![x[1]] + unescape(r) + unescape(y) =~= seq![x[1]] + (unescape(r) + unescape(y)));
        } else {
            let r = x.subrange(1, x.len() as int);
            lemma_unescape_concat(r, y);
            lemma_unescape_step(x[0], r);
            lemma_unescape_step(x[0], r + y);
            assert(x =~= seq![x[0]] + r);
            assert(x + y =~= seq![x[0]] + (r + y));
            assert(seq![x[0]] + unescape(r) + unescape(y) =~= seq![x[0]] + (unescape(r) + unescape(y)));
        }
    } else {
        assert(x + y =~= y);
        assert(unescape(x) + unescape(y) =~= unescape(y));
    }
}

} // verus!
