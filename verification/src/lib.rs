//! Library to support bash-like brace expansions
//!
//! ```rust
//! use brace_expander::BraceExpander;
//! let be = BraceExpander::default();
//! assert_eq!(be.expand("G{o,u}{b,g}").unwrap().join(" "), "Gob Gog Gub Gug");
//! assert_eq!(be.expand("thing{3..1}").unwrap().join(" "), "thing3 thing2 thing1");
//! ```
use vstd::prelude::*;
use vstd::slice::slice_subrange;
use vstd::utf8::encode_utf8;

pub mod error;
pub mod expansion;
pub mod number;
pub mod parser;
pub mod tokenizer;

pub use error::Error;
pub use expansion::{cartesian_product, char_range, expand_ast, numeric_range};
use expansion::{spec_expand_ast, strs};
use parser::{parse_section, spec_parse_section, Ast};
use tokenizer::{is_blank, no_blank_chars, shift_tokens, spec_tokenize, token_views, tokenize, Token, TokenKind, TokView};

verus! {

/// `String::push` (std) appends the character `ch` to the end of the string, as its
/// documentation says; that is all this claims of it.
pub assume_specification[ String::push ](s: &mut String, ch: char)
    ensures
        final(s)@ == old(s)@.push(ch),
;

/// How input is read.
#[derive(Debug, Clone, Copy)]
pub struct Options {
    /// Malformed braces are an error (else they stand for themselves, as in Bash)
    pub strict: bool,
    /// A backslash escapes the character after it
    pub interpret_backslashes: bool,
}

impl Options {
    /// Strict, with backslash escapes.
    pub fn new() -> (o: Self)
        ensures
            o.strict,
            o.interpret_backslashes,
    {
        Options { strict: true, interpret_backslashes: true }
    }
}

impl Default for Options {
    fn default() -> (o: Self)
        ensures
            o.strict,
            o.interpret_backslashes,
    {
        Options::new()
    }
}

/// The sections of `toks`: the runs of tokens between whitespace tokens, as
/// `slice::split` gives them (so `n` whitespace tokens make `n + 1` sections, some of
/// them empty).
pub open spec fn split_blank(toks: Seq<TokView>) -> Seq<Seq<TokView>>
    decreases toks.len(),
{
    if toks.len() == 0 {
        seq![seq![]]
    } else {
        let prev = split_blank(toks.drop_last());
        if toks.last().kind is Whitespace {
            prev.push(seq![])
        } else {
            prev.update(prev.len() - 1, prev.last().push(toks.last()))
        }
    }
}

proof fn lemma_split_blank_len(toks: Seq<TokView>)
    ensures
        split_blank(toks).len() >= 1,
    decreases toks.len(),
{
    if toks.len() > 0 {
        lemma_split_blank_len(toks.drop_last());
    }
}

proof fn lemma_split_blank_extends(toks: Seq<TokView>, a: int, b: int)
    requires
        0 <= a <= b <= toks.len(),
    ensures
        split_blank(toks.take(b)).len() >= split_blank(toks.take(a)).len(),
        forall|k: int|
            0 <= k < split_blank(toks.take(a)).len() - 1 ==> #[trigger] split_blank(toks.take(b))[k]
                == split_blank(toks.take(a))[k],
    decreases b - a,
{
    if b > a {
        lemma_split_blank_extends(toks, a, b - 1);
        assert(toks.take(b).drop_last() =~= toks.take(b - 1));
        lemma_split_blank_len(toks.take(b - 1));
    }
}

/// An error in the sections before the last failing one is the error of all.
proof fn lemma_sections_prefix_error(secs: Seq<Seq<TokView>>, p: Seq<Seq<TokView>>, strict: bool)
    requires
        p.len() <= secs.len(),
        secs.take(p.len() as int) == p,
        expand_sections(p, strict) is Err,
    ensures
        expand_sections(secs, strict) == expand_sections(p, strict),
    decreases secs.len(),
{
    if secs.len() > p.len() {
        assert(secs.drop_last().take(p.len() as int) =~= p);
        lemma_sections_prefix_error(secs.drop_last(), p, strict);
    } else {
        assert(secs =~= p);
    }
}

/// The words of one section: none for an empty section, else the words of its parse.
pub open spec fn section_words(sec: Seq<TokView>, strict: bool) -> Result<Seq<Seq<char>>, Error> {
    if sec.len() == 0 {
        Ok(seq![])
    } else {
        match spec_parse_section(sec, strict) {
            Ok(ast) => Ok(spec_expand_ast(ast)),
            Err(e) => Err(e),
        }
    }
}

/// The words of the sections, one section after the other, or the error of the first
/// section that fails.
pub open spec fn expand_sections(secs: Seq<Seq<TokView>>, strict: bool) -> Result<Seq<Seq<char>>, Error>
    decreases secs.len(),
{
    if secs.len() == 0 {
        Ok(seq![])
    } else {
        match expand_sections(secs.drop_last(), strict) {
            Err(e) => Err(e),
            Ok(prev) => match section_words(secs.last(), strict) {
                Err(e) => Err(e),
                Ok(w) => Ok(prev + w),
            },
        }
    }
}

/// What expanding `input` gives: its words, section by section, or the first error.
pub open spec fn spec_expand(input: Seq<char>, options: Options) -> Result<Seq<Seq<char>>, Error> {
    match spec_tokenize(input, options) {
        Err(e) => Err(e),
        Ok(toks) => expand_sections(split_blank(toks), options.strict),
    }
}

/// The model of what `expand` returns.
pub open spec fn words_result_view(r: Result<Vec<String>, Error>) -> Result<Seq<Seq<char>>, Error> {
    match r {
        Ok(v) => Ok(strs(v@)),
        Err(e) => Err(e),
    }
}

proof fn lemma_lenient_sections(secs: Seq<Seq<TokView>>)
    ensures
        expand_sections(secs, false) is Ok,
    decreases secs.len(),
{
    if secs.len() > 0 {
        lemma_lenient_sections(secs.drop_last());
        parser::lemma_parse_section(secs.last(), false);
    }
}

/// In lenient mode, expansion fails only on an escape with nothing after it: any
/// malformed brace stands for itself.
pub proof fn lemma_lenient_expansion_never_fails_to_parse(input: Seq<char>, options: Options)
    requires
        !options.strict,
    ensures
        spec_expand(input, options) matches Err(e) ==> e == Error::IncompleteEscape,
{
    tokenizer::lemma_lenient_tokenize(input, options);
    if let Ok(toks) = spec_tokenize(input, options) {
        lemma_lenient_sections(split_blank(toks));
    }
}

proof fn lemma_sections_strict_lenient(secs: Seq<Seq<TokView>>)
    ensures
        expand_sections(secs, true) is Ok ==> expand_sections(secs, false) == expand_sections(secs, true),
    decreases secs.len(),
{
    if secs.len() > 0 {
        lemma_sections_strict_lenient(secs.drop_last());
        parser::lemma_section_strict_lenient(secs.last());
    }
}

/// Ignoring parse failures changes nothing where there are none: when strict
/// expansion succeeds, lenient expansion gives the same words.
pub proof fn lemma_strict_success_is_lenient_result(input: Seq<char>, options: Options)
    requires
        options.strict,
    ensures
        spec_expand(input, options) is Ok ==> spec_expand(input, Options { strict: false, ..options })
            == spec_expand(input, options),
{
    let lenient = Options { strict: false, ..options };
    if let Ok(toks) = spec_tokenize(input, options) {
        assert(spec_tokenize(input, lenient) == Ok::<Seq<TokView>, Error>(toks));
        lemma_sections_strict_lenient(split_blank(toks));
    }
}

proof fn lemma_split_join(a: Seq<TokView>, wt: TokView, b: Seq<TokView>)
    requires
        wt.kind == TokenKind::Whitespace,
    ensures
        split_blank(a.push(wt) + b) == split_blank(a) + split_blank(b),
    decreases b.len(),
{
    let x = a.push(wt) + b;
    if b.len() == 0 {
        assert(x =~= a.push(wt));
        assert(a.push(wt).drop_last() =~= a);
        assert(split_blank(b) =~= seq![Seq::<TokView>::empty()]);
        assert(split_blank(a).push(seq![]) =~= split_blank(a) + seq![Seq::<TokView>::empty()]);
    } else {
        assert(x.drop_last() =~= a.push(wt) + b.drop_last());
        assert(x.last() == b.last());
        lemma_split_join(a, wt, b.drop_last());
        lemma_split_blank_len(b.drop_last());
        lemma_split_blank_len(a);
        let pa = split_blank(a);
        let pb = split_blank(b.drop_last());
        if b.last().kind is Whitespace {
            assert((pa + pb).push(seq![]) =~= pa + pb.push(seq![]));
        } else {
            assert((pa + pb).update((pa + pb).len() - 1, (pa + pb).last().push(b.last())) =~= pa + pb.update(
                pb.len() - 1,
                pb.last().push(b.last()),
            ));
        }
    }
}

proof fn lemma_split_shift(t: Seq<TokView>, d: int, b: int)
    ensures
        split_blank(shift_tokens(t, d, b)) == split_blank(t).map_values(|sec: Seq<TokView>| shift_tokens(sec, d, b)),
    decreases t.len(),
{
    let st = shift_tokens(t, d, b);
    if t.len() == 0 {
        assert(split_blank(t).map_values(|sec: Seq<TokView>| shift_tokens(sec, d, b)) =~= seq![shift_tokens(Seq::<TokView>::empty(), d, b)]);
        assert(shift_tokens(Seq::<TokView>::empty(), d, b) =~= Seq::<TokView>::empty());
    } else {
        assert(st.drop_last() =~= shift_tokens(t.drop_last(), d, b));
        lemma_split_shift(t.drop_last(), d, b);
        lemma_split_blank_len(t.drop_last());
        let p = split_blank(t.drop_last());
        let f = |sec: Seq<TokView>| shift_tokens(sec, d, b);
        if t.last().kind is Whitespace {
            assert(shift_tokens(Seq::<TokView>::empty(), d, b) =~= Seq::<TokView>::empty());
            assert(p.push(seq![]).map_values(f) =~= p.map_values(f).push(seq![]));
        } else {
            assert(shift_tokens(p.last().push(t.last()), d, b) =~= shift_tokens(p.last(), d, b).push(st.last()));
            assert(p.update(p.len() - 1, p.last().push(t.last())).map_values(f) =~= p.map_values(f).update(
                p.len() - 1,
                p.map_values(f).last().push(st.last()),
            ));
        }
    }
}

proof fn lemma_sections_concat(a: Seq<Seq<TokView>>, b: Seq<Seq<TokView>>, strict: bool)
    requires
        expand_sections(a, strict) is Ok,
    ensures
        expand_sections(a + b, strict) == match expand_sections(b, strict) {
            Ok(w2) => Ok::<Seq<Seq<char>>, Error>(expand_sections(a, strict)->Ok_0 + w2),
            Err(e) => Err(e),
        },
    decreases b.len(),
{
    if b.len() == 0 {
        assert(a + b =~= a);
        assert(expand_sections(a, strict)->Ok_0 + Seq::<Seq<char>>::empty() =~= expand_sections(a, strict)->Ok_0);
    } else {
        assert((a + b).drop_last() =~= a + b.drop_last());
        assert((a + b).last() == b.last());
        lemma_sections_concat(a, b.drop_last(), strict);
        if let Ok(w2) = expand_sections(b.drop_last(), strict) {
            if let Ok(w) = section_words(b.last(), strict) {
                let w1 = expand_sections(a, strict)->Ok_0;
                assert(w1 + w2 + w =~= w1 + (w2 + w));
            }
        }
    }
}

proof fn lemma_sections_shift(secs: Seq<Seq<TokView>>, strict: bool, d: int, b: int)
    ensures
        match expand_sections(secs, strict) {
            Ok(w) => expand_sections(secs.map_values(|sec: Seq<TokView>| shift_tokens(sec, d, b)), strict)
                == Ok::<Seq<Seq<char>>, Error>(w),
            Err(_) => expand_sections(secs.map_values(|sec: Seq<TokView>| shift_tokens(sec, d, b)), strict) is Err,
        },
    decreases secs.len(),
{
    let f = |sec: Seq<TokView>| shift_tokens(sec, d, b);
    let m = secs.map_values(f);
    if secs.len() > 0 {
        assert(m.drop_last() =~= secs.drop_last().map_values(f));
        assert(m.last() == shift_tokens(secs.last(), d, b));
        lemma_sections_shift(secs.drop_last(), strict, d, b);
        parser::lemma_section_shift(secs.last(), strict, d, b);
    }
}

/// Words separated by blanks expand one after the other: for blank-free `s1` and `s2`
/// and a non-empty run of blanks `w` between them, where `s1` expands in strict mode,
/// expanding `s1 + w + s2` succeeds exactly when expanding `s2` does, and then gives
/// the words of `s1` followed by those of `s2`.
pub proof fn lemma_blank_separated_words(s1: Seq<char>, w: Seq<char>, s2: Seq<char>, options: Options)
    requires
        no_blank_chars(s1),
        no_blank_chars(s2),
        w.len() > 0,
        forall|k: int| 0 <= k < w.len() ==> is_blank(#[trigger] w[k]),
        options.interpret_backslashes,
        spec_expand(s1, Options { strict: true, ..options }) is Ok,
        s1.len() + w.len() + s2.len() < usize::MAX,
    ensures
        spec_expand(s1 + w + s2, options) is Ok <==> spec_expand(s2, options) is Ok,
        spec_expand(s1 + w + s2, options) is Ok ==> spec_expand(s1 + w + s2, options)->Ok_0
            == spec_expand(s1, options)->Ok_0 + spec_expand(s2, options)->Ok_0,
{
    let strict_opts = Options { strict: true, ..options };
    let c = s1 + w + s2;
    tokenizer::lemma_tokenize_joined(s1, w, s2, options);
    if !options.strict {
        lemma_strict_success_is_lenient_result(s1, strict_opts);
        assert(Options { strict: false, ..strict_opts } == options);
    }
    assert(spec_expand(s1, options) is Ok);
    if spec_tokenize(c, options) is Ok {
        let t1 = spec_tokenize(s1, options)->Ok_0;
        let t2 = spec_tokenize(s2, options)->Ok_0;
        let tc = spec_tokenize(c, options)->Ok_0;
        let d = (t1.len() + 1) as int;
        let bb = tokenizer::byte_offset(c, (s1.len() + w.len()) as int);
        let wt = tc[t1.len() as int];
        assert(tc =~= t1.push(wt) + shift_tokens(t2, d, bb)) by {
            assert forall|k: int| 0 <= k < tc.len() implies tc[k] == (t1.push(wt) + shift_tokens(t2, d, bb))[k] by {
                if k < t1.len() {
                    assert(tc.subrange(0, t1.len() as int)[k] == tc[k]);
                } else if k > t1.len() {
                    assert(tc.subrange(d, tc.len() as int)[k - d] == tc[k]);
                }
            }
        }
        lemma_split_join(t1, wt, shift_tokens(t2, d, bb));
        lemma_split_shift(t2, d, bb);
        lemma_sections_concat(split_blank(t1), split_blank(shift_tokens(t2, d, bb)), options.strict);
        lemma_sections_shift(split_blank(t2), options.strict, d, bb);
    }
}

/// The characters of `input`.
fn collect_chars(input: &str) -> (v: Vec<char>)
    ensures
        v@ == input@,
{
    let mut v: Vec<char> = Vec::new();
    for c in it: input.chars()
        invariant
            v@ == it.seq().take(it.index() as int),
    {
        v.push(c);
    }
    v
}

/// Expands one section and appends its words to `expansions`.
fn expand_section(section: &[Token], options: &Options, expansions: &mut Vec<String>) -> (res: Result<(), Error>)
    requires
        parser::no_blanks(token_views(section@)),
        parser::positions_fit(token_views(section@)),
    ensures
        match section_words(token_views(section@), options.strict) {
            Ok(w) => res is Ok && strs(final(expansions)@) == strs(old(expansions)@) + w,
            Err(e) => res == Err::<(), Error>(e),
        },
{
    if section.len() == 0 {
        assert(strs(expansions@) + Seq::<Seq<char>>::empty() =~= strs(expansions@));
        return Ok(());
    }
    let ast = match parse_section(section, options) {
        Ok(ast) => ast,
        Err(e) => return Err(e),
    };
    proof {
        parser::lemma_parse_section(token_views(section@), options.strict);
    }
    let mut words = expand_ast(ast.as_slice());
    let ghost before = strs(expansions@);
    let ghost added = strs(words@);
    expansions.append(&mut words);
    assert(strs(expansions@) =~= before + added);
    Ok(())
}

/// Brace expander
#[derive(Clone, Copy)]
pub struct BraceExpander {
    options: Options,
}

impl BraceExpander {
    /// Every expander reads backslashes as escapes.
    #[verifier::type_invariant]
    spec fn escapes_on(self) -> bool {
        self.options.interpret_backslashes
    }
}

impl View for BraceExpander {
    type V = Options;

    closed spec fn view(&self) -> Options {
        self.options
    }
}

impl Default for BraceExpander {
    fn default() -> (b: Self)
        ensures
            b@.strict,
            b@.interpret_backslashes,
    {
        BraceExpander { options: Options::new() }
    }
}

impl BraceExpander {
    /// Ignore parse failures instead of erroring out, making the parsing stage infallible. This is
    /// how Bash behaves.
    ///
    /// Default: `false`
    pub fn ignore_parse_failures(self, ignore_parse_failures: bool) -> (b: Self)
        ensures
            b@ == (Options { strict: !ignore_parse_failures, ..self@ }),
    {
        proof {
            use_type_invariant(&self);
        }
        BraceExpander { options: Options { strict: !ignore_parse_failures, ..self.options } }
    }

    /// Expand a string
    pub fn expand(&self, input: &str) -> (res: Result<Vec<String>, Error>)
        ensures
            words_result_view(res) == spec_expand(input@, self@),
            !self@.strict ==> (res matches Err(e) ==> e == Error::IncompleteEscape),
            self@.interpret_backslashes,
    {
        proof {
            use_type_invariant(self);
        }
        // the UTF-8 length of the input bounds every byte offset that tokens record
        let bytes = input.as_bytes();
        let byte_len = bytes.len();
        assert(encode_utf8(input@).len() == byte_len);
        let chars = collect_chars(input);
        let tokens = match tokenize(chars.as_slice(), &self.options) {
            Ok(t) => t,
            Err(e) => {
                proof {
                    if !self.options.strict {
                        lemma_lenient_expansion_never_fails_to_parse(input@, self.options);
                    }
                }
                return Err(e);
            },
        };
        let ghost views = token_views(tokens@);
        let ghost mut done: Seq<Seq<TokView>> = seq![];
        let mut expansions: Vec<String> = Vec::new();
        let mut start: usize = 0;
        let mut i: usize = 0;
        proof {
            assert(views.take(0) =~= Seq::<TokView>::empty());
            assert(views.subrange(0, 0) =~= Seq::<TokView>::empty());
            assert(split_blank(views.take(0)) =~= done.push(views.subrange(0, 0)));
            assert(strs(expansions@) =~= Seq::<Seq<char>>::empty());
        }
        while i < tokens.len()
            invariant
                views == token_views(tokens@),
                chars@ == input@,
                self.options.interpret_backslashes,
                spec_tokenize(chars@, self.options) == Ok::<Seq<TokView>, Error>(views),
                forall|k: int| 0 <= k < tokens@.len() ==> #[trigger] tokens@[k].pos < usize::MAX,
                start <= i <= tokens@.len(),
                split_blank(views.take(i as int)) == done.push(views.subrange(start as int, i as int)),
                forall|k: int| start <= k < i ==> !(#[trigger] views[k].kind is Whitespace),
                expand_sections(done, self.options.strict) == Ok::<Seq<Seq<char>>, Error>(strs(expansions@)),
            decreases tokens@.len() - i,
        {
            proof {
                assert(views.take(i + 1).drop_last() =~= views.take(i as int));
                assert(views[i as int] == tokens@[i as int]@);
            }
            if let TokenKind::Whitespace = tokens[i].kind {
                let section = slice_subrange(tokens.as_slice(), start, i);
                proof {
                    assert(token_views(section@) =~= views.subrange(start as int, i as int));
                }
                let r = expand_section(section, &self.options, &mut expansions);
                if let Err(e) = r {
                    proof {
                        assert(done.push(views.subrange(start as int, i as int)).drop_last() =~= done);
                        assert(expand_sections(done.push(views.subrange(start as int, i as int)), self.options.strict) == Err::<Seq<Seq<char>>, Error>(e));
                        let p = done.push(views.subrange(start as int, i as int));
                        lemma_split_blank_extends(views, i + 1, views.len() as int);
                        assert(views.take(views.len() as int) =~= views);
                        assert(views.take(i + 1).drop_last() =~= views.take(i as int));
                        assert(split_blank(views.take(i + 1)) == p.push(seq![]));
                        assert(split_blank(views).take(p.len() as int) =~= p);
                        lemma_sections_prefix_error(split_blank(views), p, self.options.strict);
                        if !self.options.strict {
                            lemma_lenient_expansion_never_fails_to_parse(input@, self.options);
                        }
                    }
                    return Err(e);
                }
                proof {
                    let prev_done = done;
                    done = done.push(views.subrange(start as int, i as int));
                    assert(done.drop_last() =~= prev_done);
                    assert(views.subrange(i + 1, i + 1) =~= Seq::<TokView>::empty());
                    assert(split_blank(views.take(i + 1)) =~= done.push(views.subrange(i + 1, i + 1)));
                }
                start = i + 1;
            } else {
                proof {
                    lemma_split_blank_len(views.take(i as int));
                    assert(views.subrange(start as int, i + 1) =~= views.subrange(start as int, i as int).push(views[i as int]));
                    assert(split_blank(views.take(i + 1)) =~= done.push(views.subrange(start as int, i + 1)));
                }
            }
            i += 1;
        }
        let section = slice_subrange(tokens.as_slice(), start, tokens.len());
        proof {
            assert(views.take(i as int) =~= views);
            assert(token_views(section@) =~= views.subrange(start as int, i as int));
        }
        let r = expand_section(section, &self.options, &mut expansions);
        proof {
            let last = views.subrange(start as int, i as int);
            assert(done.push(last).drop_last() =~= done);
            assert(split_blank(views) == done.push(last));
            if !self.options.strict {
                lemma_lenient_expansion_never_fails_to_parse(input@, self.options);
            }
        }
        match r {
            Ok(()) => Ok(expansions),
            Err(e) => Err(e),
        }
    }
}

proof fn lemma_split_no_blank(toks: Seq<TokView>)
    requires
        forall|k: int| 0 <= k < toks.len() ==> !(#[trigger] toks[k].kind is Whitespace),
    ensures
        split_blank(toks) == seq![toks],
    decreases toks.len(),
{
    if toks.len() == 0 {
        assert(toks =~= Seq::<TokView>::empty());
    } else {
        let d = toks.drop_last();
        assert(d.push(toks.last()) =~= toks);
        assert forall|k: int| 0 <= k < d.len() implies !(#[trigger] d[k].kind is Whitespace) by {
            assert(d[k] == toks[k]);
        }
        lemma_split_no_blank(d);
        assert(!(toks[toks.len() - 1].kind is Whitespace));
        assert(seq![d].update(0, d.push(toks.last())) =~= seq![toks]);
    }
}

/// Between braces, text with no unescaped brace, comma or whitespace stands for itself,
/// `..` included, with each escaping backslash dropped and the character after it kept:
/// `{x,y}` expands to the two words `x` and `y`, unescaped, in strict and in lenient
/// mode.
#[verifier::spinoff_prover]
pub proof fn lemma_two_alternatives(x: Seq<char>, y: Seq<char>, options: Options)
    requires
        tokenizer::plain_text(x),
        tokenizer::plain_text(y),
        options.interpret_backslashes,
    ensures
        spec_expand(seq!['{'] + x + seq![','] + y + seq!['}'], options) == Ok::<
            Seq<Seq<char>>,
            Error,
        >(seq![tokenizer::unescape(x), tokenizer::unescape(y)]),
{
    let c = seq!['{'] + x + seq![','] + y + seq!['}'];
    let strict = options.strict;
    let m = tokenizer::lemma_two_alternatives_tokens(x, y, options);
    tokenizer::lemma_escapes_stay_in_text(c, options);
    let toks = spec_tokenize(c, options)->Ok_0;
    let len = toks.len() as int;
    assert forall|k: int| 0 <= k < len implies !(#[trigger] toks[k].kind is Whitespace) by {
        if k == 0 || k == m || k == len - 1 {
        } else {
            assert(toks[k].kind is Text || toks[k].kind is Ellipses);
        }
    }
    lemma_split_no_blank(toks);
    let body = toks.subrange(1, len - 1);
    let end = toks[len - 1];
    let r = toks.subrange(1, len);
    assert(r =~= body.push(end) + Seq::<TokView>::empty());
    assert forall|k: int| 0 <= k < body.len() implies (#[trigger] body[k].kind is Text
        || body[k].kind is Ellipses || body[k].kind is Comma) by {
        assert(body[k] == toks[k + 1]);
    }
    assert(body[m - 1].kind is Comma);
    expansion::lemma_comma_alternatives(body, end, Seq::<TokView>::empty(), strict);
    let node = spec_expansion_node(r, strict);
    assert(spec_parse_section(Seq::<TokView>::empty(), strict) == Ok::<Seq<Ast>, Error>(seq![]));
    assert(spec_parse_section(toks, strict) == Ok::<Seq<Ast>, Error>(seq![node])) by {
        assert(toks[0].kind is Start);
        assert(seq![node] + Seq::<Ast>::empty() =~= seq![node]);
    }
    assert(seq![node].subrange(0, 0) =~= Seq::<Ast>::empty());
    assert(spec_expand_ast(Seq::<Ast>::empty()) == seq![Seq::<char>::empty()]);
    assert(seq![node][0] == node);
    expansion::lemma_cartesian_unit_left(expansion::ast_words(node));
    assert(spec_expand_ast(seq![node]) == expansion::ast_words(node));
    // the words of the two alternatives
    let t1 = toks.subrange(1, m);
    let t2 = toks.subrange(m + 1, len - 1);
    assert(body =~= t1.push(toks[m]) + t2);
    assert forall|k: int| 0 <= k < t1.len() implies !(#[trigger] t1[k].kind is Comma) by {
        assert(t1[k] == toks[k + 1]);
    }
    assert forall|k: int| 0 <= k < t2.len() implies !(#[trigger] t2[k].kind is Comma) by {
        assert(t2[k] == toks[k + m + 1]);
    }
    expansion::lemma_two_comma_alternatives(t1, toks[m], t2);
    assert forall|k: int| 0 <= k < t1.len() implies #[trigger] t1[k].span.interpret_backslashes
        && tokenizer::escapes_whole(t1[k].span.raw) by {
        assert(t1[k] == toks[k + 1]);
        assert(toks[k + 1].kind is Text || toks[k + 1].kind is Ellipses);
        assert(tokenizer::escapes_kept(toks[k + 1]));
    }
    assert forall|k: int| 0 <= k < t2.len() implies #[trigger] t2[k].span.interpret_backslashes
        && tokenizer::escapes_whole(t2[k].span.raw) by {
        assert(t2[k] == toks[k + m + 1]);
        assert(toks[k + m + 1].kind is Text || toks[k + m + 1].kind is Ellipses);
        assert(tokenizer::escapes_kept(toks[k + m + 1]));
    }
    expansion::lemma_tokens_chars_unescape(t1);
    expansion::lemma_tokens_chars_unescape(t2);
    let w = expansion::ast_words(node);
    assert(w == expansion::comma_alternatives(body));
    assert(w == seq![tokenizer::unescape(x), tokenizer::unescape(y)]);
    assert(section_words(toks, strict) == Ok::<Seq<Seq<char>>, Error>(w));
    let secs: Seq<Seq<TokView>> = seq![toks];
    assert(secs.drop_last() =~= Seq::<Seq<TokView>>::empty());
    assert(Seq::<Seq<char>>::empty() + w =~= w);
    assert(secs.last() == toks);
    assert(expand_sections(secs.drop_last(), strict) == Ok::<Seq<Seq<char>>, Error>(Seq::empty()));
    assert(expand_sections(secs, strict) == Ok::<Seq<Seq<char>>, Error>(w));
}

/// The node of an expansion that parses.
spec fn spec_expansion_node(toks: Seq<TokView>, strict: bool) -> Ast {
    parser::spec_expansion(toks, strict)->Ok_0.1
}

} // verus!
