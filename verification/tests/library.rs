use brace_expander::error::Error;
use brace_expander::number::{parse_i16, parse_i32, push_decimal};
use brace_expander::parser::{parse_section, AstToken};
use brace_expander::tokenizer::{tokenize, utf8_width, EscapeStr, TokenKind};
use brace_expander::{
    cartesian_product, char_range, expand_ast, numeric_range, BraceExpander, Options,
};

fn words(be: &BraceExpander, input: &str) -> Vec<String> {
    be.expand(input).unwrap()
}

fn strict() -> BraceExpander {
    BraceExpander::default()
}

fn lenient() -> BraceExpander {
    BraceExpander::default().ignore_parse_failures(true)
}

fn strings(v: &[&str]) -> Vec<String> {
    v.iter().map(|s| s.to_string()).collect()
}

fn parser_error(input: &str) -> (Option<usize>, &'static str) {
    match strict().expand(input) {
        Err(Error::ParserError { column, message }) => (column, message),
        other => panic!("expected a parse error for `{input}`, got {other:?}"),
    }
}

#[test]
fn readme_examples() {
    let be = BraceExpander::default();
    assert_eq!(be.expand("{a,b}").unwrap().join(" "), "a b");
    assert_eq!(be.expand("hello_{a,b}").unwrap().join(" "), "hello_a hello_b");
    assert_eq!(be.expand("G{o,u}{b,g}").unwrap().join(" "), "Gob Gog Gub Gug");
    assert_eq!(
        be.expand("{{a,b}{c,{e,f}},g}").unwrap().join(" "),
        "ac ae af bc be bf g"
    );
    assert_eq!(be.expand("thing{1..3}").unwrap().join(" "), "thing1 thing2 thing3");
    assert_eq!(be.expand("thing{3..1}").unwrap().join(" "), "thing3 thing2 thing1");
    assert_eq!(be.expand("{A..C}").unwrap().join(" "), "A B C");
    assert_eq!(be.expand("{A..E..2}").unwrap().join(" "), "A C E");
    assert_eq!(
        be.expand("Agent{006..008}").unwrap().join(" "),
        "Agent006 Agent007 Agent008"
    );
}

#[test]
fn cartesian_product_is_a_major() {
    let a = strings(&["a", "b"]);
    let b = strings(&["1", "2", "3"]);
    let out = cartesian_product(a.clone(), &b);
    assert_eq!(out.len(), a.len() * b.len());
    for k in 0..out.len() {
        assert_eq!(out[k], format!("{}{}", a[k / b.len()], b[k % b.len()]));
    }
    assert_eq!(cartesian_product(Vec::new(), &b), Vec::<String>::new());
    assert_eq!(cartesian_product(a, &[]), Vec::<String>::new());
}

#[test]
fn word_count_is_product_of_alternatives() {
    assert_eq!(words(&strict(), "{a,b,c}{1..4}x{,}").len(), 3 * 4 * 1 * 2);
}

#[test]
fn range_reversed_when_step_divides() {
    let forward = words(&strict(), "{1..7..2}");
    let mut backward = words(&strict(), "{7..1..2}");
    backward.reverse();
    assert_eq!(forward, backward);
    // with a step that does not divide the distance, the ends differ
    assert_eq!(words(&strict(), "{1..6..2}"), strings(&["1", "3", "5"]));
    assert_eq!(words(&strict(), "{6..1..2}"), strings(&["6", "4", "2"]));
}

#[test]
fn numeric_range_writes_zeros_then_value() {
    assert_eq!(numeric_range(-2, 2, 2, 1), strings(&["0-2", "00", "02"]));
    assert_eq!(numeric_range(5, 5, 7, 0), strings(&["5"]));
    assert_eq!(
        numeric_range(i32::MAX - 1, i32::MAX, 1, 0),
        strings(&["2147483646", "2147483647"])
    );
    assert_eq!(
        numeric_range(i32::MIN, i32::MIN + 1, 3, 0),
        strings(&["-2147483648"])
    );
}

#[test]
fn char_range_writes_backslash_as_space() {
    assert_eq!(char_range(b'Z', b'^', 1), strings(&["Z", "[", " ", "]", "^"]));
    assert_eq!(char_range(b'c', b'a', 1), strings(&["c", "b", "a"]));
}

#[test]
fn expand_ast_of_nodes() {
    let nodes = vec![
        AstToken::Text("x".to_string()),
        AstToken::CommaExpansion(vec![
            vec![AstToken::Text("a".to_string())],
            vec![AstToken::CharExpansion { start: b'p', end: b'q', step: 1 }],
        ]),
        AstToken::NumericExpansion { start: 9, end: 10, step: 1, leading_zeros: 1 },
    ];
    assert_eq!(
        expand_ast(&nodes),
        strings(&["xa09", "xa010", "xp09", "xp010", "xq09", "xq010"])
    );
    assert_eq!(expand_ast(&[]), strings(&[""]));
}

#[test]
fn strict_errors_name_their_column() {
    assert_eq!(parser_error("{a"), (Some(1), "Start bracket is missing end bracket"));
    // columns count bytes: `é` takes two
    assert_eq!(parser_error("é {a"), (Some(4), "Start bracket is missing end bracket"));
    assert_eq!(parser_error("{}"), (None, "Ellipses expansion missing start token"));
    assert_eq!(parser_error("{1..}"), (None, "Ellipses expansion missing end token"));
    assert_eq!(
        parser_error("{1..2..z}"),
        (Some(8), "Ellipses expansion step-by must be an integer")
    );
    assert_eq!(
        parser_error("{1..2..3..4}"),
        (Some(11), "Ellipses expansion has too many tokens")
    );
    assert_eq!(
        parser_error("{1..z}"),
        (Some(5), "Ellipses expansion start/end mismatch")
    );
    assert_eq!(
        parser_error("{ab..c}"),
        (Some(2), "Expansion expected either number of character")
    );
    assert_eq!(parser_error("{..}"), (None, "Failed to parse"));
}

#[test]
fn error_descriptions() {
    let err = strict().expand("{a").unwrap_err();
    assert_eq!(err.to_string(), "Start bracket is missing end bracket on column 1");
    let err = strict().expand("{..}").unwrap_err();
    assert_eq!(err.to_string(), "Failed to parse");
    let err = strict().expand("a\\").unwrap_err();
    assert_eq!(
        err.to_string(),
        "Incomplete input - backslash found at end of input"
    );
}

#[test]
fn trailing_backslash_fails_in_both_modes() {
    assert!(matches!(strict().expand("a\\"), Err(Error::IncompleteEscape)));
    assert!(matches!(lenient().expand("{a\\"), Err(Error::IncompleteEscape)));
    assert_eq!(words(&lenient(), "a\\\\"), strings(&["a\\"]));
}

#[test]
fn lenient_mode_never_fails_to_parse() {
    for input in ["{", "}", "{,", "{..", "{1..z..}", "{{}}", "{a}{b", "..{,}..", "{1..2..3..4}"] {
        assert!(lenient().expand(input).is_ok(), "{input}");
    }
    assert_eq!(words(&lenient(), "{1..2..3..4}"), strings(&["{1..2..3..4}"]));
}

#[test]
fn strict_success_agrees_with_lenient() {
    for input in ["{a,b}{1..3}", "x{a..e..2}y", "{{a,b},c} d", "\\{a", "{1..2}}"] {
        assert_eq!(words(&strict(), input), words(&lenient(), input), "{input}");
    }
}

#[test]
fn escapes_without_interpretation() {
    let mut options = Options::new();
    options.interpret_backslashes = false;
    options.strict = false;
    let raw: Vec<char> = "a\\{b".chars().collect();
    let tokens = tokenize(&raw, &options).unwrap();
    let kinds: Vec<TokenKind> = tokens.iter().map(|t| t.kind).collect();
    assert_eq!(kinds, vec![TokenKind::Text, TokenKind::Start { end: None }, TokenKind::Text]);
}

#[test]
fn tokens_cover_input_and_match_braces() {
    let input: Vec<char> = "x {a,b..c}\t}".chars().collect();
    let tokens = tokenize(&input, &Options::new()).unwrap();
    let kinds: Vec<TokenKind> = tokens.iter().map(|t| t.kind).collect();
    assert_eq!(
        kinds,
        vec![
            TokenKind::Text,
            TokenKind::Whitespace,
            TokenKind::Start { end: Some(8) },
            TokenKind::Text,
            TokenKind::Comma,
            TokenKind::Text,
            TokenKind::Ellipses,
            TokenKind::Text,
            TokenKind::End,
            TokenKind::Whitespace,
            TokenKind::End,
        ]
    );
    let joined: Vec<char> = tokens.iter().flat_map(|t| t.span.raw().iter().copied()).collect();
    assert_eq!(joined, input);
    let positions: Vec<usize> = tokens.iter().map(|t| t.pos).collect();
    assert_eq!(positions, vec![0, 1, 2, 3, 4, 5, 6, 8, 9, 10, 11]);
}

#[test]
fn unclosed_brace_in_lenient_tokens() {
    let mut options = Options::new();
    options.strict = false;
    let input: Vec<char> = "{a".chars().collect();
    let tokens = tokenize(&input, &options).unwrap();
    assert_eq!(tokens[0].kind, TokenKind::Start { end: None });
}

#[test]
fn section_parse() {
    let input: Vec<char> = "a{b,c}".chars().collect();
    let tokens = tokenize(&input, &Options::new()).unwrap();
    let ast = parse_section(&tokens, &Options::new()).unwrap();
    assert_eq!(ast.len(), 2);
    assert!(matches!(&ast[0], AstToken::Text(t) if t == "a"));
    match &ast[1] {
        AstToken::CommaExpansion(groups) => assert_eq!(groups.len(), 2),
        other => panic!("unexpected {other:?}"),
    }
}

#[test]
fn integers_read_as_rust_does() {
    let chars = |s: &str| s.chars().collect::<Vec<char>>();
    assert_eq!(parse_i32(&chars("+7")), Some(7));
    assert_eq!(parse_i32(&chars("-0")), Some(0));
    assert_eq!(parse_i32(&chars("007")), Some(7));
    assert_eq!(parse_i32(&chars("-2147483648")), Some(i32::MIN));
    assert_eq!(parse_i32(&chars("2147483648")), None);
    assert_eq!(parse_i32(&chars("99999999999999999999")), None);
    assert_eq!(parse_i32(&chars("")), None);
    assert_eq!(parse_i32(&chars("-")), None);
    assert_eq!(parse_i32(&chars("1a")), None);
    assert_eq!(parse_i32(&chars(" 1")), None);
    assert_eq!(parse_i16(&chars("-32768")), Some(i16::MIN));
    assert_eq!(parse_i16(&chars("32768")), None);
    for s in ["12", "-5", "+0", "40000", "x", "--1"] {
        assert_eq!(parse_i32(&chars(s)), s.parse::<i32>().ok(), "{s}");
        assert_eq!(parse_i16(&chars(s)), s.parse::<i16>().ok(), "{s}");
    }
}

#[test]
fn decimals_written_as_display_does() {
    for v in [0i64, 7, -5, 1234567890, i64::MIN, i64::MAX] {
        let mut s = String::from("v=");
        push_decimal(&mut s, v);
        assert_eq!(s, format!("v={v}"));
    }
}

#[test]
fn escape_str_length_and_trailing_backslash() {
    let options = Options::new();
    let raw: Vec<char> = "a\\bc\\".chars().collect();
    let e = EscapeStr::new(&raw, &options);
    assert_eq!(e.to_string(), "abc");
    assert_eq!(e.len(), 3);
    assert_eq!(e.raw(), &raw[..]);
}

#[test]
fn utf8_widths() {
    for c in ['a', 'é', '€', '😀'] {
        assert_eq!(utf8_width(c), c.len_utf8());
    }
}

#[test]
fn options_and_defaults() {
    let o = Options::default();
    assert!(o.strict && o.interpret_backslashes);
    let be = BraceExpander::default();
    assert!(be.expand("{a").is_err());
    let be = be.ignore_parse_failures(true);
    assert_eq!(words(&be, "{a"), strings(&["{a"]));
    let be = be.ignore_parse_failures(false);
    assert!(be.expand("{a").is_err());
}

#[test]
fn blank_separated_words_concatenate() {
    let be = strict();
    assert_eq!(words(&be, "a b"), strings(&["a", "b"]));
    assert_eq!(words(&be, "a  "), strings(&["a"]));
    let mut joined = words(&be, "{1..2}");
    joined.extend(words(&be, "{a,b}c"));
    assert_eq!(words(&be, "{1..2} \t{a,b}c"), joined);
    assert_eq!(joined, strings(&["1", "2", "ac", "bc"]));
    let lax = lenient();
    let mut joined = words(&lax, "x{y,z}");
    joined.extend(words(&lax, "{p"));
    assert_eq!(words(&lax, "x{y,z}\n{p"), joined);
    assert_eq!(joined, strings(&["xy", "xz", "{p"]));
}

#[test]
fn start_records_first_balancing_end() {
    let input: Vec<char> = "{a{b}c}{d}".chars().collect();
    let tokens = tokenize(&input, &Options::new()).unwrap();
    let ends: Vec<Option<usize>> = tokens
        .iter()
        .map(|t| match t.kind {
            TokenKind::Start { end } => end,
            _ => None,
        })
        .collect();
    assert_eq!(ends, vec![Some(6), None, Some(4), None, None, None, None, Some(9), None, None]);
    for (k, t) in tokens.iter().enumerate() {
        if let TokenKind::Start { end: Some(e) } = t.kind {
            let mut depth = 0i32;
            for (m, u) in tokens.iter().enumerate().skip(k).take(e + 1 - k) {
                depth += match u.kind {
                    TokenKind::Start { .. } => 1,
                    TokenKind::End => -1,
                    _ => 0,
                };
                assert_eq!(depth == 0, m == e);
            }
        }
    }
}

#[test]
fn runs_kept_whole_with_byte_offsets() {
    let input: Vec<char> = "é\\ b \t c{x}".chars().collect();
    let tokens = tokenize(&input, &Options::new()).unwrap();
    let kinds: Vec<TokenKind> = tokens.iter().map(|t| t.kind).collect();
    assert_eq!(
        kinds,
        vec![
            TokenKind::Text,
            TokenKind::Whitespace,
            TokenKind::Text,
            TokenKind::Start { end: Some(5) },
            TokenKind::Text,
            TokenKind::End,
        ]
    );
    let raws: Vec<String> = tokens.iter().map(|t| t.span.raw().iter().collect()).collect();
    assert_eq!(raws, strings(&["é\\ b", " \t ", "c", "{", "x", "}"]));
    let positions: Vec<usize> = tokens.iter().map(|t| t.pos).collect();
    assert_eq!(positions, vec![0, 5, 8, 9, 10, 11]);
}
