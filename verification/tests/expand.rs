use brace_expander::{BraceExpander, Error};
use rand::seq::IndexedRandom;
use rand::Rng;

fn test_tv(bc: &BraceExpander, input: &str, expected: &[&'static str]) {
    let actual = bc.expand(input).unwrap();
    let expected = expected
        .iter()
        .map(|s| String::from(*s))
        .collect::<Vec<String>>();
    assert_eq!(actual, expected);
}

#[test]
fn expand() {
    let be = BraceExpander::default().ignore_parse_failures(false);
    test_tv(&be, "a", &["a"]);
    test_tv(&be, "a,4", &["a,4"]);
    test_tv(&be, "a..4", &["a..4"]);
    test_tv(&be, "{1..4}", &["1", "2", "3", "4"]);
    test_tv(&be, "a{1..4}", &["a1", "a2", "a3", "a4"]);
    test_tv(&be, "a{1..4}b", &["a1b", "a2b", "a3b", "a4b"]);
    test_tv(&be, "{1..2}{1..2}", &["11", "12", "21", "22"]);
    test_tv(&be, "a{1..2}{1..2}b", &["a11b", "a12b", "a21b", "a22b"]);
    test_tv(&be, "{a,b}{c,d}", &["ac", "ad", "bc", "bd"]);
    test_tv(&be, "{_{a,b}_,c}", &["_a_", "_b_", "c"]);
    test_tv(&be, "{_{1..3}_,c}", &["_1_", "_2_", "_3_", "c"]);
    test_tv(&be, "{1..1}", &["1"]);
    test_tv(&be, "{3..1}", &["3", "2", "1"]);
    test_tv(&be, "{3..1}", &["3", "2", "1"]);
    test_tv(&be, "a{,,}", &["a", "a", "a"]);
    test_tv(&be, "{1..2}{,}", &["1", "1", "2", "2"]);
    test_tv(&be, "{,}{1..2}", &["1", "2", "1", "2"]);
    test_tv(&be, "{a,}{1..2}", &["a1", "a2", "1", "2"]);
    test_tv(&be, "a b", &["a", "b"]);
    test_tv(&be, "{1..2} {a,b}c", &["1", "2", "ac", "bc"]);
    test_tv(&be, "", &[]);
    test_tv(&be, "  ", &[]);
    test_tv(&be, "a  ", &["a"]);
    test_tv(&be, "} {1..2}", &["}", "1", "2"]);
    test_tv(&be, "{1..2}}", &["1}", "2}"]);
    test_tv(&be, "{1..2}..", &["1..", "2.."]);
    test_tv(&be, "{1..3..1}", &["1", "2", "3"]);
    test_tv(&be, "{1..3..0}", &["1", "2", "3"]);
    test_tv(&be, "{1..3..-1}", &["1", "2", "3"]);
    test_tv(&be, "{1..3..2}", &["1", "3"]);
    test_tv(&be, "{1..3..3}", &["1"]);
    test_tv(&be, "{3..1..3}", &["3"]);
    test_tv(&be, "{1..03..2}", &["01", "03"]);
    test_tv(&be, "{01..03..2}", &["01", "03"]);
    test_tv(&be, "{01..00003..2}", &["00001", "00003"]);
    test_tv(&be, "{1..3..002}", &["1", "3"]);
    test_tv(&be, "{a..c}", &["a", "b", "c"]);
    test_tv(&be, "{a..c..2}", &["a", "c"]);
    test_tv(&be, "{c..a..2}", &["c", "a"]);
    test_tv(&be, "{a..Z..2}", &["a", "_", "]", "["]);
    test_tv(&be, "{Z..a..2}", &["Z", " ", "^", "`"]);
    test_tv(&be, "{Z..a..2}", &["Z", " ", "^", "`"]);
    test_tv(&be, "{0..-2}", &["0", "-1", "-2"]);
    test_tv(&be, "{-1..-2}", &["-1", "-2"]);
    test_tv(&be, "{-1..1}", &["-1", "0", "1"]);
    test_tv(&be, "{1..-1}", &["1", "0", "-1"]);
    test_tv(&be, "{-1..+1}", &["-1", "0", "1"]);
    test_tv(
        &be,
        "{a,b}{c,d}{e,f}",
        &["ace", "acf", "ade", "adf", "bce", "bcf", "bde", "bdf"],
    );
    test_tv(&be, "\\{a,b}", &["{a,b}"]);
    test_tv(&be, "\\\\", &["\\"]);
}

#[test]
fn parse_failures() {
    let tvs: &[(&str, &[&str])] = &[
        ("{a..", &["{a.."]),
        ("{", &["{"]),
        ("{a}", &["{a}"]),
        ("{a}{b,c}", &["{a}b", "{a}c"]),
        ("{1..2..z}", &["{1..2..z}"]),
        ("{1..z}", &["{1..z}"]),
        ("{1..z}{,}", &["{1..z}", "{1..z}"]),
        ("{1..}", &["{1..}"]),
        ("{..}", &["{..}"]),
        ("{{{", &["{{{"]),
        ("{,{,{", &["{,{,{"]),
    ];

    // When strict mode is false, we ignore parse failures like bash
    let be = BraceExpander::default().ignore_parse_failures(true);
    for tv in tvs {
        test_tv(&be, tv.0, tv.1);
    }

    // When strict mode is on, we error out
    let be = BraceExpander::default().ignore_parse_failures(false);
    for tv in tvs {
        assert!(be.expand(tv.0).is_err());
    }
}

fn build_fuzzy_string(rng: &mut rand::rngs::ThreadRng) -> String {
    let length = rng.random_range(0..20);
    let mut string = String::new();
    for _ in 0..length {
        let chars = [
            '\\',
            '{',
            '}',
            '.',
            ',',
            '\'',
            '"',
            ' ',
            '\t',
            '\r',
            '\n',
            rng.random(),
        ];
        string.push(*chars.choose(rng).unwrap());
    }
    string
}

#[test]
fn fuzz() {
    let mut rng = rand::rng();

    let strict_be = BraceExpander::default().ignore_parse_failures(false);
    let loose_be = BraceExpander::default().ignore_parse_failures(true);
    for _ in 0..1000 {
        let string = build_fuzzy_string(&mut rng);

        // BraceExpander in loose mood shouldn't error at all, even on garbage
        if let Err(err @ Error::ParserError { .. }) = loose_be.expand(&string) {
            panic!("Unexpected error on `{string}`: {}", err.to_string());
        }

        // Just make sure we don't panic on strict
        let _ = strict_be.expand(&string);
    }
}
