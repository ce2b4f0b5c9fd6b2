use brace_expander::tokenizer::EscapeStr;
use brace_expander::Options;

#[test]
fn escape_backslashes() {
    let mut options = Options::new();
    options.interpret_backslashes = true;
    let raw: Vec<char> = "he\\llo".chars().collect();
    assert_eq!(EscapeStr::new(&raw, &options).to_string(), "hello");
    let raw: Vec<char> = "he\\\\llo".chars().collect();
    assert_eq!(EscapeStr::new(&raw, &options).to_string(), "he\\llo");

    options.interpret_backslashes = false;
    let raw: Vec<char> = "he\\llo".chars().collect();
    assert_eq!(EscapeStr::new(&raw, &options).to_string(), "he\\llo");
    let raw: Vec<char> = "he\\\\llo".chars().collect();
    assert_eq!(
        EscapeStr::new(&raw, &options).to_string(),
        "he\\\\llo"
    );
}
