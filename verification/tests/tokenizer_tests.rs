use eaf::DelimKind::{Angle, Round, Square};
use eaf::TokenKind::{Close, Open};
use eaf::tokenize;

#[test]
fn tokenize_square_brackets() {
    let seg = tokenize("foo [bar] baz".as_bytes());
    assert_eq!(seg.tokens[1].kind, Open(Square));
    assert_eq!(seg.tokens[3].kind, Close(Square));
}

#[test]
fn tokenize_round_brackets() {
    let seg = tokenize("foo (bar) baz".as_bytes());
    assert_eq!(seg.tokens[1].kind, Open(Round));
    assert_eq!(seg.tokens[3].kind, Close(Round));
}

#[test]
fn tokenize_angle_brackets() {
    let seg = tokenize("foo <bar> baz".as_bytes());
    assert_eq!(seg.tokens[1].kind, Open(Angle));
    assert_eq!(seg.tokens[3].kind, Close(Angle));
}

fn compare_tokens(source: &str, tokens: &[&str]) {
    let segment = tokenize(source.as_bytes());
    assert_eq!(
        segment.tokens.len(),
        tokens.len(),
        "Number of tokens differs."
    );
    for (tokenized, reference) in segment.tokens.iter().zip(tokens.iter()) {
        let tokenized = segment.as_str(tokenized);
        println!("tokenized = {:?} :: reference = {:?}", tokenized, reference);
        assert_eq!(tokenized, reference.as_bytes(), "Token values as str differ.");
    }
}

#[test]
fn compare_nice() {
    compare_tokens(
        "čáp [dřepí @ <SM v] .. (louži>)",
        &[
            "čáp", "[", "dřepí", "@", "<", "SM", "v", "]", "..", "(", "louži", ">", ")",
        ],
    );
}

#[test]
fn compare_not_nice() {
    compare_tokens(
        "foo][ bar(baz)..",
        &["foo", "]", "[", "bar", "(", "baz", ")", ".."],
    );
}

#[test]
fn normalize_collapses_whitespace() {
    let seg = tokenize("  foo \t\n bar  ".as_bytes());
    assert_eq!(seg.source, b"foo bar".to_vec());
    assert_eq!(seg.tokens.len(), 2);
    assert_eq!(seg.tokens[0].start, 0);
    assert_eq!(seg.tokens[0].end, 3);
    assert_eq!(seg.tokens[1].start, 4);
    assert_eq!(seg.tokens[1].end, 7);
}

#[test]
fn normalize_handles_multibyte_whitespace() {
    // No-break space, ideographic space and line separator collapse to
    // single ASCII spaces like any other whitespace.
    let seg = tokenize("a\u{00A0}b\u{3000} \u{2028}c".as_bytes());
    assert_eq!(seg.source, b"a b c".to_vec());
    assert_eq!(seg.tokens.len(), 3);
    let seg = tokenize("\u{2009}x\u{0085}".as_bytes());
    assert_eq!(seg.source, b"x".to_vec());
    assert_eq!(seg.tokens.len(), 1);
}

#[test]
fn tokenize_is_idempotent_on_normalized_output() {
    let first = tokenize(" a  b\t(c) ".as_bytes());
    let again = tokenize(&first.source);
    assert_eq!(again.source, first.source);
    assert_eq!(again.tokens, first.tokens);
}

#[test]
fn tokens_round_trip_with_single_spaces() {
    let seg = tokenize("čáp dřepí v louži".as_bytes());
    let mut rebuilt: Vec<u8> = Vec::new();
    for (i, tok) in seg.tokens.iter().enumerate() {
        if i > 0 {
            rebuilt.push(b' ');
        }
        rebuilt.extend_from_slice(seg.as_str(tok));
    }
    assert_eq!(rebuilt, seg.source);
}

#[test]
fn highlight_counts_graphemes_not_bytes() {
    let seg = tokenize("čá x".as_bytes());
    let token = seg.tokens[1];
    assert_eq!(token.start, 5);
    assert_eq!(token.end, 6);
    let highlighted = seg.highlight(&token);
    assert_eq!(highlighted, "čá x\n   ^".as_bytes().to_vec());
}

#[test]
fn highlight_marks_multibyte_token() {
    let seg = tokenize("ab čá".as_bytes());
    let token = seg.tokens[1];
    let highlighted = seg.highlight(&token);
    assert_eq!(highlighted, "ab čá\n   ^^".as_bytes().to_vec());
}
