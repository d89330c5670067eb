use eaf::DelimKind::{Angle, Round};
use eaf::TokenKind::NonDelim;
use eaf::{tokenize, Mistake, Node, Parser, ParserConfig, Token};

fn letter_atoms() -> Vec<Vec<u8>> {
    let mut atoms: Vec<Vec<u8>> = Vec::new();
    for c in b'a'..=b'z' {
        atoms.push(vec![c]);
    }
    for c in b'A'..=b'Z' {
        atoms.push(vec![c]);
    }
    atoms.push("č".as_bytes().to_vec());
    atoms.push("á".as_bytes().to_vec());
    atoms
}

fn letters_config() -> ParserConfig {
    ParserConfig::from_args(vec![], vec![], letter_atoms(), vec![])
}

#[test]
fn scenario_bad_percent_keeps_neighbors() {
    let seg = Parser::parse(&letters_config(), tokenize("čarala b%nga máro".as_bytes()));
    assert_eq!(seg.mistakes.len(), 1);
    assert_eq!(
        seg.mistakes[0],
        Mistake::BadSubstr {
            start: 1,
            end: 2,
            at: 1
        }
    );
    // All three words stay in the structural output: a gap inside a word
    // never drops its node.
    assert_eq!(seg.nodes.len(), 3);
    assert_eq!(
        seg.nodes[0],
        Node::Token(Token {
            kind: NonDelim,
            start: 0,
            end: 7
        })
    );
    assert_eq!(
        seg.nodes[2],
        Node::Token(Token {
            kind: NonDelim,
            start: 14,
            end: 19
        })
    );
}

#[test]
fn scenario_count_marker_inside_round() {
    let seg = Parser::parse(&letters_config(), tokenize(b"(12)"));
    assert!(!seg.has_mistakes());
    assert_eq!(
        seg.nodes,
        vec![
            Node::Open(Round),
            Node::Token(Token {
                kind: NonDelim,
                start: 1,
                end: 3
            }),
            Node::Close(Round),
        ]
    );
}

#[test]
fn scenario_count_marker_outside_round() {
    let seg = Parser::parse(&letters_config(), tokenize(b"12"));
    assert_eq!(seg.mistakes.len(), 1);
    assert_eq!(seg.mistakes[0], Mistake::BadToken { at: 0 });
    assert_eq!(seg.nodes.len(), 0);
}

#[test]
fn scenario_attr_list_sorted_and_deduplicated() {
    let config = ParserConfig::from_args(
        vec![],
        vec![],
        letter_atoms(),
        vec![b"SM".to_vec(), b"SJ".to_vec()],
    );
    let seg = Parser::parse(&config, tokenize("<SM_SJ foo>".as_bytes()));
    assert_eq!(
        seg.nodes[1],
        Node::AttrList(vec![b"SJ".to_vec(), b"SM".to_vec()])
    );

    let seg = Parser::parse(&config, tokenize("<SM_SJ_SM foo>".as_bytes()));
    assert_eq!(
        seg.nodes[1],
        Node::AttrList(vec![b"SJ".to_vec(), b"SM".to_vec()])
    );
}

#[test]
fn scenario_bad_attr_rejects_whole_list() {
    let config = ParserConfig::from_args(vec![], vec![], letter_atoms(), vec![b"SM".to_vec()]);
    let seg = Parser::parse(&config, tokenize("<XX_SM ab>".as_bytes()));
    assert_eq!(seg.mistakes.len(), 1);
    assert_eq!(
        seg.mistakes[0],
        Mistake::BadAttr {
            attr: b"XX".to_vec(),
            at: 1
        }
    );
    // No AttrList node at all: acceptance of the list is all-or-nothing.
    assert_eq!(
        seg.nodes,
        vec![
            Node::Open(Angle),
            Node::Token(Token {
                kind: NonDelim,
                start: 7,
                end: 9
            }),
            Node::Close(Angle),
        ]
    );
}

#[test]
fn scenario_no_atoms_marks_whole_token() {
    let config = ParserConfig::from_args(vec![], vec![], vec![], vec![]);
    let seg = Parser::parse(&config, tokenize(b"ab"));
    assert_eq!(seg.mistakes.len(), 1);
    assert_eq!(
        seg.mistakes[0],
        Mistake::BadSubstr {
            start: 0,
            end: 2,
            at: 0
        }
    );
    // The token still stands in the structural output.
    assert_eq!(seg.nodes.len(), 1);
}

#[test]
fn scenario_whitelist_beats_atoms() {
    let config = ParserConfig::from_args(
        vec![b"..".to_vec()],
        vec![],
        vec![],
        vec![],
    );
    let seg = Parser::parse(&config, tokenize(b".."));
    assert!(!seg.has_mistakes());
    assert_eq!(seg.nodes.len(), 1);
}

#[test]
fn scenario_digit_anywhere_makes_count_marker() {
    // A digit anywhere in a token classifies it as a count marker, before
    // any other check; inside round brackets it passes verbatim, outside
    // them it is dropped with a BadToken.
    let seg = Parser::parse(&letters_config(), tokenize(b"(a%1)"));
    assert!(!seg.has_mistakes());
    assert_eq!(seg.nodes.len(), 3);

    let seg = Parser::parse(&letters_config(), tokenize(b"ab1"));
    assert_eq!(seg.mistakes.len(), 1);
    assert_eq!(seg.mistakes[0], Mistake::BadToken { at: 0 });
}

#[test]
fn scenario_empty_segment() {
    let seg = Parser::parse(&letters_config(), tokenize(b"   "));
    assert_eq!(seg.source.len(), 0);
    assert_eq!(seg.tokens.len(), 0);
    assert_eq!(seg.nodes.len(), 0);
    assert!(!seg.has_mistakes());
}

#[test]
fn scenario_rerun_is_stable() {
    let config = letters_config();
    let first = Parser::parse(&config, tokenize(b")(a <b> [12]"));
    let second = Parser::parse(&config, tokenize(b")(a <b> [12]"));
    assert_eq!(first.source, second.source);
    assert_eq!(first.tokens, second.tokens);
    assert_eq!(first.nodes, second.nodes);
    assert_eq!(first.mistakes, second.mistakes);
}

#[test]
fn scenario_balance_in_clean_result() {
    let config = letters_config();
    let seg = Parser::parse(&config, tokenize(b"(a) [b] <c>"));
    // "c" is no allowed code, so the result has mistakes; delimiters still
    // balance node-wise in this clean structure.
    let opens = seg
        .nodes
        .iter()
        .filter(|n| matches!(n, Node::Open(_)))
        .count();
    let closes = seg
        .nodes
        .iter()
        .filter(|n| matches!(n, Node::Close(_)))
        .count();
    assert_eq!(opens, closes);
}

#[test]
fn scenario_missing_attrs_does_not_consume_word() {
    let config = ParserConfig::from_args(vec![], vec![], letter_atoms(), vec![b"SM".to_vec()]);
    // The angle-open is followed by another delimiter, so the attribute
    // list is missing; the word after it is an ordinary token.
    let seg = Parser::parse(&config, tokenize("<(ab)>".as_bytes()));
    assert_eq!(seg.mistakes.len(), 1);
    assert_eq!(seg.mistakes[0], Mistake::MissingAttrs { at: 1 });
    assert_eq!(
        seg.nodes,
        vec![
            Node::Open(Angle),
            Node::Open(Round),
            Node::Token(Token {
                kind: NonDelim,
                start: 2,
                end: 4
            }),
            Node::Close(Round),
            Node::Close(Angle),
        ]
    );
}
