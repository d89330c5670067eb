use eaf::DelimKind::{Angle, Round, Square};
use eaf::TokenKind::NonDelim;
use eaf::{tokenize, Mistake, Node, Parser, ParserConfig, Token};

fn atoms() -> Vec<Vec<u8>> {
    let mut atoms: Vec<Vec<u8>> = Vec::new();
    for c in b'A'..=b'Z' {
        atoms.push(vec![c]);
    }
    for c in b'a'..=b'z' {
        atoms.push(vec![c]);
    }
    atoms.push("č".as_bytes().to_vec());
    atoms.push("á".as_bytes().to_vec());
    atoms.push("d͡ʒ".as_bytes().to_vec());
    atoms
}

fn config() -> ParserConfig {
    ParserConfig::from_args(
        vec![
            b".".to_vec(),
            b"..".to_vec(),
            b"@".to_vec(),
            b"#li".to_vec(),
            b"&".to_vec(),
        ],
        vec![b"hm".to_vec()],
        atoms(),
        vec![b"SM".to_vec()],
    )
}

#[test]
fn test_config() {
    // Only tests after_angle, but the other lists are built and matched
    // the same way.
    let pc = ParserConfig::from_args(
        vec![],
        vec![],
        vec![],
        vec![b"SM".to_vec(), b"SJ".to_vec()],
    );
    assert!(pc.in_after_angle(b"SM"));
    assert!(pc.in_after_angle(b"SJ"));
    assert!(
        !pc.in_after_angle(b"SM_SJ"),
        "the matcher is meant to match one code at a time"
    );
    assert!(
        !pc.in_after_angle(b"SMSJ"),
        "the matcher is meant to match one code at a time"
    );
    assert!(!pc.in_after_angle(b"MJ"));
    assert!(!pc.in_after_angle(b""));
    assert!(!pc.in_after_angle(b"_"));
    assert!(!pc.in_after_angle(b"_SM"));

    let pc = ParserConfig::from_args(vec![], vec![], vec![], vec![b"SM".to_vec()]);
    assert!(pc.in_after_angle(b"SM"));
    assert!(!pc.in_after_angle(b""));
    assert!(!pc.in_after_angle(b"_"));
    assert!(!pc.in_after_angle(b"_SM"));
    assert!(!pc.in_after_angle(b"SJ"));
    assert!(!pc.in_after_angle(b"SM_SJ"));

    let pc = ParserConfig::from_args(vec![], vec![], vec![], vec![]);
    assert!(!pc.in_after_angle(b"SM"));
    assert!(
        !pc.in_after_angle(b""),
        "the empty string should never be valid"
    );
    assert!(!pc.in_after_angle(b"_"));

    let pc = ParserConfig::from_args(vec![], vec![], vec![], vec![b"".to_vec()]);
    assert!(!pc.in_after_angle(b"SM"));
    assert!(
        !pc.in_after_angle(b""),
        "the empty string should never be valid"
    );
    assert!(!pc.in_after_angle(b"_"));
}

#[test]
fn test_whitelist() {
    assert!(!atoms().iter().any(|s| s == b"."));
    let seg = Parser::parse(&config(), tokenize(b".."));
    assert!(!seg.has_mistakes());
    assert_eq!(
        seg.nodes[0],
        Node::Token(Token {
            kind: NonDelim,
            start: 0,
            end: 2
        })
    );
}

#[test]
fn test_blacklist() {
    assert!(atoms().iter().any(|s| s == b"h"));
    assert!(atoms().iter().any(|s| s == b"m"));
    assert!(&config().in_blacklist(b"hm"));
    let seg = Parser::parse(&config(), tokenize(b"hm"));
    assert!(seg.has_mistakes());
    assert_eq!(seg.mistakes[0], Mistake::BadToken { at: 0 });
}

#[test]
fn test_disallowed_atoms() {
    assert!(!atoms().iter().any(|s| s == "ž".as_bytes()));
    let seg = Parser::parse(&config(), tokenize("ž".as_bytes()));
    assert!(seg.has_mistakes());
    assert_eq!(
        seg.mistakes[0],
        Mistake::BadSubstr {
            start: 0,
            end: 2,
            at: 0
        }
    );
}

#[test]
fn test_multi_codepoint_atoms() {
    let seg = Parser::parse(&config(), tokenize("d͡ʒi d͡zi ʒi".as_bytes()));
    assert!(seg.has_mistakes());
    assert_eq!(seg.mistakes.len(), 2);
    assert_eq!(
        seg.mistakes[0],
        Mistake::BadSubstr {
            start: 1,
            end: 3,
            at: 1,
        }
    );
    assert_eq!(
        seg.mistakes[1],
        Mistake::BadSubstr {
            start: 0,
            end: 2,
            at: 2,
        }
    );
}

#[test]
fn test_all_fine() {
    let seg = Parser::parse(&config(), tokenize("čarala bonga máro".as_bytes()));
    assert!(!seg.has_mistakes());

    for (t, n) in seg.tokens.iter().zip(seg.nodes.iter()) {
        let nt = Node::Token(*t);
        assert_eq!(nt, *n);
    }
}

#[test]
fn test_all_fine_and_complicated() {
    let seg = Parser::parse(&config(), tokenize("[čarala <SM bonga] (máro>)".as_bytes()));
    assert!(!seg.has_mistakes());

    let nodes = vec![
        Node::Open(Square),
        Node::Token(Token {
            kind: NonDelim,
            start: 1,
            end: 8,
        }),
        Node::Open(Angle),
        Node::AttrList(vec![b"SM".to_vec()]),
        Node::Token(Token {
            kind: NonDelim,
            start: 13,
            end: 18,
        }),
        Node::Close(Square),
        Node::Open(Round),
        Node::Token(Token {
            kind: NonDelim,
            start: 21,
            end: 26,
        }),
        Node::Close(Angle),
        Node::Close(Round),
    ];

    for (n1, n2) in seg.nodes.iter().zip(nodes.iter()) {
        assert_eq!(n1, n2);
    }
}

#[test]
fn test_bad_char_in_word() {
    let seg = Parser::parse(&config(), tokenize("čarala b%nga máro".as_bytes()));
    assert!(seg.has_mistakes());
    assert_eq!(seg.mistakes.len(), 1);
    assert_eq!(
        seg.mistakes[0],
        Mistake::BadSubstr {
            start: 1,
            end: 2,
            at: 1
        }
    );
}

#[test]
fn test_round() {
    let seg = Parser::parse(&config(), tokenize(b")(("));
    assert_eq!(seg.mistakes.len(), 3);
    assert_eq!(
        seg.mistakes[0],
        Mistake::ClosingUnopenedDelim { kind: Round, at: 0 }
    );
    assert_eq!(
        seg.mistakes[1],
        Mistake::NestedDelim {
            kind: Round,
            outermost_start: 1,
            at: 2
        }
    );
    assert_eq!(
        seg.mistakes[2],
        Mistake::UnclosedDelim { kind: Round, at: 1 }
    );
}

#[test]
fn test_square() {
    let seg = Parser::parse(&config(), tokenize(b"][["));
    assert_eq!(seg.mistakes.len(), 3);
    assert_eq!(
        seg.mistakes[0],
        Mistake::ClosingUnopenedDelim { kind: Square, at: 0 }
    );
    assert_eq!(
        seg.mistakes[1],
        Mistake::NestedDelim {
            kind: Square,
            outermost_start: 1,
            at: 2
        }
    );
    assert_eq!(
        seg.mistakes[2],
        Mistake::UnclosedDelim { kind: Square, at: 1 }
    );
}

#[test]
fn test_angle() {
    let seg = Parser::parse(&config(), tokenize(b"><<"));
    assert_eq!(seg.mistakes.len(), 5, "Segment should have 5 mistakes.");

    let m = &seg.mistakes[0];
    if let Mistake::ClosingUnopenedDelim { kind, at } = m {
        assert_eq!(*kind, Angle);
        assert_eq!(*at, 0);
    } else {
        panic!("unexpected mistake: {:?}", m);
    }

    let m = &seg.mistakes[1];
    if let Mistake::MissingAttrs { at } = m {
        assert_eq!(*at, 2);
    } else {
        panic!("unexpected mistake: {:?}", m);
    }

    let m = &seg.mistakes[2];
    if let Mistake::NestedDelim {
        kind,
        outermost_start,
        at,
    } = m
    {
        assert_eq!(*kind, Angle);
        assert_eq!(*outermost_start, 1);
        assert_eq!(*at, 2);
    } else {
        panic!("unexpected mistake: {:?}", m);
    }

    let m = &seg.mistakes[3];
    if let Mistake::MissingAttrs { at } = m {
        assert_eq!(*at, 3);
    } else {
        panic!("unexpected mistake: {:?}", m);
    }

    let m = &seg.mistakes[4];
    if let Mistake::UnclosedDelim { kind, at } = m {
        assert_eq!(*kind, Angle);
        assert_eq!(*at, 1);
    } else {
        panic!("unexpected mistake: {:?}", m);
    }
}
