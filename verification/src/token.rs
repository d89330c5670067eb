//! The data model shared by the tokenizer and the parser: delimiter kinds,
//! tokens with byte offsets into the normalized source, structural nodes,
//! mistakes, and the result values that carry them.
use vstd::prelude::*;
use vstd::slice::slice_subrange;
use unicode_segmentation::UnicodeSegmentation;

verus! {

/// One of the three paired bracket kinds of the annotation convention.
/// Round brackets mark uncertain or partial speech (with an optional count
/// marker), square brackets mark overlapping or disputed speech, and angle
/// brackets carry an inline metadata code list.
#[derive(Debug, PartialEq, Eq, Copy, Clone, Structural)]
pub enum DelimKind {
    Round,
    Square,
    Angle,
}

/// The coarse category a token falls into: a bracket character, or any
/// other maximal run of non-space bytes.
#[derive(Debug, PartialEq, Eq, Clone, Copy, Structural)]
pub enum TokenKind {
    NonDelim,
    Open(DelimKind),
    Close(DelimKind),
}

/// A token, identified by its kind and its byte offsets (`start` inclusive,
/// `end` exclusive) into the normalized source text.
#[derive(Debug, Copy, Clone, PartialEq, Eq, Structural)]
pub struct Token {
    pub kind: TokenKind,
    pub start: usize,
    pub end: usize,
}

/// The mathematical shape of a [`Node`]: attribute codes appear as a
/// sequence of byte sequences.
pub enum NodeSpec {
    AttrList(Seq<Seq<u8>>),
    Open(DelimKind),
    Close(DelimKind),
    Token(Token),
}

/// The validated structural output: an accepted non-delimiter token, an
/// accepted bracket, or the sorted, deduplicated list of attribute codes
/// read after an angle-open. Nodes are appended only for input judged
/// legal, so the node sequence is the clean reading of the segment.
#[derive(Debug, PartialEq, Eq)]
pub enum Node {
    AttrList(Vec<Vec<u8>>),
    Open(DelimKind),
    Close(DelimKind),
    Token(Token),
}

impl View for Node {
    type V = NodeSpec;

    open spec fn view(&self) -> NodeSpec {
        match self {
            Node::AttrList(codes) => NodeSpec::AttrList(codes.deep_view()),
            Node::Open(kind) => NodeSpec::Open(*kind),
            Node::Close(kind) => NodeSpec::Close(*kind),
            Node::Token(token) => NodeSpec::Token(*token),
        }
    }
}

/// The mathematical shape of a [`Mistake`]: token indices and byte offsets
/// as unbounded integers, the offending attribute as a byte sequence.
pub enum MistakeSpec {
    BadToken { at: int },
    BadSubstr { start: int, end: int, at: int },
    BadAttr { attr: Seq<u8>, at: int },
    NestedDelim { kind: DelimKind, outermost_start: int, at: int },
    ClosingUnopenedDelim { kind: DelimKind, at: int },
    UnclosedDelim { kind: DelimKind, at: int },
    MissingAttrs { at: int },
}

/// One problem found during validation. `at` is a token index; `start` and
/// `end` of `BadSubstr` are byte offsets relative to the token's own start.
#[derive(Debug, PartialEq, Eq)]
pub enum Mistake {
    BadToken { at: usize },
    BadSubstr { start: usize, end: usize, at: usize },
    BadAttr { attr: Vec<u8>, at: usize },
    NestedDelim { kind: DelimKind, outermost_start: usize, at: usize },
    ClosingUnopenedDelim { kind: DelimKind, at: usize },
    UnclosedDelim { kind: DelimKind, at: usize },
    MissingAttrs { at: usize },
}

impl View for Mistake {
    type V = MistakeSpec;

    open spec fn view(&self) -> MistakeSpec {
        match self {
            Mistake::BadToken { at } => MistakeSpec::BadToken { at: *at as int },
            Mistake::BadSubstr { start, end, at } => MistakeSpec::BadSubstr {
                start: *start as int,
                end: *end as int,
                at: *at as int,
            },
            Mistake::BadAttr { attr, at } => MistakeSpec::BadAttr {
                attr: attr.deep_view(),
                at: *at as int,
            },
            Mistake::NestedDelim { kind, outermost_start, at } => MistakeSpec::NestedDelim {
                kind: *kind,
                outermost_start: *outermost_start as int,
                at: *at as int,
            },
            Mistake::ClosingUnopenedDelim { kind, at } => MistakeSpec::ClosingUnopenedDelim {
                kind: *kind,
                at: *at as int,
            },
            Mistake::UnclosedDelim { kind, at } => MistakeSpec::UnclosedDelim {
                kind: *kind,
                at: *at as int,
            },
            Mistake::MissingAttrs { at } => MistakeSpec::MissingAttrs { at: *at as int },
        }
    }
}

/// The view of a node sequence.
pub open spec fn nodes_view(nodes: Seq<Node>) -> Seq<NodeSpec> {
    nodes.map_values(|n: Node| n@)
}

/// The view of a mistake sequence.
pub open spec fn mistakes_view(mistakes: Seq<Mistake>) -> Seq<MistakeSpec> {
    mistakes.map_values(|m: Mistake| m@)
}

/// The number of extended grapheme clusters of the text that the byte
/// sequence holds, after lossy UTF-8 decoding. The count is a function of
/// the bytes alone; no short description of its value exists, so nothing
/// more is stated of it here.
pub uninterp spec fn grapheme_count_of(s: Seq<u8>) -> nat;

/// Relies on `unicode_segmentation::UnicodeSegmentation::graphemes` (UAX #29
/// extended grapheme clusters): counts the grapheme clusters of the lossily
/// decoded text, a deterministic function of the input bytes.
#[verifier::external_body]
fn grapheme_count(b: &[u8]) -> (r: usize)
    ensures
        r as nat == grapheme_count_of(b@),
{
    String::from_utf8_lossy(b).graphemes(true).count()
}

/// A segment after whitespace normalization and token splitting: the
/// normalized source text and the tokens found in it, in source order.
#[derive(Debug)]
pub struct Tokenized {
    pub source: Vec<u8>,
    pub tokens: Vec<Token>,
}

impl Tokenized {
    /// Every token's span lies within the source.
    pub open spec fn wf(&self) -> bool {
        forall|k: int|
            0 <= k < self.tokens@.len() ==> (#[trigger] self.tokens@[k]).start
                <= self.tokens@[k].end <= self.source@.len()
    }

    /// The bytes of the source that the token's span covers.
    pub fn as_str(&self, token: &Token) -> (r: &[u8])
        requires
            token.start <= token.end <= self.source@.len(),
        ensures
            r@ == self.source@.subrange(token.start as int, token.end as int),
    {
        slice_subrange(self.source.as_slice(), token.start, token.end)
    }

    /// The source on one line and a caret marker for the token's span on the
    /// next: one space per grapheme cluster before the span, then one caret
    /// per grapheme cluster inside it.
    pub fn highlight(&self, token: &Token) -> (r: Vec<u8>)
        requires
            token.start <= token.end <= self.source@.len(),
        ensures
            r@ == self.source@ + seq![10u8] + Seq::new(
                grapheme_count_of(self.source@.subrange(0, token.start as int)),
                |i: int| 32u8,
            ) + Seq::new(
                grapheme_count_of(
                    self.source@.subrange(token.start as int, token.end as int),
                ),
                |i: int| 94u8,
            ),
    {
        let space_len = grapheme_count(slice_subrange(self.source.as_slice(), 0, token.start));
        let caret_len = grapheme_count(
            slice_subrange(self.source.as_slice(), token.start, token.end),
        );
        let mut out: Vec<u8> = Vec::new();
        let mut i: usize = 0;
        while i < self.source.len()
            invariant
                i <= self.source@.len(),
                out@ == self.source@.subrange(0, i as int),
            decreases self.source@.len() - i,
        {
            out.push(self.source[i]);
            i = i + 1;
            proof {
                assert(out@ =~= self.source@.subrange(0, i as int));
            }
        }
        proof {
            assert(self.source@.subrange(0, self.source@.len() as int) =~= self.source@);
        }
        out.push(10u8);
        push_repeat(&mut out, 32u8, space_len);
        push_repeat(&mut out, 94u8, caret_len);
        proof {
            assert(out@ =~= self.source@ + seq![10u8] + Seq::new(
                space_len as nat,
                |i: int| 32u8,
            ) + Seq::new(caret_len as nat, |i: int| 94u8));
        }
        out
    }
}

/// Appends `n` copies of `b`.
fn push_repeat(out: &mut Vec<u8>, b: u8, n: usize)
    ensures
        final(out)@ == old(out)@ + Seq::new(n as nat, |i: int| b),
{
    let mut k: usize = 0;
    while k < n
        invariant
            k <= n,
            out@ == old(out)@ + Seq::new(k as nat, |i: int| b),
        decreases n - k,
    {
        out.push(b);
        k = k + 1;
        proof {
            assert(out@ =~= old(out)@ + Seq::new(k as nat, |i: int| b));
        }
    }
}

/// The full result of one validation call: the normalized source, its
/// tokens, the accepted structural nodes, and every mistake found.
#[derive(Debug)]
pub struct Parsed {
    pub source: Vec<u8>,
    pub tokens: Vec<Token>,
    pub nodes: Vec<Node>,
    pub mistakes: Vec<Mistake>,
}

impl Parsed {
    /// Whether validation found any problem: false exactly when the segment
    /// is fully valid.
    pub fn has_mistakes(&self) -> (r: bool)
        ensures
            r == (self.mistakes@.len() > 0),
    {
        !self.mistakes.is_empty()
    }
}

} // verus!
