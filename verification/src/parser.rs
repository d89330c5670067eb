//! Check whether the token sequence of a segment is structurally valid.
//!
//! This is where every kind of mistake is detected and recorded. The
//! validator walks the tokens once, left to right, holding for each
//! delimiter kind the position of a still-open bracket. Nesting a kind
//! inside itself, closing what is not open, and leaving a bracket open are
//! structural mistakes; disallowed tokens, uncovered byte runs and bad
//! attribute codes are lexical ones. All of them are reported and none
//! aborts the walk, so the caller gets the full list in one pass.
use vstd::prelude::*;
use vstd::slice::{slice_subrange, slice_to_vec};
use crate::config::{
    ParserConfig, ConfigModel, list_matches, word_gaps, tiling_gaps, bytes_eq,
    lemma_vec_deep_view_index,
};
use crate::token::{
    DelimKind, Token, TokenKind, Tokenized, Node, NodeSpec, Mistake, MistakeSpec, Parsed,
    nodes_view, mistakes_view,
};

verus! {

/// Whether the byte sequence holds an ASCII digit. A token with a digit
/// counts as a count marker, legal only inside round brackets.
pub open spec fn has_digit(s: Seq<u8>) -> bool {
    exists|k: int| 0 <= k < s.len() && 48 <= #[trigger] s[k] <= 57
}

/// The pieces of `s` split on `_` from position `i`, the current piece
/// having begun at `ps`. Splitting keeps empty pieces, as `_`-separated
/// code lists do.
pub open spec fn split_rec(s: Seq<u8>, i: int, ps: int) -> Seq<Seq<u8>>
    decreases s.len() - i,
{
    if i < 0 || i >= s.len() {
        seq![s.subrange(ps, s.len() as int)]
    } else if s[i] == 95 {
        seq![s.subrange(ps, i)] + split_rec(s, i + 1, i + 1)
    } else {
        split_rec(s, i + 1, ps)
    }
}

/// The `_`-separated pieces of an attribute token.
pub open spec fn split_codes(s: Seq<u8>) -> Seq<Seq<u8>> {
    split_rec(s, 0, 0)
}

/// What reading an attribute code list yields: the accepted codes in
/// first-seen order, deduplicated, and the rejected pieces in order.
pub struct AttrOut {
    pub codes: Seq<Seq<u8>>,
    pub bad: Seq<Seq<u8>>,
}

/// Reads the pieces from index `i` with `acc` the codes accepted so far: a
/// piece matching the after-angle list is collected unless empty or
/// already present; any other piece is rejected.
pub open spec fn attrs_rec(aa: Seq<Seq<u8>>, pieces: Seq<Seq<u8>>, i: int, acc: Seq<Seq<u8>>) -> AttrOut
    decreases pieces.len() - i,
{
    if i < 0 || i >= pieces.len() {
        AttrOut { codes: acc, bad: Seq::empty() }
    } else {
        let p = pieces[i];
        if list_matches(aa, p) {
            let acc2 = if p.len() == 0 || acc.contains(p) {
                acc
            } else {
                acc.push(p)
            };
            attrs_rec(aa, pieces, i + 1, acc2)
        } else {
            let r = attrs_rec(aa, pieces, i + 1, acc);
            AttrOut { codes: r.codes, bad: seq![p] + r.bad }
        }
    }
}

/// Reads a whole attribute code list.
pub open spec fn collect_attrs(aa: Seq<Seq<u8>>, pieces: Seq<Seq<u8>>) -> AttrOut {
    attrs_rec(aa, pieces, 0, Seq::empty())
}

/// Lexicographic byte order, shorter prefixes first.
pub open spec fn bytes_le(a: Seq<u8>, b: Seq<u8>) -> bool
    decreases a.len(),
{
    if a.len() == 0 {
        true
    } else if b.len() == 0 {
        false
    } else if a[0] < b[0] {
        true
    } else if a[0] > b[0] {
        false
    } else {
        bytes_le(a.subrange(1, a.len() as int), b.subrange(1, b.len() as int))
    }
}

/// `x` inserted before the first entry of `s` not below it; `s` sorted
/// ascending stays sorted.
pub open spec fn insert_sorted(x: Seq<u8>, s: Seq<Seq<u8>>) -> Seq<Seq<u8>>
    decreases s.len(),
{
    if s.len() == 0 {
        seq![x]
    } else if bytes_le(x, s[0]) {
        seq![x] + s
    } else {
        seq![s[0]] + insert_sorted(x, s.subrange(1, s.len() as int))
    }
}

/// The entries of `s` sorted ascending by `bytes_le`, by insertion.
pub open spec fn sort_codes(s: Seq<Seq<u8>>) -> Seq<Seq<u8>>
    decreases s.len(),
{
    if s.len() == 0 {
        Seq::empty()
    } else {
        insert_sorted(s[0], sort_codes(s.subrange(1, s.len() as int)))
    }
}

/// Uncovered gaps turned into mistakes at token index `at`.
pub open spec fn gap_mistakes(gaps: Seq<(int, int)>, at: int) -> Seq<MistakeSpec> {
    gaps.map_values(|g: (int, int)| MistakeSpec::BadSubstr { start: g.0, end: g.1, at })
}

/// Rejected attribute pieces turned into mistakes at token index `at`.
pub open spec fn bad_attr_mistakes(bad: Seq<Seq<u8>>, at: int) -> Seq<MistakeSpec> {
    bad.map_values(|p: Seq<u8>| MistakeSpec::BadAttr { attr: p, at })
}

/// What one stretch of validation emits: nodes and mistakes, each in
/// order.
pub struct StepOut {
    pub nodes: Seq<NodeSpec>,
    pub mistakes: Seq<MistakeSpec>,
}

/// The validator's state: for each delimiter kind, the token index of a
/// still-open bracket of that kind, if any.
pub struct DelimState {
    pub round: Option<int>,
    pub square: Option<int>,
    pub angle: Option<int>,
}

/// The open position recorded for a kind.
pub open spec fn get_open(st: DelimState, k: DelimKind) -> Option<int> {
    match k {
        DelimKind::Round => st.round,
        DelimKind::Square => st.square,
        DelimKind::Angle => st.angle,
    }
}

/// The state with an open position recorded for a kind.
pub open spec fn set_open(st: DelimState, k: DelimKind, i: int) -> DelimState {
    match k {
        DelimKind::Round => DelimState { round: Option::Some(i), ..st },
        DelimKind::Square => DelimState { square: Option::Some(i), ..st },
        DelimKind::Angle => DelimState { angle: Option::Some(i), ..st },
    }
}

/// The state with the open position of a kind cleared.
pub open spec fn clear_open(st: DelimState, k: DelimKind) -> DelimState {
    match k {
        DelimKind::Round => DelimState { round: Option::None, ..st },
        DelimKind::Square => DelimState { square: Option::None, ..st },
        DelimKind::Angle => DelimState { angle: Option::None, ..st },
    }
}

/// The state at the start of a walk: nothing open.
pub open spec fn init_state() -> DelimState {
    DelimState { round: Option::None, square: Option::None, angle: Option::None }
}

/// The mistakes reported at end of input for brackets still open, in the
/// fixed kind order round, square, angle.
pub open spec fn flush_state(st: DelimState) -> Seq<MistakeSpec> {
    (match st.round {
        Option::Some(at) => seq![MistakeSpec::UnclosedDelim { kind: DelimKind::Round, at }],
        Option::None => Seq::empty(),
    }) + (match st.square {
        Option::Some(at) => seq![MistakeSpec::UnclosedDelim { kind: DelimKind::Square, at }],
        Option::None => Seq::empty(),
    }) + (match st.angle {
        Option::Some(at) => seq![MistakeSpec::UnclosedDelim { kind: DelimKind::Angle, at }],
        Option::None => Seq::empty(),
    })
}

/// What validating one non-delimiter token `t` with text `w` at index `i`
/// emits. In priority order: a token holding a digit is a count marker,
/// legal only while a round bracket is open, and is dropped with a
/// `BadToken` otherwise; a whitelisted token is accepted verbatim; a
/// blacklisted token is dropped with a `BadToken`; any other token is
/// tiled with atoms, each uncovered gap reported as a `BadSubstr`, and the
/// token kept as a node even when gaps exist.
pub open spec fn word_out(cfg: ConfigModel, w: Seq<u8>, t: Token, i: int, round_open: bool) -> StepOut {
    if has_digit(w) {
        if round_open {
            StepOut { nodes: seq![NodeSpec::Token(t)], mistakes: Seq::empty() }
        } else {
            StepOut { nodes: Seq::empty(), mistakes: seq![MistakeSpec::BadToken { at: i }] }
        }
    } else if list_matches(cfg.whitelist, w) {
        StepOut { nodes: seq![NodeSpec::Token(t)], mistakes: Seq::empty() }
    } else if list_matches(cfg.blacklist, w) {
        StepOut { nodes: Seq::empty(), mistakes: seq![MistakeSpec::BadToken { at: i }] }
    } else {
        StepOut {
            nodes: seq![NodeSpec::Token(t)],
            mistakes: gap_mistakes(word_gaps(cfg.atoms, w), i),
        }
    }
}

/// What the attribute lookahead after an angle-open emits, `i` being the
/// index just past the `<`. With no next token, or a delimiter there, a
/// `MissingAttrs` (and the token is not consumed). Otherwise the token is
/// split on `_`; each rejected piece is a `BadAttr`, and only when all
/// pieces pass does the sorted, deduplicated code list become a node.
pub open spec fn angle_attr_out(cfg: ConfigModel, src: Seq<u8>, toks: Seq<Token>, i: int) -> StepOut {
    if i >= toks.len() || toks[i].kind != TokenKind::NonDelim {
        StepOut { nodes: Seq::empty(), mistakes: seq![MistakeSpec::MissingAttrs { at: i }] }
    } else {
        let w = src.subrange(toks[i].start as int, toks[i].end as int);
        let a = collect_attrs(cfg.after_angle, split_codes(w));
        StepOut {
            nodes: if a.bad.len() == 0 {
                seq![NodeSpec::AttrList(sort_codes(a.codes))]
            } else {
                Seq::empty()
            },
            mistakes: bad_attr_mistakes(a.bad, i),
        }
    }
}

/// How far the attribute lookahead advances: past the codes token when one
/// is there, not at all otherwise.
pub open spec fn angle_advance(toks: Seq<Token>, i: int) -> int {
    if i < toks.len() && toks[i].kind == TokenKind::NonDelim {
        i + 1
    } else {
        i
    }
}

/// One left-to-right validation pass from token `i` in state `st`: the
/// nodes and mistakes it emits, ending with an `UnclosedDelim` for every
/// bracket still open. Opening an already open kind reports a
/// `NestedDelim` against the outermost position and leaves that position
/// authoritative; closing an unopened kind reports a
/// `ClosingUnopenedDelim`; an angle-open is followed by the attribute
/// lookahead whether or not it was nested.
pub open spec fn parse_from(
    cfg: ConfigModel,
    src: Seq<u8>,
    toks: Seq<Token>,
    i: int,
    st: DelimState,
) -> StepOut
    decreases toks.len() - i,
{
    if i < 0 || i >= toks.len() {
        StepOut { nodes: Seq::empty(), mistakes: flush_state(st) }
    } else {
        let t = toks[i];
        match t.kind {
            TokenKind::NonDelim => {
                let w = src.subrange(t.start as int, t.end as int);
                let o = word_out(cfg, w, t, i, st.round is Some);
                let rest = parse_from(cfg, src, toks, i + 1, st);
                StepOut { nodes: o.nodes + rest.nodes, mistakes: o.mistakes + rest.mistakes }
            },
            TokenKind::Open(k) => {
                let o1 = match get_open(st, k) {
                    Option::Some(j) => StepOut {
                        nodes: Seq::empty(),
                        mistakes: seq![
                            MistakeSpec::NestedDelim { kind: k, outermost_start: j, at: i },
                        ],
                    },
                    Option::None => StepOut {
                        nodes: seq![NodeSpec::Open(k)],
                        mistakes: Seq::empty(),
                    },
                };
                let st1 = match get_open(st, k) {
                    Option::Some(j) => st,
                    Option::None => set_open(st, k, i),
                };
                if k == DelimKind::Angle {
                    let o2 = angle_attr_out(cfg, src, toks, i + 1);
                    let rest = parse_from(cfg, src, toks, angle_advance(toks, i + 1), st1);
                    StepOut {
                        nodes: o1.nodes + o2.nodes + rest.nodes,
                        mistakes: o1.mistakes + o2.mistakes + rest.mistakes,
                    }
                } else {
                    let rest = parse_from(cfg, src, toks, i + 1, st1);
                    StepOut {
                        nodes: o1.nodes + rest.nodes,
                        mistakes: o1.mistakes + rest.mistakes,
                    }
                }
            },
            TokenKind::Close(k) => {
                match get_open(st, k) {
                    Option::Some(j) => {
                        let rest = parse_from(cfg, src, toks, i + 1, clear_open(st, k));
                        StepOut {
                            nodes: seq![NodeSpec::Close(k)] + rest.nodes,
                            mistakes: rest.mistakes,
                        }
                    },
                    Option::None => {
                        let rest = parse_from(cfg, src, toks, i + 1, st);
                        StepOut {
                            nodes: rest.nodes,
                            mistakes: seq![
                                MistakeSpec::ClosingUnopenedDelim { kind: k, at: i },
                            ] + rest.mistakes,
                        }
                    },
                }
            },
        }
    }
}

/// The full validation of a token sequence: nodes and mistakes of one pass
/// from the first token with nothing open.
pub open spec fn parse_spec(cfg: ConfigModel, src: Seq<u8>, toks: Seq<Token>) -> StepOut {
    parse_from(cfg, src, toks, 0, init_state())
}

/// Appending a node appends its view.
proof fn lemma_nodes_view_push(s: Seq<Node>, x: Node)
    ensures
        nodes_view(s.push(x)) == nodes_view(s) + seq![x@],
{
    assert(nodes_view(s.push(x)) =~= nodes_view(s) + seq![x@]);
}

/// Appending a mistake appends its view.
proof fn lemma_mistakes_view_push(s: Seq<Mistake>, x: Mistake)
    ensures
        mistakes_view(s.push(x)) == mistakes_view(s) + seq![x@],
{
    assert(mistakes_view(s.push(x)) =~= mistakes_view(s) + seq![x@]);
}

/// Mapping a function over a concatenation maps it over each part.
proof fn lemma_map_values_add<A, B>(a: Seq<A>, b: Seq<A>, f: spec_fn(A) -> B)
    ensures
        (a + b).map_values(f) == a.map_values(f) + b.map_values(f),
{
    assert((a + b).map_values(f) =~= a.map_values(f) + b.map_values(f));
}

/// Whether the byte slice holds an ASCII digit.
fn has_digit_bytes(w: &[u8]) -> (r: bool)
    ensures
        r == has_digit(w@),
{
    let n = w.len();
    let mut i: usize = 0;
    while i < n
        invariant
            0 <= i <= n,
            n == w@.len(),
            forall|j: int| 0 <= j < i ==> !(48 <= #[trigger] w@[j] <= 57),
        decreases n - i,
    {
        if 48 <= w[i] && w[i] <= 57 {
            return true;
        }
        i = i + 1;
    }
    false
}

/// A fresh copy of a byte vector.
fn copy_bytes(v: &Vec<u8>) -> (out: Vec<u8>)
    ensures
        out@ == v@,
{
    slice_to_vec(v.as_slice())
}

/// Whether one of the collected codes holds the same bytes as `p`.
fn codes_contain(codes: &Vec<Vec<u8>>, p: &[u8]) -> (r: bool)
    ensures
        r == codes.deep_view().contains(p@),
{
    let n = codes.len();
    let mut k: usize = 0;
    while k < n
        invariant
            0 <= k <= n,
            n == codes@.len(),
            forall|j: int| 0 <= j < k ==> codes.deep_view()[j] != p@,
        decreases n - k,
    {
        proof {
            lemma_vec_deep_view_index(codes, k as int);
        }
        if bytes_eq(codes[k].as_slice(), p) {
            proof {
                assert(codes.deep_view()[k as int] == p@);
            }
            return true;
        }
        k = k + 1;
    }
    proof {
        assert(forall|j: int| 0 <= j < codes.deep_view().len() ==> codes.deep_view()[j] != p@);
    }
    false
}

/// Splits an attribute token on `_`, keeping empty pieces.
fn split_codes_exec(w: &Vec<u8>) -> (out: Vec<Vec<u8>>)
    ensures
        out.deep_view() == split_codes(w@),
{
    let n = w.len();
    let mut out: Vec<Vec<u8>> = Vec::new();
    let mut ps: usize = 0;
    let mut i: usize = 0;
    while i < n
        invariant
            0 <= ps <= i <= n,
            n == w@.len(),
            split_codes(w@) == out.deep_view() + split_rec(w@, i as int, ps as int),
        decreases n - i,
    {
        let ghost out0 = out.deep_view();
        if w[i] == 95 {
            out.push(slice_to_vec(slice_subrange(w.as_slice(), ps, i)));
            proof {
                assert(out.deep_view() =~~= out0 + seq![w@.subrange(ps as int, i as int)]);
                assert(out0 + split_rec(w@, i as int, ps as int) =~= out.deep_view()
                    + split_rec(w@, i + 1, i + 1));
            }
            ps = i + 1;
        }
        i = i + 1;
    }
    let ghost out0 = out.deep_view();
    out.push(slice_to_vec(slice_subrange(w.as_slice(), ps, n)));
    proof {
        assert(out.deep_view() =~~= out0 + seq![w@.subrange(ps as int, n as int)]);
        assert(split_rec(w@, n as int, ps as int) == seq![w@.subrange(ps as int, n as int)]);
        assert(out0 + split_rec(w@, n as int, ps as int) =~= out.deep_view());
    }
    out
}

/// Lexicographic comparison of byte slices.
fn bytes_le_exec(a: &[u8], b: &[u8]) -> (r: bool)
    ensures
        r == bytes_le(a@, b@),
    decreases a@.len(),
{
    if a.len() == 0 {
        true
    } else if b.len() == 0 {
        false
    } else if a[0] < b[0] {
        true
    } else if a[0] > b[0] {
        false
    } else {
        bytes_le_exec(slice_subrange(a, 1, a.len()), slice_subrange(b, 1, b.len()))
    }
}

/// Inserts a code into a sorted list of codes.
fn insert_code(x: Vec<u8>, sorted: Vec<Vec<u8>>) -> (out: Vec<Vec<u8>>)
    ensures
        out.deep_view() == insert_sorted(x@, sorted.deep_view()),
    decreases sorted@.len(),
{
    proof {
        assert(x.deep_view() =~= x@);
    }
    if sorted.len() == 0 {
        let mut v: Vec<Vec<u8>> = Vec::new();
        v.push(x);
        proof {
            assert(v.deep_view() =~~= seq![x@]);
        }
        v
    } else if bytes_le_exec(x.as_slice(), sorted[0].as_slice()) {
        proof {
            lemma_vec_deep_view_index(&sorted, 0);
        }
        let ghost sd = sorted.deep_view();
        let mut v = sorted;
        v.insert(0, x);
        proof {
            assert(v.deep_view() =~~= seq![x@] + sd);
        }
        v
    } else {
        proof {
            lemma_vec_deep_view_index(&sorted, 0);
        }
        let ghost sd = sorted.deep_view();
        let mut v = sorted;
        let first = v.remove(0);
        proof {
            assert(v.deep_view() =~~= sd.subrange(1, sd.len() as int));
            assert(first@ == sd[0]);
        }
        let ghost fd = first@;
        let rest = insert_code(x, v);
        let ghost rd = rest.deep_view();
        let mut rest = rest;
        rest.insert(0, first);
        proof {
            assert(rest.deep_view() =~~= seq![fd] + rd);
        }
        rest
    }
}

/// Sorts the collected codes ascending by insertion.
fn sort_codes_exec(v: Vec<Vec<u8>>) -> (out: Vec<Vec<u8>>)
    ensures
        out.deep_view() == sort_codes(v.deep_view()),
    decreases v@.len(),
{
    if v.len() == 0 {
        proof {
            assert(v.deep_view() =~~= Seq::<Seq<u8>>::empty());
        }
        v
    } else {
        proof {
            lemma_vec_deep_view_index(&v, 0);
        }
        let ghost vd = v.deep_view();
        let mut v = v;
        let first = v.remove(0);
        proof {
            assert(v.deep_view() =~~= vd.subrange(1, vd.len() as int));
            assert(first@ == vd[0]);
        }
        let rest = sort_codes_exec(v);
        insert_code(first, rest)
    }
}

/// The token at `current` and a copy of its bytes in the source.
fn get_token(current: usize, tokens: &Vec<Token>, source: &Vec<u8>) -> (r: (Token, Vec<u8>))
    requires
        current < tokens@.len(),
        tokens@[current as int].start <= tokens@[current as int].end <= source@.len(),
    ensures
        r.0 == tokens@[current as int],
        r.1@ == source@.subrange(r.0.start as int, r.0.end as int),
{
    let token = tokens[current];
    let token_str = slice_to_vec(slice_subrange(source.as_slice(), token.start, token.end));
    (token, token_str)
}

/// The validator: the segment being walked, the position and delimiter
/// state of the walk, and the nodes and mistakes gathered so far.
#[derive(Debug)]
pub struct Parser {
    source: Vec<u8>,
    tokens: Vec<Token>,
    current: usize,
    nodes: Vec<Node>,
    mistakes: Vec<Mistake>,
    round_start: Option<usize>,
    square_start: Option<usize>,
    angle_start: Option<usize>,
}

/// The view of an optional open position.
spec fn opt_int(o: Option<usize>) -> Option<int> {
    match o {
        Option::Some(j) => Option::Some(j as int),
        Option::None => Option::None,
    }
}

impl Parser {
    /// The delimiter state of the walk.
    spec fn st(&self) -> DelimState {
        DelimState {
            round: opt_int(self.round_start),
            square: opt_int(self.square_start),
            angle: opt_int(self.angle_start),
        }
    }

    /// The walk stands within the token list and every token's span lies
    /// within the source.
    spec fn wf(&self) -> bool {
        &&& self.current <= self.tokens@.len()
        &&& forall|k: int|
            0 <= k < self.tokens@.len() ==> (#[trigger] self.tokens@[k]).start
                <= self.tokens@[k].end <= self.source@.len()
    }

    /// Walks the whole token sequence of `segment` once and returns its
    /// nodes and mistakes, exactly as [`parse_spec`] describes them.
    pub fn parse(config: &ParserConfig, segment: Tokenized) -> (r: Parsed)
        requires
            segment.wf(),
        ensures
            r.source@ == segment.source@,
            r.tokens@ == segment.tokens@,
            nodes_view(r.nodes@) == parse_spec(config@, segment.source@, segment.tokens@).nodes,
            mistakes_view(r.mistakes@) == parse_spec(
                config@,
                segment.source@,
                segment.tokens@,
            ).mistakes,
    {
        let mut parser = Parser {
            source: segment.source,
            tokens: segment.tokens,
            current: 0,
            mistakes: Vec::new(),
            nodes: Vec::new(),
            round_start: Option::None,
            square_start: Option::None,
            angle_start: Option::None,
        };
        let ghost src = parser.source@;
        let ghost toks = parser.tokens@;
        proof {
            assert(nodes_view(parser.nodes@) =~= Seq::<NodeSpec>::empty());
            assert(mistakes_view(parser.mistakes@) =~= Seq::<MistakeSpec>::empty());
            assert(parser.st() == init_state());
            assert(Seq::<NodeSpec>::empty() + parse_spec(config@, src, toks).nodes
                =~= parse_spec(config@, src, toks).nodes);
            assert(Seq::<MistakeSpec>::empty() + parse_spec(config@, src, toks).mistakes
                =~= parse_spec(config@, src, toks).mistakes);
        }
        let num_tokens = parser.tokens.len();
        while parser.current < num_tokens
            invariant
                parser.wf(),
                parser.source@ == src,
                parser.tokens@ == toks,
                num_tokens == toks.len(),
                parse_spec(config@, src, toks).nodes == nodes_view(parser.nodes@)
                    + parse_from(config@, src, toks, parser.current as int, parser.st()).nodes,
                parse_spec(config@, src, toks).mistakes == mistakes_view(parser.mistakes@)
                    + parse_from(
                    config@,
                    src,
                    toks,
                    parser.current as int,
                    parser.st(),
                ).mistakes,
            decreases num_tokens - parser.current,
        {
            let ghost n0 = nodes_view(parser.nodes@);
            let ghost m0 = mistakes_view(parser.mistakes@);
            let ghost c0 = parser.current as int;
            let ghost st0 = parser.st();
            parser.step(config);
            proof {
                assert(parse_spec(config@, src, toks).nodes == (n0 + parse_from(
                    config@,
                    src,
                    toks,
                    c0,
                    st0,
                ).nodes));
                assert(n0 + parse_from(config@, src, toks, c0, st0).nodes
                    == nodes_view(parser.nodes@) + parse_from(
                    config@,
                    src,
                    toks,
                    parser.current as int,
                    parser.st(),
                ).nodes);
                assert(m0 + parse_from(config@, src, toks, c0, st0).mistakes
                    == mistakes_view(parser.mistakes@) + parse_from(
                    config@,
                    src,
                    toks,
                    parser.current as int,
                    parser.st(),
                ).mistakes);
            }
        }
        let ghost st_end = parser.st();
        let ghost m_end = mistakes_view(parser.mistakes@);
        if let Option::Some(at) = parser.round_start {
            let ghost m0 = parser.mistakes@;
            parser.mistakes.push(Mistake::UnclosedDelim { kind: DelimKind::Round, at });
            proof {
                lemma_mistakes_view_push(m0, Mistake::UnclosedDelim { kind: DelimKind::Round, at });
            }
        }
        if let Option::Some(at) = parser.square_start {
            let ghost m0 = parser.mistakes@;
            parser.mistakes.push(Mistake::UnclosedDelim { kind: DelimKind::Square, at });
            proof {
                lemma_mistakes_view_push(m0, Mistake::UnclosedDelim { kind: DelimKind::Square, at });
            }
        }
        if let Option::Some(at) = parser.angle_start {
            let ghost m0 = parser.mistakes@;
            parser.mistakes.push(Mistake::UnclosedDelim { kind: DelimKind::Angle, at });
            proof {
                lemma_mistakes_view_push(m0, Mistake::UnclosedDelim { kind: DelimKind::Angle, at });
            }
        }
        proof {
            assert(parse_from(config@, src, toks, parser.current as int, st_end)
                == StepOut { nodes: Seq::empty(), mistakes: flush_state(st_end) });
            assert(mistakes_view(parser.mistakes@) =~= m_end + flush_state(st_end));
            assert(nodes_view(parser.nodes@) + Seq::<NodeSpec>::empty()
                =~= nodes_view(parser.nodes@));
        }
        Parsed {
            source: parser.source,
            tokens: parser.tokens,
            nodes: parser.nodes,
            mistakes: parser.mistakes,
        }
    }

    /// Validates the token at the walk's position and advances past it
    /// (and past a consumed attribute token).
    fn step(&mut self, config: &ParserConfig)
        requires
            old(self).wf(),
            old(self).current < old(self).tokens@.len(),
        ensures
            final(self).wf(),
            final(self).source@ == old(self).source@,
            final(self).tokens@ == old(self).tokens@,
            old(self).current < final(self).current <= final(self).tokens@.len(),
            nodes_view(old(self).nodes@) + parse_from(
                config@,
                final(self).source@,
                final(self).tokens@,
                old(self).current as int,
                old(self).st(),
            ).nodes == nodes_view(final(self).nodes@) + parse_from(
                config@,
                final(self).source@,
                final(self).tokens@,
                final(self).current as int,
                final(self).st(),
            ).nodes,
            mistakes_view(old(self).mistakes@) + parse_from(
                config@,
                final(self).source@,
                final(self).tokens@,
                old(self).current as int,
                old(self).st(),
            ).mistakes == mistakes_view(final(self).mistakes@) + parse_from(
                config@,
                final(self).source@,
                final(self).tokens@,
                final(self).current as int,
                final(self).st(),
            ).mistakes,
    {
        let kind = self.tokens[self.current].kind;
        match kind {
            TokenKind::NonDelim => self.parse_word(config),
            TokenKind::Open(DelimKind::Round) => self.parse_open_round(config),
            TokenKind::Close(DelimKind::Round) => self.parse_close_round(config),
            TokenKind::Open(DelimKind::Square) => self.parse_open_square(config),
            TokenKind::Close(DelimKind::Square) => self.parse_close_square(config),
            TokenKind::Open(DelimKind::Angle) => self.parse_open_angle(config),
            TokenKind::Close(DelimKind::Angle) => self.parse_close_angle(config),
        }
    }

    /// Validates a non-delimiter token: count-marker rule first, then
    /// whitelist, then blacklist, then atom tiling.
    fn parse_word(&mut self, config: &ParserConfig)
        requires
            old(self).wf(),
            old(self).current < old(self).tokens@.len(),
            old(self).tokens@[old(self).current as int].kind == TokenKind::NonDelim,
        ensures
            final(self).wf(),
            final(self).source@ == old(self).source@,
            final(self).tokens@ == old(self).tokens@,
            old(self).current < final(self).current <= final(self).tokens@.len(),
            nodes_view(old(self).nodes@) + parse_from(
                config@,
                final(self).source@,
                final(self).tokens@,
                old(self).current as int,
                old(self).st(),
            ).nodes == nodes_view(final(self).nodes@) + parse_from(
                config@,
                final(self).source@,
                final(self).tokens@,
                final(self).current as int,
                final(self).st(),
            ).nodes,
            mistakes_view(old(self).mistakes@) + parse_from(
                config@,
                final(self).source@,
                final(self).tokens@,
                old(self).current as int,
                old(self).st(),
            ).mistakes == mistakes_view(final(self).mistakes@) + parse_from(
                config@,
                final(self).source@,
                final(self).tokens@,
                final(self).current as int,
                final(self).st(),
            ).mistakes,
    {
        let ghost src = self.source@;
        let ghost toks = self.tokens@;
        let ghost i = self.current as int;
        let ghost st0 = self.st();
        let ghost n0 = self.nodes@;
        let ghost m0 = self.mistakes@;
        let mut word_ok = true;
        let (token, token_str) = get_token(self.current, &self.tokens, &self.source);
        let ghost w = token_str@;
        let ghost o = word_out(config@, w, token, i, st0.round is Some);

        if has_digit_bytes(token_str.as_slice()) {
            if self.round_start.is_none() {
                word_ok = false;
                self.mistakes.push(Mistake::BadToken { at: self.current });
                proof {
                    lemma_mistakes_view_push(m0, Mistake::BadToken { at: self.current });
                }
            }
        } else if config.in_whitelist(token_str.as_slice()) {
        } else if config.in_blacklist(token_str.as_slice()) {
            word_ok = false;
            self.mistakes.push(Mistake::BadToken { at: self.current });
            proof {
                lemma_mistakes_view_push(m0, Mistake::BadToken { at: self.current });
            }
        } else {
            let token_len = token_str.len();
            let mut prev_end: usize = 0;
            let mut pos: usize = 0;
            while pos < token_len
                invariant
                    0 <= prev_end <= pos <= token_len,
                    token_len == w.len(),
                    token_str@ == w,
                    self.wf(),
                    self.source@ == src,
                    self.tokens@ == toks,
                    self.nodes@ == n0,
                    self.current == i,
                    self.st() == st0,
                    w == src.subrange(
                        toks[i].start as int,
                        toks[i].end as int,
                    ),
                    mistakes_view(m0) + gap_mistakes(word_gaps(config@.atoms, w), i)
                        == mistakes_view(self.mistakes@) + gap_mistakes(
                        tiling_gaps(config@.atoms, w, pos as int, prev_end as int),
                        i,
                    ),
                decreases token_len - pos,
            {
                let ghost g0 = tiling_gaps(config@.atoms, w, pos as int, prev_end as int);
                let m = config.best_atom_at(token_str.as_slice(), pos);
                if m > 0 {
                    if pos != prev_end {
                        let ghost mm = self.mistakes@;
                        self.mistakes.push(Mistake::BadSubstr {
                            start: prev_end,
                            end: pos,
                            at: self.current,
                        });
                        proof {
                            lemma_mistakes_view_push(mm, Mistake::BadSubstr {
                                start: prev_end,
                                end: pos,
                                at: self.current,
                            });
                            lemma_map_values_add(
                                seq![(prev_end as int, pos as int)],
                                tiling_gaps(config@.atoms, w, pos + m, pos + m),
                                |g: (int, int)| MistakeSpec::BadSubstr {
                                    start: g.0,
                                    end: g.1,
                                    at: i,
                                },
                            );
                            assert(gap_mistakes(seq![(prev_end as int, pos as int)], i)
                                =~= seq![
                                MistakeSpec::BadSubstr {
                                    start: prev_end as int,
                                    end: pos as int,
                                    at: i,
                                },
                            ]);
                            assert(g0 == seq![(prev_end as int, pos as int)] + tiling_gaps(
                                config@.atoms,
                                w,
                                pos + m,
                                pos + m,
                            ));
                        }
                    } else {
                        proof {
                            assert(g0 =~= Seq::<(int, int)>::empty() + tiling_gaps(
                                config@.atoms,
                                w,
                                pos + m,
                                pos + m,
                            ));
                            assert(Seq::<(int, int)>::empty() + tiling_gaps(
                                config@.atoms,
                                w,
                                pos + m,
                                pos + m,
                            ) =~= tiling_gaps(config@.atoms, w, pos + m, pos + m));
                        }
                    }
                    pos = pos + m;
                    prev_end = pos;
                } else {
                    proof {
                        assert(g0 == tiling_gaps(
                            config@.atoms,
                            w,
                            pos + 1,
                            prev_end as int,
                        ));
                    }
                    pos = pos + 1;
                }
            }
            if prev_end != token_len {
                let ghost mm = self.mistakes@;
                self.mistakes.push(Mistake::BadSubstr {
                    start: prev_end,
                    end: token_len,
                    at: self.current,
                });
                proof {
                    lemma_mistakes_view_push(mm, Mistake::BadSubstr {
                        start: prev_end,
                        end: token_len,
                        at: self.current,
                    });
                    assert(tiling_gaps(config@.atoms, w, pos as int, prev_end as int)
                        == seq![(prev_end as int, token_len as int)]);
                    assert(gap_mistakes(seq![(prev_end as int, token_len as int)], i) =~= seq![
                        MistakeSpec::BadSubstr {
                            start: prev_end as int,
                            end: token_len as int,
                            at: i,
                        },
                    ]);
                }
            } else {
                proof {
                    assert(tiling_gaps(config@.atoms, w, pos as int, prev_end as int)
                        =~= Seq::<(int, int)>::empty());
                    assert(gap_mistakes(Seq::<(int, int)>::empty(), i)
                        =~= Seq::<MistakeSpec>::empty());
                    assert(mistakes_view(self.mistakes@) + Seq::<MistakeSpec>::empty()
                        =~= mistakes_view(self.mistakes@));
                    assert(mistakes_view(m0) + gap_mistakes(word_gaps(config@.atoms, w), i)
                        == mistakes_view(self.mistakes@));
                }
            }
        }

        if word_ok {
            let ghost nn = self.nodes@;
            self.nodes.push(Node::Token(token));
            proof {
                lemma_nodes_view_push(nn, Node::Token(token));
            }
        }
        let _ntoks = self.tokens.len();
        self.current = self.current + 1;
        proof {
            let rest = parse_from(config@, src, toks, i + 1, st0);
            assert(parse_from(config@, src, toks, i, st0) == StepOut {
                nodes: o.nodes + rest.nodes,
                mistakes: o.mistakes + rest.mistakes,
            });
            assert(nodes_view(self.nodes@) =~= nodes_view(n0) + o.nodes);
            assert(mistakes_view(self.mistakes@) =~= mistakes_view(m0) + o.mistakes);
            assert(nodes_view(n0) + (o.nodes + rest.nodes) =~= (nodes_view(n0) + o.nodes)
                + rest.nodes);
            assert(mistakes_view(m0) + (o.mistakes + rest.mistakes) =~= (mistakes_view(m0)
                + o.mistakes) + rest.mistakes);
        }
    }

    /// Handles an opening bracket of a kind other than angle: a fresh open
    /// is recorded and becomes a node, a repeated one is a `NestedDelim`
    /// against the still-authoritative outermost position.
    fn parse_open_plain(&mut self, config: &ParserConfig, kind: DelimKind)
        requires
            old(self).wf(),
            old(self).current < old(self).tokens@.len(),
            old(self).tokens@[old(self).current as int].kind == TokenKind::Open(kind),
            kind != DelimKind::Angle,
        ensures
            final(self).wf(),
            final(self).source@ == old(self).source@,
            final(self).tokens@ == old(self).tokens@,
            old(self).current < final(self).current <= final(self).tokens@.len(),
            nodes_view(old(self).nodes@) + parse_from(
                config@,
                final(self).source@,
                final(self).tokens@,
                old(self).current as int,
                old(self).st(),
            ).nodes == nodes_view(final(self).nodes@) + parse_from(
                config@,
                final(self).source@,
                final(self).tokens@,
                final(self).current as int,
                final(self).st(),
            ).nodes,
            mistakes_view(old(self).mistakes@) + parse_from(
                config@,
                final(self).source@,
                final(self).tokens@,
                old(self).current as int,
                old(self).st(),
            ).mistakes == mistakes_view(final(self).mistakes@) + parse_from(
                config@,
                final(self).source@,
                final(self).tokens@,
                final(self).current as int,
                final(self).st(),
            ).mistakes,
    {
        let ghost src = self.source@;
        let ghost toks = self.tokens@;
        let ghost i = self.current as int;
        let ghost st0 = self.st();
        let ghost n0 = self.nodes@;
        let ghost m0 = self.mistakes@;
        let open_slot = match kind {
            DelimKind::Round => self.round_start,
            DelimKind::Square => self.square_start,
            DelimKind::Angle => self.angle_start,
        };
        if let Option::Some(j) = open_slot {
            self.mistakes.push(Mistake::NestedDelim {
                kind,
                outermost_start: j,
                at: self.current,
            });
            proof {
                lemma_mistakes_view_push(m0, Mistake::NestedDelim {
                    kind,
                    outermost_start: j,
                    at: self.current,
                });
            }
        } else {
            match kind {
                DelimKind::Round => self.round_start = Option::Some(self.current),
                DelimKind::Square => self.square_start = Option::Some(self.current),
                DelimKind::Angle => self.angle_start = Option::Some(self.current),
            }
            self.nodes.push(Node::Open(kind));
            proof {
                lemma_nodes_view_push(n0, Node::Open(kind));
            }
        }
        let _ntoks = self.tokens.len();
        self.current = self.current + 1;
        proof {
            let o1 = match get_open(st0, kind) {
                Option::Some(j) => StepOut {
                    nodes: Seq::empty(),
                    mistakes: seq![
                        MistakeSpec::NestedDelim { kind, outermost_start: j, at: i },
                    ],
                },
                Option::None => StepOut {
                    nodes: seq![NodeSpec::Open(kind)],
                    mistakes: Seq::empty(),
                },
            };
            assert(self.st() == (match get_open(st0, kind) {
                Option::Some(j) => st0,
                Option::None => set_open(st0, kind, i),
            }));
            let rest = parse_from(config@, src, toks, i + 1, self.st());
            assert(parse_from(config@, src, toks, i, st0) == StepOut {
                nodes: o1.nodes + rest.nodes,
                mistakes: o1.mistakes + rest.mistakes,
            });
            assert(nodes_view(self.nodes@) =~= nodes_view(n0) + o1.nodes);
            assert(mistakes_view(self.mistakes@) =~= mistakes_view(m0) + o1.mistakes);
            assert(nodes_view(n0) + (o1.nodes + rest.nodes) =~= (nodes_view(n0) + o1.nodes)
                + rest.nodes);
            assert(mistakes_view(m0) + (o1.mistakes + rest.mistakes) =~= (mistakes_view(m0)
                + o1.mistakes) + rest.mistakes);
        }
    }

    /// Handles a closing bracket of any kind: a recorded open is cleared
    /// and the close becomes a node, otherwise a `ClosingUnopenedDelim`.
    fn parse_close_plain(&mut self, config: &ParserConfig, kind: DelimKind)
        requires
            old(self).wf(),
            old(self).current < old(self).tokens@.len(),
            old(self).tokens@[old(self).current as int].kind == TokenKind::Close(kind),
        ensures
            final(self).wf(),
            final(self).source@ == old(self).source@,
            final(self).tokens@ == old(self).tokens@,
            old(self).current < final(self).current <= final(self).tokens@.len(),
            nodes_view(old(self).nodes@) + parse_from(
                config@,
                final(self).source@,
                final(self).tokens@,
                old(self).current as int,
                old(self).st(),
            ).nodes == nodes_view(final(self).nodes@) + parse_from(
                config@,
                final(self).source@,
                final(self).tokens@,
                final(self).current as int,
                final(self).st(),
            ).nodes,
            mistakes_view(old(self).mistakes@) + parse_from(
                config@,
                final(self).source@,
                final(self).tokens@,
                old(self).current as int,
                old(self).st(),
            ).mistakes == mistakes_view(final(self).mistakes@) + parse_from(
                config@,
                final(self).source@,
                final(self).tokens@,
                final(self).current as int,
                final(self).st(),
            ).mistakes,
    {
        let ghost src = self.source@;
        let ghost toks = self.tokens@;
        let ghost i = self.current as int;
        let ghost st0 = self.st();
        let ghost n0 = self.nodes@;
        let ghost m0 = self.mistakes@;
        let open_slot = match kind {
            DelimKind::Round => self.round_start,
            DelimKind::Square => self.square_start,
            DelimKind::Angle => self.angle_start,
        };
        if open_slot.is_none() {
            self.mistakes.push(Mistake::ClosingUnopenedDelim { kind, at: self.current });
            proof {
                lemma_mistakes_view_push(m0, Mistake::ClosingUnopenedDelim {
                    kind,
                    at: self.current,
                });
            }
        } else {
            match kind {
                DelimKind::Round => self.round_start = Option::None,
                DelimKind::Square => self.square_start = Option::None,
                DelimKind::Angle => self.angle_start = Option::None,
            }
            self.nodes.push(Node::Close(kind));
            proof {
                lemma_nodes_view_push(n0, Node::Close(kind));
            }
        }
        let _ntoks = self.tokens.len();
        self.current = self.current + 1;
        proof {
            let rest = parse_from(config@, src, toks, i + 1, self.st());
            match get_open(st0, kind) {
                Option::Some(j) => {
                    assert(self.st() == clear_open(st0, kind));
                    assert(parse_from(config@, src, toks, i, st0) == StepOut {
                        nodes: seq![NodeSpec::Close(kind)] + rest.nodes,
                        mistakes: rest.mistakes,
                    });
                    assert(nodes_view(self.nodes@) =~= nodes_view(n0) + seq![
                        NodeSpec::Close(kind),
                    ]);
                    assert(nodes_view(n0) + (seq![NodeSpec::Close(kind)] + rest.nodes)
                        =~= (nodes_view(n0) + seq![NodeSpec::Close(kind)]) + rest.nodes);
                },
                Option::None => {
                    assert(self.st() == st0);
                    assert(parse_from(config@, src, toks, i, st0) == StepOut {
                        nodes: rest.nodes,
                        mistakes: seq![MistakeSpec::ClosingUnopenedDelim { kind, at: i }]
                            + rest.mistakes,
                    });
                    assert(mistakes_view(self.mistakes@) =~= mistakes_view(m0) + seq![
                        MistakeSpec::ClosingUnopenedDelim { kind, at: i },
                    ]);
                    assert(mistakes_view(m0) + (seq![
                        MistakeSpec::ClosingUnopenedDelim { kind, at: i },
                    ] + rest.mistakes) =~= (mistakes_view(m0) + seq![
                        MistakeSpec::ClosingUnopenedDelim { kind, at: i },
                    ]) + rest.mistakes);
                },
            }
        }
    }

    /// Handles `(`.
    fn parse_open_round(&mut self, config: &ParserConfig)
        requires
            old(self).wf(),
            old(self).current < old(self).tokens@.len(),
            old(self).tokens@[old(self).current as int].kind == TokenKind::Open(
                DelimKind::Round,
            ),
        ensures
            final(self).wf(),
            final(self).source@ == old(self).source@,
            final(self).tokens@ == old(self).tokens@,
            old(self).current < final(self).current <= final(self).tokens@.len(),
            nodes_view(old(self).nodes@) + parse_from(
                config@,
                final(self).source@,
                final(self).tokens@,
                old(self).current as int,
                old(self).st(),
            ).nodes == nodes_view(final(self).nodes@) + parse_from(
                config@,
                final(self).source@,
                final(self).tokens@,
                final(self).current as int,
                final(self).st(),
            ).nodes,
            mistakes_view(old(self).mistakes@) + parse_from(
                config@,
                final(self).source@,
                final(self).tokens@,
                old(self).current as int,
                old(self).st(),
            ).mistakes == mistakes_view(final(self).mistakes@) + parse_from(
                config@,
                final(self).source@,
                final(self).tokens@,
                final(self).current as int,
                final(self).st(),
            ).mistakes,
    {
        self.parse_open_plain(config, DelimKind::Round);
    }

    /// Handles `)`.
    fn parse_close_round(&mut self, config: &ParserConfig)
        requires
            old(self).wf(),
            old(self).current < old(self).tokens@.len(),
            old(self).tokens@[old(self).current as int].kind == TokenKind::Close(
                DelimKind::Round,
            ),
        ensures
            final(self).wf(),
            final(self).source@ == old(self).source@,
            final(self).tokens@ == old(self).tokens@,
            old(self).current < final(self).current <= final(self).tokens@.len(),
            nodes_view(old(self).nodes@) + parse_from(
                config@,
                final(self).source@,
                final(self).tokens@,
                old(self).current as int,
                old(self).st(),
            ).nodes == nodes_view(final(self).nodes@) + parse_from(
                config@,
                final(self).source@,
                final(self).tokens@,
                final(self).current as int,
                final(self).st(),
            ).nodes,
            mistakes_view(old(self).mistakes@) + parse_from(
                config@,
                final(self).source@,
                final(self).tokens@,
                old(self).current as int,
                old(self).st(),
            ).mistakes == mistakes_view(final(self).mistakes@) + parse_from(
                config@,
                final(self).source@,
                final(self).tokens@,
                final(self).current as int,
                final(self).st(),
            ).mistakes,
    {
        self.parse_close_plain(config, DelimKind::Round);
    }

    /// Handles `[`.
    fn parse_open_square(&mut self, config: &ParserConfig)
        requires
            old(self).wf(),
            old(self).current < old(self).tokens@.len(),
            old(self).tokens@[old(self).current as int].kind == TokenKind::Open(
                DelimKind::Square,
            ),
        ensures
            final(self).wf(),
            final(self).source@ == old(self).source@,
            final(self).tokens@ == old(self).tokens@,
            old(self).current < final(self).current <= final(self).tokens@.len(),
            nodes_view(old(self).nodes@) + parse_from(
                config@,
                final(self).source@,
                final(self).tokens@,
                old(self).current as int,
                old(self).st(),
            ).nodes == nodes_view(final(self).nodes@) + parse_from(
                config@,
                final(self).source@,
                final(self).tokens@,
                final(self).current as int,
                final(self).st(),
            ).nodes,
            mistakes_view(old(self).mistakes@) + parse_from(
                config@,
                final(self).source@,
                final(self).tokens@,
                old(self).current as int,
                old(self).st(),
            ).mistakes == mistakes_view(final(self).mistakes@) + parse_from(
                config@,
                final(self).source@,
                final(self).tokens@,
                final(self).current as int,
                final(self).st(),
            ).mistakes,
    {
        self.parse_open_plain(config, DelimKind::Square);
    }

    /// Handles `]`.
    fn parse_close_square(&mut self, config: &ParserConfig)
        requires
            old(self).wf(),
            old(self).current < old(self).tokens@.len(),
            old(self).tokens@[old(self).current as int].kind == TokenKind::Close(
                DelimKind::Square,
            ),
        ensures
            final(self).wf(),
            final(self).source@ == old(self).source@,
            final(self).tokens@ == old(self).tokens@,
            old(self).current < final(self).current <= final(self).tokens@.len(),
            nodes_view(old(self).nodes@) + parse_from(
                config@,
                final(self).source@,
                final(self).tokens@,
                old(self).current as int,
                old(self).st(),
            ).nodes == nodes_view(final(self).nodes@) + parse_from(
                config@,
                final(self).source@,
                final(self).tokens@,
                final(self).current as int,
                final(self).st(),
            ).nodes,
            mistakes_view(old(self).mistakes@) + parse_from(
                config@,
                final(self).source@,
                final(self).tokens@,
                old(self).current as int,
                old(self).st(),
            ).mistakes == mistakes_view(final(self).mistakes@) + parse_from(
                config@,
                final(self).source@,
                final(self).tokens@,
                final(self).current as int,
                final(self).st(),
            ).mistakes,
    {
        self.parse_close_plain(config, DelimKind::Square);
    }

    /// Handles `<`: the bracket itself like any opening bracket (nested or
    /// not), then the attribute lookahead at the next token. A missing or
    /// non-word next token is a `MissingAttrs` and is not consumed; a word
    /// is consumed, split on `_`, and yields an `AttrList` node exactly
    /// when every piece is an allowed code.
    fn parse_open_angle(&mut self, config: &ParserConfig)
        requires
            old(self).wf(),
            old(self).current < old(self).tokens@.len(),
            old(self).tokens@[old(self).current as int].kind == TokenKind::Open(
                DelimKind::Angle,
            ),
        ensures
            final(self).wf(),
            final(self).source@ == old(self).source@,
            final(self).tokens@ == old(self).tokens@,
            old(self).current < final(self).current <= final(self).tokens@.len(),
            nodes_view(old(self).nodes@) + parse_from(
                config@,
                final(self).source@,
                final(self).tokens@,
                old(self).current as int,
                old(self).st(),
            ).nodes == nodes_view(final(self).nodes@) + parse_from(
                config@,
                final(self).source@,
                final(self).tokens@,
                final(self).current as int,
                final(self).st(),
            ).nodes,
            mistakes_view(old(self).mistakes@) + parse_from(
                config@,
                final(self).source@,
                final(self).tokens@,
                old(self).current as int,
                old(self).st(),
            ).mistakes == mistakes_view(final(self).mistakes@) + parse_from(
                config@,
                final(self).source@,
                final(self).tokens@,
                final(self).current as int,
                final(self).st(),
            ).mistakes,
    {
        let ghost src = self.source@;
        let ghost toks = self.tokens@;
        let ghost i = self.current as int;
        let ghost st0 = self.st();
        let ghost n0 = self.nodes@;
        let ghost m0 = self.mistakes@;
        if let Option::Some(j) = self.angle_start {
            self.mistakes.push(Mistake::NestedDelim {
                kind: DelimKind::Angle,
                outermost_start: j,
                at: self.current,
            });
            proof {
                lemma_mistakes_view_push(m0, Mistake::NestedDelim {
                    kind: DelimKind::Angle,
                    outermost_start: j,
                    at: self.current,
                });
            }
        } else {
            self.angle_start = Option::Some(self.current);
            self.nodes.push(Node::Open(DelimKind::Angle));
            proof {
                lemma_nodes_view_push(n0, Node::Open(DelimKind::Angle));
            }
        }
        let _ntoks = self.tokens.len();
        self.current = self.current + 1;
        let ghost st1 = self.st();
        let ghost o1 = (match get_open(st0, DelimKind::Angle) {
            Option::Some(j) => StepOut {
                nodes: Seq::empty(),
                mistakes: seq![
                    MistakeSpec::NestedDelim {
                        kind: DelimKind::Angle,
                        outermost_start: j,
                        at: i,
                    },
                ],
            },
            Option::None => StepOut {
                nodes: seq![NodeSpec::Open(DelimKind::Angle)],
                mistakes: Seq::empty(),
            },
        });
        let ghost n1 = self.nodes@;
        let ghost m1 = self.mistakes@;
        proof {
            assert(st1 == (match get_open(st0, DelimKind::Angle) {
                Option::Some(j) => st0,
                Option::None => set_open(st0, DelimKind::Angle, i),
            }));
            assert(nodes_view(n1) =~= nodes_view(n0) + o1.nodes);
            assert(mistakes_view(m1) =~= mistakes_view(m0) + o1.mistakes);
        }
        let ghost a_out = angle_attr_out(config@, src, toks, i + 1);

        if self.current == self.tokens.len() {
            self.mistakes.push(Mistake::MissingAttrs { at: self.current });
            proof {
                lemma_mistakes_view_push(m1, Mistake::MissingAttrs { at: self.current });
                assert(a_out == StepOut {
                    nodes: Seq::<NodeSpec>::empty(),
                    mistakes: seq![MistakeSpec::MissingAttrs { at: i + 1 }],
                });
                assert(angle_advance(toks, i + 1) == i + 1);
                assert(nodes_view(self.nodes@) =~= nodes_view(n0) + o1.nodes + a_out.nodes);
                assert(mistakes_view(self.mistakes@) =~= mistakes_view(m0) + o1.mistakes
                    + a_out.mistakes);
                self.assemble_angle(config@, src, toks, i, st0, st1, o1, a_out, n0, m0);
            }
            return ;
        }

        let (token, token_str) = get_token(self.current, &self.tokens, &self.source);
        if token.kind != TokenKind::NonDelim {
            self.mistakes.push(Mistake::MissingAttrs { at: self.current });
            proof {
                lemma_mistakes_view_push(m1, Mistake::MissingAttrs { at: self.current });
                assert(a_out == StepOut {
                    nodes: Seq::<NodeSpec>::empty(),
                    mistakes: seq![MistakeSpec::MissingAttrs { at: i + 1 }],
                });
                assert(angle_advance(toks, i + 1) == i + 1);
                assert(nodes_view(self.nodes@) =~= nodes_view(n0) + o1.nodes + a_out.nodes);
                assert(mistakes_view(self.mistakes@) =~= mistakes_view(m0) + o1.mistakes
                    + a_out.mistakes);
                self.assemble_angle(config@, src, toks, i, st0, st1, o1, a_out, n0, m0);
            }
            return ;
        }

        let ghost w = token_str@;
        let pieces = split_codes_exec(&token_str);
        let ghost pd = pieces.deep_view();
        let ghost aa = config@.after_angle;
        let ghost full = collect_attrs(aa, pd);
        let mut codes: Vec<Vec<u8>> = Vec::new();
        let mut codes_ok = true;
        let ghost mut gbad: Seq<Seq<u8>> = Seq::empty();
        proof {
            assert(codes.deep_view() =~~= Seq::<Seq<u8>>::empty());
            assert(full.bad =~= gbad + attrs_rec(aa, pd, 0, codes.deep_view()).bad);
            assert(mistakes_view(self.mistakes@) =~= mistakes_view(m1) + bad_attr_mistakes(
                gbad,
                i + 1,
            ));
        }
        let num_pieces = pieces.len();
        let mut idx: usize = 0;
        while idx < num_pieces
            invariant
                0 <= idx <= num_pieces,
                num_pieces == pd.len(),
                pieces.deep_view() == pd,
                self.wf(),
                self.source@ == src,
                self.tokens@ == toks,
                self.nodes@ == n1,
                self.current == i + 1,
                self.st() == st1,
                codes_ok == (gbad.len() == 0),
                full.codes == attrs_rec(aa, pd, idx as int, codes.deep_view()).codes,
                full.bad == gbad + attrs_rec(aa, pd, idx as int, codes.deep_view()).bad,
                mistakes_view(self.mistakes@) == mistakes_view(m1) + bad_attr_mistakes(
                    gbad,
                    i + 1,
                ),
                aa == config@.after_angle,
            decreases num_pieces - idx,
        {
            proof {
                lemma_vec_deep_view_index(&pieces, idx as int);
            }
            let ghost cd0 = codes.deep_view();
            let p = &pieces[idx];
            if config.in_after_angle(p.as_slice()) {
                if p.len() > 0 && !codes_contain(&codes, p.as_slice()) {
                    codes.push(copy_bytes(p));
                    proof {
                        assert(codes.deep_view() =~~= cd0.push(p@));
                    }
                } else {
                    proof {
                        assert(codes.deep_view() == cd0);
                    }
                }
                proof {
                    assert(pd[idx as int] == p@);
                    assert(attrs_rec(aa, pd, idx as int, cd0) == attrs_rec(
                        aa,
                        pd,
                        idx + 1,
                        codes.deep_view(),
                    ));
                }
            } else {
                codes_ok = false;
                let ghost mm = self.mistakes@;
                let bad_piece = copy_bytes(p);
                proof {
                    assert(bad_piece.deep_view() =~= p@);
                }
                self.mistakes.push(Mistake::BadAttr { attr: bad_piece, at: self.current });
                proof {
                    assert(mistakes_view(self.mistakes@) =~= mistakes_view(mm) + seq![
                        MistakeSpec::BadAttr { attr: p@, at: i + 1 },
                    ]);
                    assert(pd[idx as int] == p@);
                    let recr = attrs_rec(aa, pd, idx + 1, cd0);
                    assert(attrs_rec(aa, pd, idx as int, cd0) == AttrOut {
                        codes: recr.codes,
                        bad: seq![p@] + recr.bad,
                    });
                    assert(gbad + (seq![p@] + recr.bad) =~= (gbad.push(p@)) + recr.bad);
                    assert(bad_attr_mistakes(gbad.push(p@), i + 1) =~= bad_attr_mistakes(
                        gbad,
                        i + 1,
                    ) + seq![MistakeSpec::BadAttr { attr: p@, at: i + 1 }]);
                    gbad = gbad.push(p@);
                }
            }
            idx = idx + 1;
        }
        proof {
            assert(attrs_rec(aa, pd, num_pieces as int, codes.deep_view()) == AttrOut {
                codes: codes.deep_view(),
                bad: Seq::empty(),
            });
            assert(full.codes == codes.deep_view());
            assert(gbad + Seq::<Seq<u8>>::empty() =~= gbad);
            assert(full.bad == gbad);
            assert(w == src.subrange(toks[i + 1].start as int, toks[i + 1].end as int));
            assert(pd == split_codes(w));
            assert(a_out.mistakes == bad_attr_mistakes(full.bad, i + 1));
        }
        if codes_ok {
            let sorted = sort_codes_exec(codes);
            let ghost nn = self.nodes@;
            self.nodes.push(Node::AttrList(sorted));
            proof {
                lemma_nodes_view_push(nn, Node::AttrList(sorted));
                assert(full.bad =~= Seq::<Seq<u8>>::empty());
                assert(a_out.nodes == seq![NodeSpec::AttrList(sort_codes(full.codes))]);
            }
        } else {
            proof {
                assert(full.bad.len() > 0);
                assert(a_out.nodes =~= Seq::<NodeSpec>::empty());
            }
        }
        let _ntoks = self.tokens.len();
        self.current = self.current + 1;
        proof {
            assert(angle_advance(toks, i + 1) == i + 2);
            assert(nodes_view(self.nodes@) =~= nodes_view(n0) + o1.nodes + a_out.nodes);
            assert(mistakes_view(self.mistakes@) =~= mistakes_view(m0) + o1.mistakes
                + a_out.mistakes);
            self.assemble_angle(config@, src, toks, i, st0, st1, o1, a_out, n0, m0);
        }
    }

    /// Assembles the contract of [`Self::parse_open_angle`] from the
    /// bracket part `o1` and the attribute part `a_out` already reflected
    /// in the gathered nodes and mistakes.
    proof fn assemble_angle(
        &self,
        cfg: ConfigModel,
        src: Seq<u8>,
        toks: Seq<Token>,
        i: int,
        st0: DelimState,
        st1: DelimState,
        o1: StepOut,
        a_out: StepOut,
        n0: Seq<Node>,
        m0: Seq<Mistake>,
    )
        requires
            0 <= i < toks.len(),
            toks[i].kind == TokenKind::Open(DelimKind::Angle),
            self.current == angle_advance(toks, i + 1),
            self.st() == st1,
            st1 == (match get_open(st0, DelimKind::Angle) {
                Option::Some(j) => st0,
                Option::None => set_open(st0, DelimKind::Angle, i),
            }),
            o1 == (match get_open(st0, DelimKind::Angle) {
                Option::Some(j) => StepOut {
                    nodes: Seq::<NodeSpec>::empty(),
                    mistakes: seq![
                        MistakeSpec::NestedDelim {
                            kind: DelimKind::Angle,
                            outermost_start: j,
                            at: i,
                        },
                    ],
                },
                Option::None => StepOut {
                    nodes: seq![NodeSpec::Open(DelimKind::Angle)],
                    mistakes: Seq::<MistakeSpec>::empty(),
                },
            }),
            a_out == angle_attr_out(cfg, src, toks, i + 1),
            nodes_view(self.nodes@) == nodes_view(n0) + o1.nodes + a_out.nodes,
            mistakes_view(self.mistakes@) == mistakes_view(m0) + o1.mistakes + a_out.mistakes,
        ensures
            nodes_view(n0) + parse_from(cfg, src, toks, i, st0).nodes == nodes_view(
                self.nodes@,
            ) + parse_from(cfg, src, toks, self.current as int, self.st()).nodes,
            mistakes_view(m0) + parse_from(cfg, src, toks, i, st0).mistakes == mistakes_view(
                self.mistakes@,
            ) + parse_from(cfg, src, toks, self.current as int, self.st()).mistakes,
    {
        let rest = parse_from(cfg, src, toks, angle_advance(toks, i + 1), st1);
        assert(parse_from(cfg, src, toks, i, st0) == StepOut {
            nodes: o1.nodes + a_out.nodes + rest.nodes,
            mistakes: o1.mistakes + a_out.mistakes + rest.mistakes,
        });
        assert(nodes_view(n0) + (o1.nodes + a_out.nodes + rest.nodes) =~= (nodes_view(n0)
            + o1.nodes + a_out.nodes) + rest.nodes);
        assert(mistakes_view(m0) + (o1.mistakes + a_out.mistakes + rest.mistakes)
            =~= (mistakes_view(m0) + o1.mistakes + a_out.mistakes) + rest.mistakes);
    }

    /// Handles `>`.
    fn parse_close_angle(&mut self, config: &ParserConfig)
        requires
            old(self).wf(),
            old(self).current < old(self).tokens@.len(),
            old(self).tokens@[old(self).current as int].kind == TokenKind::Close(
                DelimKind::Angle,
            ),
        ensures
            final(self).wf(),
            final(self).source@ == old(self).source@,
            final(self).tokens@ == old(self).tokens@,
            old(self).current < final(self).current <= final(self).tokens@.len(),
            nodes_view(old(self).nodes@) + parse_from(
                config@,
                final(self).source@,
                final(self).tokens@,
                old(self).current as int,
                old(self).st(),
            ).nodes == nodes_view(final(self).nodes@) + parse_from(
                config@,
                final(self).source@,
                final(self).tokens@,
                final(self).current as int,
                final(self).st(),
            ).nodes,
            mistakes_view(old(self).mistakes@) + parse_from(
                config@,
                final(self).source@,
                final(self).tokens@,
                old(self).current as int,
                old(self).st(),
            ).mistakes == mistakes_view(final(self).mistakes@) + parse_from(
                config@,
                final(self).source@,
                final(self).tokens@,
                final(self).current as int,
                final(self).st(),
            ).mistakes,
    {
        self.parse_close_plain(config, DelimKind::Angle);
    }
}

/// The number of entries of `s` satisfying `pred`.
pub open spec fn count_where<T>(s: Seq<T>, pred: spec_fn(T) -> bool) -> int
    decreases s.len(),
{
    if s.len() == 0 {
        0
    } else {
        (if pred(s[0]) {
            1int
        } else {
            0int
        }) + count_where(s.skip(1), pred)
    }
}

/// Counting distributes over concatenation.
proof fn lemma_count_where_add<T>(a: Seq<T>, b: Seq<T>, pred: spec_fn(T) -> bool)
    ensures
        count_where(a + b, pred) == count_where(a, pred) + count_where(b, pred),
    decreases a.len(),
{
    if a.len() == 0 {
        assert(a + b =~= b);
    } else {
        assert((a + b).skip(1) =~= a.skip(1) + b);
        assert((a + b)[0] == a[0]);
        lemma_count_where_add(a.skip(1), b, pred);
    }
}

/// The count of a one-entry sequence.
proof fn lemma_count_where_singleton<T>(x: T, pred: spec_fn(T) -> bool)
    ensures
        count_where(seq![x], pred) == (if pred(x) {
            1int
        } else {
            0int
        }),
{
    assert(seq![x].skip(1) =~= Seq::<T>::empty());
    assert(count_where(Seq::<T>::empty(), pred) == 0);
    assert(seq![x][0] == x);
}

/// A sequence with no satisfying entry counts zero.
proof fn lemma_count_where_zero<T>(s: Seq<T>, pred: spec_fn(T) -> bool)
    requires
        forall|j: int| 0 <= j < s.len() ==> !pred(#[trigger] s[j]),
    ensures
        count_where(s, pred) == 0,
    decreases s.len(),
{
    if s.len() > 0 {
        assert(forall|j: int| 0 <= j < s.skip(1).len() ==> s.skip(1)[j] == s[j + 1]);
        lemma_count_where_zero(s.skip(1), pred);
    }
}

/// Whether a node is an accepted opening bracket of kind `k`.
pub open spec fn is_open_node(n: NodeSpec, k: DelimKind) -> bool {
    match n {
        NodeSpec::Open(kk) => kk == k,
        _ => false,
    }
}

/// Whether a node is an accepted closing bracket of kind `k`.
pub open spec fn is_close_node(n: NodeSpec, k: DelimKind) -> bool {
    match n {
        NodeSpec::Close(kk) => kk == k,
        _ => false,
    }
}

/// Whether a mistake reports an unclosed bracket of kind `k`.
pub open spec fn is_unclosed_mistake(m: MistakeSpec, k: DelimKind) -> bool {
    match m {
        MistakeSpec::UnclosedDelim { kind, at } => kind == k,
        _ => false,
    }
}

/// The number of accepted opening brackets of kind `k` among the nodes.
pub open spec fn count_open(nodes: Seq<NodeSpec>, k: DelimKind) -> int {
    count_where(nodes, |n: NodeSpec| is_open_node(n, k))
}

/// The number of accepted closing brackets of kind `k` among the nodes.
pub open spec fn count_close(nodes: Seq<NodeSpec>, k: DelimKind) -> int {
    count_where(nodes, |n: NodeSpec| is_close_node(n, k))
}

/// The number of unclosed-bracket reports of kind `k` among the mistakes.
pub open spec fn count_unclosed(mistakes: Seq<MistakeSpec>, k: DelimKind) -> int {
    count_where(mistakes, |m: MistakeSpec| is_unclosed_mistake(m, k))
}

/// One when the state holds an open bracket of kind `k`, else zero.
pub open spec fn open_count_of_state(st: DelimState, k: DelimKind) -> int {
    if get_open(st, k) is Some {
        1
    } else {
        0
    }
}

/// The balance bookkeeping of one pass from any position and state: the
/// accepted opens of a kind, plus one for a bracket of that kind already
/// open, equal the accepted closes plus the unclosed reports.
proof fn lemma_balance_from(
    cfg: ConfigModel,
    src: Seq<u8>,
    toks: Seq<Token>,
    i: int,
    st: DelimState,
    k: DelimKind,
)
    ensures
        ({
            let out = parse_from(cfg, src, toks, i, st);
            count_open(out.nodes, k) + open_count_of_state(st, k) == count_close(out.nodes, k)
                + count_unclosed(out.mistakes, k)
        }),
    decreases toks.len() - i,
{
    let out = parse_from(cfg, src, toks, i, st);
    let po = |n: NodeSpec| is_open_node(n, k);
    let pc = |n: NodeSpec| is_close_node(n, k);
    let pu = |m: MistakeSpec| is_unclosed_mistake(m, k);
    if i < 0 || i >= toks.len() {
        let mr: Seq<MistakeSpec> = match st.round {
            Option::Some(at) => seq![
                MistakeSpec::UnclosedDelim { kind: DelimKind::Round, at },
            ],
            Option::None => Seq::empty(),
        };
        let ms: Seq<MistakeSpec> = match st.square {
            Option::Some(at) => seq![
                MistakeSpec::UnclosedDelim { kind: DelimKind::Square, at },
            ],
            Option::None => Seq::empty(),
        };
        let ma: Seq<MistakeSpec> = match st.angle {
            Option::Some(at) => seq![
                MistakeSpec::UnclosedDelim { kind: DelimKind::Angle, at },
            ],
            Option::None => Seq::empty(),
        };
        assert(out.mistakes == mr + ms + ma);
        lemma_count_where_add(mr + ms, ma, pu);
        lemma_count_where_add(mr, ms, pu);
        lemma_count_seq_opt(st.round, DelimKind::Round, k);
        lemma_count_seq_opt(st.square, DelimKind::Square, k);
        lemma_count_seq_opt(st.angle, DelimKind::Angle, k);
    } else {
        let t = toks[i];
        match t.kind {
            TokenKind::NonDelim => {
                let w = src.subrange(t.start as int, t.end as int);
                let o = word_out(cfg, w, t, i, st.round is Some);
                let rest = parse_from(cfg, src, toks, i + 1, st);
                lemma_balance_from(cfg, src, toks, i + 1, st, k);
                lemma_count_where_add(o.nodes, rest.nodes, po);
                lemma_count_where_add(o.nodes, rest.nodes, pc);
                lemma_count_where_add(o.mistakes, rest.mistakes, pu);
                assert(forall|j: int| 0 <= j < o.nodes.len() ==> !po(#[trigger] o.nodes[j]));
                assert(forall|j: int| 0 <= j < o.nodes.len() ==> !pc(#[trigger] o.nodes[j]));
                assert(forall|j: int|
                    0 <= j < o.mistakes.len() ==> !pu(#[trigger] o.mistakes[j])) by {
                    if o.mistakes.len() > 0 && !has_digit(w) && !list_matches(cfg.whitelist, w)
                        && !list_matches(cfg.blacklist, w) {
                        assert(forall|j: int|
                            0 <= j < o.mistakes.len() ==> #[trigger] o.mistakes[j]
                                == gap_mistakes(word_gaps(cfg.atoms, w), i)[j]);
                    }
                }
                lemma_count_where_zero(o.nodes, po);
                lemma_count_where_zero(o.nodes, pc);
                lemma_count_where_zero(o.mistakes, pu);
            },
            TokenKind::Open(k2) => {
                let o1 = match get_open(st, k2) {
                    Option::Some(j) => StepOut {
                        nodes: Seq::<NodeSpec>::empty(),
                        mistakes: seq![
                            MistakeSpec::NestedDelim { kind: k2, outermost_start: j, at: i },
                        ],
                    },
                    Option::None => StepOut {
                        nodes: seq![NodeSpec::Open(k2)],
                        mistakes: Seq::<MistakeSpec>::empty(),
                    },
                };
                let st1 = match get_open(st, k2) {
                    Option::Some(j) => st,
                    Option::None => set_open(st, k2, i),
                };
                lemma_count_opt_parts(o1, k2, st, st1, i, k);
                if k2 == DelimKind::Angle {
                    let o2 = angle_attr_out(cfg, src, toks, i + 1);
                    let adv = angle_advance(toks, i + 1);
                    let rest = parse_from(cfg, src, toks, adv, st1);
                    lemma_balance_from(cfg, src, toks, adv, st1, k);
                    lemma_count_where_add(o1.nodes + o2.nodes, rest.nodes, po);
                    lemma_count_where_add(o1.nodes, o2.nodes, po);
                    lemma_count_where_add(o1.nodes + o2.nodes, rest.nodes, pc);
                    lemma_count_where_add(o1.nodes, o2.nodes, pc);
                    lemma_count_where_add(o1.mistakes + o2.mistakes, rest.mistakes, pu);
                    lemma_count_where_add(o1.mistakes, o2.mistakes, pu);
                    assert(forall|j: int|
                        0 <= j < o2.nodes.len() ==> !po(#[trigger] o2.nodes[j]));
                    assert(forall|j: int|
                        0 <= j < o2.nodes.len() ==> !pc(#[trigger] o2.nodes[j]));
                    assert(forall|j: int|
                        0 <= j < o2.mistakes.len() ==> !pu(#[trigger] o2.mistakes[j])) by {
                        if i + 1 < toks.len() && toks[i + 1].kind == TokenKind::NonDelim {
                            let w2 = src.subrange(
                                toks[i + 1].start as int,
                                toks[i + 1].end as int,
                            );
                            let a = collect_attrs(cfg.after_angle, split_codes(w2));
                            assert(forall|j: int|
                                0 <= j < o2.mistakes.len() ==> #[trigger] o2.mistakes[j]
                                    == bad_attr_mistakes(a.bad, i + 1)[j]);
                        }
                    }
                    lemma_count_where_zero(o2.nodes, po);
                    lemma_count_where_zero(o2.nodes, pc);
                    lemma_count_where_zero(o2.mistakes, pu);
                } else {
                    let rest = parse_from(cfg, src, toks, i + 1, st1);
                    lemma_balance_from(cfg, src, toks, i + 1, st1, k);
                    lemma_count_where_add(o1.nodes, rest.nodes, po);
                    lemma_count_where_add(o1.nodes, rest.nodes, pc);
                    lemma_count_where_add(o1.mistakes, rest.mistakes, pu);
                }
            },
            TokenKind::Close(k2) => {
                match get_open(st, k2) {
                    Option::Some(j) => {
                        let st1 = clear_open(st, k2);
                        let rest = parse_from(cfg, src, toks, i + 1, st1);
                        lemma_balance_from(cfg, src, toks, i + 1, st1, k);
                        lemma_count_where_add(seq![NodeSpec::Close(k2)], rest.nodes, po);
                        lemma_count_where_add(seq![NodeSpec::Close(k2)], rest.nodes, pc);
                        lemma_count_where_singleton(NodeSpec::Close(k2), po);
                        lemma_count_where_singleton(NodeSpec::Close(k2), pc);
                    },
                    Option::None => {
                        let rest = parse_from(cfg, src, toks, i + 1, st);
                        lemma_balance_from(cfg, src, toks, i + 1, st, k);
                        lemma_count_where_add(
                            seq![MistakeSpec::ClosingUnopenedDelim { kind: k2, at: i }],
                            rest.mistakes,
                            pu,
                        );
                        lemma_count_where_singleton(
                            MistakeSpec::ClosingUnopenedDelim { kind: k2, at: i },
                            pu,
                        );
                    },
                }
            },
        }
    }
}

/// The unclosed count of one flush part matches the state slot it comes
/// from.
proof fn lemma_count_seq_opt(slot: Option<int>, kind: DelimKind, k: DelimKind)
    ensures
        ({
            let s: Seq<MistakeSpec> = match slot {
                Option::Some(at) => seq![MistakeSpec::UnclosedDelim { kind, at }],
                Option::None => Seq::empty(),
            };
            count_where(s, |m: MistakeSpec| is_unclosed_mistake(m, k)) == (
            if slot is Some && kind == k {
                1int
            } else {
                0int
            })
        }),
{
    let pu = |m: MistakeSpec| is_unclosed_mistake(m, k);
    match slot {
        Option::Some(at) => {
            lemma_count_where_singleton(MistakeSpec::UnclosedDelim { kind, at }, pu);
        },
        Option::None => {
        },
    }
}

/// The bracket part of an open step balances against the state change it
/// makes.
proof fn lemma_count_opt_parts(o1: StepOut, k2: DelimKind, st: DelimState, st1: DelimState, i: int, k: DelimKind)
    requires
        o1 == (match get_open(st, k2) {
            Option::Some(j) => StepOut {
                nodes: Seq::<NodeSpec>::empty(),
                mistakes: seq![
                    MistakeSpec::NestedDelim { kind: k2, outermost_start: j, at: i },
                ],
            },
            Option::None => StepOut {
                nodes: seq![NodeSpec::Open(k2)],
                mistakes: Seq::<MistakeSpec>::empty(),
            },
        }),
        st1 == (match get_open(st, k2) {
            Option::Some(j) => st,
            Option::None => set_open(st, k2, i),
        }),
    ensures
        count_where(o1.nodes, |n: NodeSpec| is_open_node(n, k)) + open_count_of_state(st, k)
            == open_count_of_state(st1, k),
        count_where(o1.nodes, |n: NodeSpec| is_close_node(n, k)) == 0,
        count_where(o1.mistakes, |m: MistakeSpec| is_unclosed_mistake(m, k)) == 0,
{
    let po = |n: NodeSpec| is_open_node(n, k);
    let pc = |n: NodeSpec| is_close_node(n, k);
    let pu = |m: MistakeSpec| is_unclosed_mistake(m, k);
    match get_open(st, k2) {
        Option::Some(j) => {
            lemma_count_where_singleton(
                MistakeSpec::NestedDelim { kind: k2, outermost_start: j, at: i },
                pu,
            );
        },
        Option::None => {
            lemma_count_where_singleton(NodeSpec::Open(k2), po);
            lemma_count_where_singleton(NodeSpec::Open(k2), pc);
        },
    }
}

/// Delimiter balance: for any kind, the accepted opens equal the accepted
/// closes plus the unclosed-bracket reports; in particular, a mistake-free
/// result has as many accepted closes as opens of every kind.
pub proof fn lemma_delimiter_balance(cfg: ConfigModel, src: Seq<u8>, toks: Seq<Token>, k: DelimKind)
    ensures
        ({
            let out = parse_spec(cfg, src, toks);
            count_open(out.nodes, k) == count_close(out.nodes, k) + count_unclosed(
                out.mistakes,
                k,
            )
        }),
{
    lemma_balance_from(cfg, src, toks, 0, init_state(), k);
}

/// A mistake-free validation leaves no bracket open: the accepted opens
/// and closes of every kind agree exactly.
pub proof fn lemma_balance_mistake_free(cfg: ConfigModel, src: Seq<u8>, toks: Seq<Token>, k: DelimKind)
    requires
        parse_spec(cfg, src, toks).mistakes.len() == 0,
    ensures
        count_open(parse_spec(cfg, src, toks).nodes, k) == count_close(
            parse_spec(cfg, src, toks).nodes,
            k,
        ),
{
    lemma_delimiter_balance(cfg, src, toks, k);
    let out = parse_spec(cfg, src, toks);
    lemma_count_where_zero(out.mistakes, |m: MistakeSpec| is_unclosed_mistake(m, k));
}

/// The codes are in ascending `bytes_le` order.
pub open spec fn codes_sorted(s: Seq<Seq<u8>>) -> bool {
    forall|a: int, b: int|
        #![trigger s[a], s[b]]
        0 <= a < b < s.len() ==> bytes_le(s[a], s[b])
}

/// No code appears twice.
pub open spec fn codes_distinct(s: Seq<Seq<u8>>) -> bool {
    forall|a: int, b: int|
        #![trigger s[a], s[b]]
        0 <= a < b < s.len() ==> s[a] != s[b]
}

/// Some piece at or after `i` equals `y`.
pub open spec fn occurs_from(pieces: Seq<Seq<u8>>, i: int, y: Seq<u8>) -> bool {
    exists|k: int| i <= k < pieces.len() && #[trigger] pieces[k] == y
}

/// Lexicographic byte order is total.
proof fn lemma_bytes_le_total(a: Seq<u8>, b: Seq<u8>)
    ensures
        bytes_le(a, b) || bytes_le(b, a),
    decreases a.len(),
{
    if a.len() > 0 && b.len() > 0 && a[0] == b[0] {
        lemma_bytes_le_total(a.subrange(1, a.len() as int), b.subrange(1, b.len() as int));
    }
}

/// Lexicographic byte order is transitive.
proof fn lemma_bytes_le_trans(a: Seq<u8>, b: Seq<u8>, c: Seq<u8>)
    requires
        bytes_le(a, b),
        bytes_le(b, c),
    ensures
        bytes_le(a, c),
    decreases a.len(),
{
    if a.len() > 0 {
        assert(b.len() > 0);
        assert(c.len() > 0);
        if a[0] == b[0] && b[0] == c[0] {
            lemma_bytes_le_trans(
                a.subrange(1, a.len() as int),
                b.subrange(1, b.len() as int),
                c.subrange(1, c.len() as int),
            );
        }
    }
}

/// Inserting into a sorted code list keeps it sorted, adds exactly the
/// inserted code, and keeps distinctness when the code is new.
proof fn lemma_insert_sorted_props(x: Seq<u8>, s: Seq<Seq<u8>>)
    requires
        codes_sorted(s),
    ensures
        ({
            let r = insert_sorted(x, s);
            &&& codes_sorted(r)
            &&& r.len() == s.len() + 1
            &&& forall|y: Seq<u8>| r.contains(y) <==> (y == x || s.contains(y))
            &&& ((!s.contains(x) && codes_distinct(s)) ==> codes_distinct(r))
        }),
    decreases s.len(),
{
    let r = insert_sorted(x, s);
    if s.len() == 0 {
        assert(r == seq![x]);
        assert(r[0] == x);
        assert forall|y: Seq<u8>| r.contains(y) implies (y == x || s.contains(y)) by {
            let k = choose|k: int| 0 <= k < r.len() && r[k] == y;
            assert(r[k] == x);
        }
        assert(r.contains(x));
    } else if bytes_le(x, s[0]) {
        assert(r == seq![x] + s);
        assert(r[0] == x);
        assert(forall|k: int| 1 <= k < r.len() ==> r[k] == s[k - 1]);
        assert forall|a: int, b: int|
            #![trigger r[a], r[b]]
            0 <= a < b < r.len() implies bytes_le(r[a], r[b]) by {
            if a == 0 {
                if b == 1 {
                    assert(r[b] == s[0]);
                } else {
                    lemma_bytes_le_trans(x, s[0], s[b - 1]);
                }
            } else {
                assert(r[a] == s[a - 1]);
                assert(r[b] == s[b - 1]);
            }
        }
        assert forall|y: Seq<u8>| r.contains(y) implies (y == x || s.contains(y)) by {
            let k = choose|k: int| 0 <= k < r.len() && r[k] == y;
            if k > 0 {
                assert(s[k - 1] == y);
            }
        }
        assert forall|y: Seq<u8>| (y == x || s.contains(y)) implies r.contains(y) by {
            if y == x {
                assert(r[0] == y);
            } else {
                let k = choose|k: int| 0 <= k < s.len() && s[k] == y;
                assert(r[k + 1] == y);
            }
        }
        if !s.contains(x) && codes_distinct(s) {
            assert forall|a: int, b: int|
                #![trigger r[a], r[b]]
                0 <= a < b < r.len() implies r[a] != r[b] by {
                if a == 0 {
                    assert(r[b] == s[b - 1]);
                    assert(s.contains(s[b - 1]));
                } else {
                    assert(r[a] == s[a - 1]);
                    assert(r[b] == s[b - 1]);
                }
            }
        }
    } else {
        let tail = s.subrange(1, s.len() as int);
        assert(forall|k: int| 0 <= k < tail.len() ==> tail[k] == s[k + 1]);
        assert(codes_sorted(tail)) by {
            assert(forall|a: int, b: int|
                #![trigger tail[a], tail[b]]
                0 <= a < b < tail.len() ==> bytes_le(s[a + 1], s[b + 1]));
        }
        lemma_insert_sorted_props(x, tail);
        let ins = insert_sorted(x, tail);
        assert(r == seq![s[0]] + ins);
        assert(r[0] == s[0]);
        assert(forall|k: int| 1 <= k < r.len() ==> r[k] == ins[k - 1]);
        lemma_bytes_le_total(x, s[0]);
        assert(bytes_le(s[0], x));
        assert forall|a: int, b: int|
            #![trigger r[a], r[b]]
            0 <= a < b < r.len() implies bytes_le(r[a], r[b]) by {
            if a == 0 {
                assert(r[b] == ins[b - 1]);
                assert(ins.contains(ins[b - 1]));
                if ins[b - 1] == x {
                    assert(bytes_le(s[0], x));
                } else {
                    assert(tail.contains(ins[b - 1]));
                    let k = choose|k: int| 0 <= k < tail.len() && tail[k] == ins[b - 1];
                    assert(tail[k] == s[k + 1]);
                    assert(bytes_le(s[0], s[k + 1]));
                }
            } else {
                assert(r[a] == ins[a - 1]);
                assert(r[b] == ins[b - 1]);
            }
        }
        assert forall|y: Seq<u8>| r.contains(y) implies (y == x || s.contains(y)) by {
            let k = choose|k: int| 0 <= k < r.len() && r[k] == y;
            if k == 0 {
                assert(s[0] == y);
            } else {
                assert(ins[k - 1] == y);
                assert(ins.contains(y));
                if y != x {
                    assert(tail.contains(y));
                    let t = choose|t: int| 0 <= t < tail.len() && tail[t] == y;
                    assert(s[t + 1] == y);
                }
            }
        }
        assert forall|y: Seq<u8>| (y == x || s.contains(y)) implies r.contains(y) by {
            if y == x {
                assert(ins.contains(x));
                let k = choose|k: int| 0 <= k < ins.len() && ins[k] == x;
                assert(r[k + 1] == x);
            } else {
                let k = choose|k: int| 0 <= k < s.len() && s[k] == y;
                if k == 0 {
                    assert(r[0] == y);
                } else {
                    assert(tail[k - 1] == y);
                    assert(tail.contains(y));
                    assert(ins.contains(y));
                    let t = choose|t: int| 0 <= t < ins.len() && ins[t] == y;
                    assert(r[t + 1] == y);
                }
            }
        }
        if !s.contains(x) && codes_distinct(s) {
            assert(!tail.contains(x)) by {
                if tail.contains(x) {
                    let k = choose|k: int| 0 <= k < tail.len() && tail[k] == x;
                    assert(s[k + 1] == x);
                }
            }
            assert(codes_distinct(tail)) by {
                assert(forall|a: int, b: int|
                    #![trigger tail[a], tail[b]]
                    0 <= a < b < tail.len() ==> s[a + 1] != s[b + 1]);
            }
            assert forall|a: int, b: int|
                #![trigger r[a], r[b]]
                0 <= a < b < r.len() implies r[a] != r[b] by {
                if a == 0 {
                    assert(r[b] == ins[b - 1]);
                    assert(ins.contains(ins[b - 1]));
                    if ins[b - 1] == x {
                        assert(s.contains(s[0]));
                        assert(s[0] != x);
                    } else {
                        assert(tail.contains(ins[b - 1]));
                        let k = choose|k: int|
                            0 <= k < tail.len() && tail[k] == ins[b - 1];
                        assert(tail[k] == s[k + 1]);
                    }
                } else {
                    assert(r[a] == ins[a - 1]);
                    assert(r[b] == ins[b - 1]);
                }
            }
        }
    }
}

/// Sorting a code list yields an ascending list of the same length with
/// the same codes, and keeps distinctness.
pub proof fn lemma_sort_codes_props(s: Seq<Seq<u8>>)
    ensures
        codes_sorted(sort_codes(s)),
        sort_codes(s).len() == s.len(),
        forall|y: Seq<u8>| sort_codes(s).contains(y) <==> s.contains(y),
        codes_distinct(s) ==> codes_distinct(sort_codes(s)),
    decreases s.len(),
{
    let r = sort_codes(s);
    if s.len() > 0 {
        let tail = s.subrange(1, s.len() as int);
        assert(forall|k: int| 0 <= k < tail.len() ==> tail[k] == s[k + 1]);
        lemma_sort_codes_props(tail);
        if codes_distinct(s) {
            assert(codes_distinct(tail)) by {
                assert(forall|a: int, b: int|
                    #![trigger tail[a], tail[b]]
                    0 <= a < b < tail.len() ==> s[a + 1] != s[b + 1]);
            }
        }
        lemma_insert_sorted_props(s[0], sort_codes(tail));
        assert forall|y: Seq<u8>| r.contains(y) implies s.contains(y) by {
            if y == s[0] {
                assert(s.contains(s[0]));
            } else {
                assert(sort_codes(tail).contains(y));
                assert(tail.contains(y));
                let k = choose|k: int| 0 <= k < tail.len() && tail[k] == y;
                assert(s[k + 1] == y);
            }
        }
        assert forall|y: Seq<u8>| s.contains(y) implies r.contains(y) by {
            let k = choose|k: int| 0 <= k < s.len() && s[k] == y;
            if k == 0 {
            } else {
                assert(tail[k - 1] == y);
                assert(tail.contains(y));
                assert(sort_codes(tail).contains(y));
            }
        }
        if codes_distinct(s) {
            assert(!tail.contains(s[0])) by {
                if tail.contains(s[0]) {
                    let k = choose|k: int| 0 <= k < tail.len() && tail[k] == s[0];
                    assert(s[k + 1] == s[0]);
                }
            }
            assert(!sort_codes(tail).contains(s[0]));
        }
    }
}

/// Reading an attribute code list collects only allowed, nonempty,
/// pairwise distinct codes, and collects exactly the pieces that are
/// allowed and nonempty.
proof fn lemma_attrs_rec_props(aa: Seq<Seq<u8>>, pieces: Seq<Seq<u8>>, i: int, acc: Seq<Seq<u8>>)
    requires
        0 <= i <= pieces.len(),
        codes_distinct(acc),
        forall|k: int|
            0 <= k < acc.len() ==> (#[trigger] acc[k]).len() > 0 && list_matches(aa, acc[k]),
    ensures
        ({
            let out = attrs_rec(aa, pieces, i, acc).codes;
            &&& codes_distinct(out)
            &&& forall|k: int|
                0 <= k < out.len() ==> (#[trigger] out[k]).len() > 0 && list_matches(
                    aa,
                    out[k],
                )
            &&& forall|y: Seq<u8>|
                out.contains(y) <==> (acc.contains(y) || (occurs_from(pieces, i, y)
                    && list_matches(aa, y) && y.len() > 0))
        }),
    decreases pieces.len() - i,
{
    let out = attrs_rec(aa, pieces, i, acc).codes;
    if i >= pieces.len() {
        assert forall|y: Seq<u8>|
            out.contains(y) implies (acc.contains(y) || (occurs_from(pieces, i, y)
            && list_matches(aa, y) && y.len() > 0)) by {}
    } else {
        let p = pieces[i];
        if list_matches(aa, p) {
            if p.len() == 0 || acc.contains(p) {
                lemma_attrs_rec_props(aa, pieces, i + 1, acc);
                assert forall|y: Seq<u8>|
                    (acc.contains(y) || (occurs_from(pieces, i, y) && list_matches(aa, y)
                    && y.len() > 0)) implies out.contains(y) by {
                    if !acc.contains(y) && occurs_from(pieces, i, y) && list_matches(aa, y)
                        && y.len() > 0 {
                        let k = choose|k: int|
                            i <= k < pieces.len() && #[trigger] pieces[k] == y;
                        if k == i {
                            assert(y == p);
                            assert(acc.contains(y));
                        } else {
                            assert(occurs_from(pieces, i + 1, y));
                        }
                    }
                }
            } else {
                let acc2 = acc.push(p);
                assert(acc2[acc.len() as int] == p);
                assert(forall|k: int| 0 <= k < acc.len() ==> acc2[k] == acc[k]);
                assert forall|y: Seq<u8>|
                    acc2.contains(y) implies (acc.contains(y) || y == p) by {
                    let k = choose|k: int| 0 <= k < acc2.len() && acc2[k] == y;
                    if k < acc.len() {
                        assert(acc[k] == y);
                    }
                }
                assert(codes_distinct(acc2)) by {
                    assert forall|a: int, b: int|
                        #![trigger acc2[a], acc2[b]]
                        0 <= a < b < acc2.len() implies acc2[a] != acc2[b] by {
                        if b == acc.len() {
                            assert(acc2[a] == acc[a]);
                            assert(acc.contains(acc[a]));
                        } else {
                            assert(acc2[a] == acc[a]);
                            assert(acc2[b] == acc[b]);
                        }
                    }
                }
                lemma_attrs_rec_props(aa, pieces, i + 1, acc2);
                assert forall|y: Seq<u8>|
                    out.contains(y) implies (acc.contains(y) || (occurs_from(pieces, i, y)
                    && list_matches(aa, y) && y.len() > 0)) by {
                    if acc2.contains(y) && !acc.contains(y) {
                        assert(y == p);
                        assert(pieces[i] == y);
                    } else if !acc2.contains(y) {
                        assert(occurs_from(pieces, i + 1, y) && list_matches(aa, y)
                            && y.len() > 0);
                        let k = choose|k: int|
                            i + 1 <= k < pieces.len() && #[trigger] pieces[k] == y;
                        assert(i <= k < pieces.len());
                    }
                }
                assert forall|y: Seq<u8>|
                    (acc.contains(y) || (occurs_from(pieces, i, y) && list_matches(aa, y)
                    && y.len() > 0)) implies out.contains(y) by {
                    if acc.contains(y) {
                        let k = choose|k: int| 0 <= k < acc.len() && acc[k] == y;
                        assert(acc2[k] == y);
                        assert(acc2.contains(y));
                    } else if occurs_from(pieces, i, y) && list_matches(aa, y) && y.len()
                        > 0 {
                        let k = choose|k: int|
                            i <= k < pieces.len() && #[trigger] pieces[k] == y;
                        if k == i {
                            assert(y == p);
                            assert(acc2.contains(p));
                        } else {
                            assert(occurs_from(pieces, i + 1, y));
                        }
                    }
                }
            }
        } else {
            lemma_attrs_rec_props(aa, pieces, i + 1, acc);
            assert forall|y: Seq<u8>|
                (acc.contains(y) || (occurs_from(pieces, i, y) && list_matches(aa, y)
                && y.len() > 0)) implies out.contains(y) by {
                if !acc.contains(y) && occurs_from(pieces, i, y) && list_matches(aa, y)
                    && y.len() > 0 {
                    let k = choose|k: int| i <= k < pieces.len() && #[trigger] pieces[k] == y;
                    assert(k != i);
                    assert(occurs_from(pieces, i + 1, y));
                }
            }
        }
    }
}

/// The normal form of an accepted attribute list: splitting a code token,
/// reading its pieces and sorting the result yields a sequence that is
/// sorted ascending, duplicate-free, and holds exactly the allowed,
/// nonempty codes that occur among the pieces.
pub proof fn lemma_attr_list_normal_form(aa: Seq<Seq<u8>>, pieces: Seq<Seq<u8>>)
    ensures
        ({
            let sorted = sort_codes(collect_attrs(aa, pieces).codes);
            &&& codes_sorted(sorted)
            &&& codes_distinct(sorted)
            &&& forall|y: Seq<u8>|
                sorted.contains(y) <==> (occurs_from(pieces, 0, y) && list_matches(aa, y)
                    && y.len() > 0)
        }),
{
    assert(codes_distinct(Seq::<Seq<u8>>::empty()));
    lemma_attrs_rec_props(aa, pieces, 0, Seq::empty());
    let codes = collect_attrs(aa, pieces).codes;
    let sorted = sort_codes(codes);
    lemma_sort_codes_props(codes);
    assert forall|y: Seq<u8>|
        sorted.contains(y) <==> (occurs_from(pieces, 0, y) && list_matches(aa, y) && y.len()
        > 0) by {
        assert(sorted.contains(y) <==> codes.contains(y));
        assert(codes.contains(y) <==> (Seq::<Seq<u8>>::empty().contains(y) || (occurs_from(
            pieces,
            0,
            y,
        ) && list_matches(aa, y) && y.len() > 0)));
        assert(!Seq::<Seq<u8>>::empty().contains(y));
    }
}

/// Validation is a pure function of the configuration model, the source
/// and the tokens: two runs on equal inputs yield byte-for-byte equal node
/// and mistake sequences. Together with the contract of
/// [`Parser::parse`], which pins its output to [`parse_spec`], re-running
/// validation can never reorder or change a result.
pub proof fn lemma_validation_deterministic(
    cfg1: ConfigModel,
    cfg2: ConfigModel,
    src1: Seq<u8>,
    src2: Seq<u8>,
    toks1: Seq<Token>,
    toks2: Seq<Token>,
)
    requires
        cfg1 == cfg2,
        src1 == src2,
        toks1 == toks2,
    ensures
        parse_spec(cfg1, src1, toks1) == parse_spec(cfg2, src2, toks2),
{
}

} // verus!
