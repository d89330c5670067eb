//! Detect token boundaries in a transcribed segment.
//!
//! Tokenization is deliberately coarse: it only divides the input into
//! bracket tokens and maximal runs of other non-space bytes (cf.
//! [`TokenKind`]). It detects no mistakes, not even whether tokens consist
//! of allowed byte sequences; all checking happens during parsing, so that
//! every mistake in a segment is collected in one place and one bad token
//! never prevents the rest from being analyzed.
//!
//! Whitespace is normalized before tokenization — runs collapse to a single
//! space and the ends are trimmed — since whitespace irregularities are not
//! something transcribers should fix by hand. All token offsets refer to
//! the normalized text.
use vstd::prelude::*;
use crate::token::{DelimKind, Token, TokenKind, Tokenized};

verus! {

/// ASCII whitespace: space, tab, line feed, vertical tab, form feed,
/// carriage return.
pub open spec fn is_ws(b: u8) -> bool {
    b == 32 || b == 9 || b == 10 || b == 11 || b == 12 || b == 13
}

/// One of the six bracket bytes `( ) [ ] < >`.
pub open spec fn is_delim(b: u8) -> bool {
    b == 40 || b == 41 || b == 91 || b == 93 || b == 60 || b == 62
}

/// The token kind of a bracket byte; meaningful only when `is_delim(b)`.
pub open spec fn delim_kind_of(b: u8) -> TokenKind {
    if b == 40 {
        TokenKind::Open(DelimKind::Round)
    } else if b == 41 {
        TokenKind::Close(DelimKind::Round)
    } else if b == 91 {
        TokenKind::Open(DelimKind::Square)
    } else if b == 93 {
        TokenKind::Close(DelimKind::Square)
    } else if b == 60 {
        TokenKind::Open(DelimKind::Angle)
    } else {
        TokenKind::Close(DelimKind::Angle)
    }
}

/// The byte length of the Unicode whitespace character starting at `i`,
/// zero when none starts there: one for an ASCII whitespace byte, else
/// the UTF-8 length of next line, no-break space, ogham space mark, the
/// en-quad to hair-space range, line and paragraph separator, narrow
/// no-break space, medium mathematical space, or ideographic space.
pub open spec fn ws_len_at(s: Seq<u8>, i: int) -> int {
    if i < 0 || i >= s.len() {
        0
    } else if is_ws(s[i]) {
        1
    } else if s[i] == 0xc2 && i + 1 < s.len() && (s[i + 1] == 0x85 || s[i + 1] == 0xa0) {
        2
    } else if s[i] == 0xe1 && i + 2 < s.len() && s[i + 1] == 0x9a && s[i + 2] == 0x80 {
        3
    } else if s[i] == 0xe2 && i + 2 < s.len() && s[i + 1] == 0x80 && (0x80 <= s[i + 2]
        <= 0x8a || s[i + 2] == 0xa8 || s[i + 2] == 0xa9 || s[i + 2] == 0xaf) {
        3
    } else if s[i] == 0xe2 && i + 2 < s.len() && s[i + 1] == 0x81 && s[i + 2] == 0x9f {
        3
    } else if s[i] == 0xe3 && i + 2 < s.len() && s[i + 1] == 0x80 && s[i + 2] == 0x80 {
        3
    } else {
        0
    }
}

/// The first position at or after `i` where no whitespace character
/// starts.
pub open spec fn skip_ws_from(s: Seq<u8>, i: int) -> int
    decreases s.len() - i,
{
    if i < 0 || i >= s.len() {
        i
    } else if ws_len_at(s, i) > 0 {
        skip_ws_from(s, i + ws_len_at(s, i))
    } else {
        i
    }
}

/// Whitespace normalization from position `i` on: whitespace runs collapse
/// to a single space, a trailing run vanishes. `pend` records that a
/// whitespace run is waiting to be emitted as one space before the next
/// non-whitespace byte.
pub open spec fn norm_core(s: Seq<u8>, i: int, pend: bool) -> Seq<u8>
    decreases s.len() - i,
{
    if i < 0 || i >= s.len() {
        Seq::empty()
    } else if ws_len_at(s, i) > 0 {
        norm_core(s, i + ws_len_at(s, i), true)
    } else if pend {
        seq![32u8] + seq![s[i]] + norm_core(s, i + 1, false)
    } else {
        seq![s[i]] + norm_core(s, i + 1, false)
    }
}

/// The whitespace-normalized form of a byte sequence: every whitespace
/// run, including leading and trailing ones, collapses to a single ASCII
/// space, and the ends are trimmed.
pub open spec fn normalize(s: Seq<u8>) -> Seq<u8> {
    norm_core(s, skip_ws_from(s, 0), false)
}

/// A byte sequence in normal form: the only whitespace character in it is
/// the plain space, no two spaces are adjacent, and neither end is a
/// space.
pub open spec fn is_normalized(s: Seq<u8>) -> bool {
    &&& forall|j: int| 0 <= j < s.len() && #[trigger] ws_len_at(s, j) > 0 ==> s[j] == 32
    &&& forall|j: int| 0 <= j < s.len() - 1 ==> !((#[trigger] s[j]) == 32 && s[j + 1] == 32)
    &&& (s.len() > 0 ==> s[0] != 32 && s[s.len() - 1] != 32)
}

/// The token ending at `i` of a word that began at `start`, if one is open.
pub open spec fn flush_word(start: Option<int>, i: int) -> Seq<Token> {
    match start {
        Option::Some(w) => seq![
            Token { kind: TokenKind::NonDelim, start: w as usize, end: i as usize },
        ],
        Option::None => Seq::empty(),
    }
}

/// The tokens of `s` from position `i` on, with `wstart` the start of the
/// word run currently open, if any. Bracket bytes become one-byte tokens of
/// their kind, other non-space bytes gather into maximal `NonDelim` runs,
/// and spaces only separate.
pub open spec fn toks_rec(s: Seq<u8>, i: int, wstart: Option<int>) -> Seq<Token>
    decreases s.len() - i,
{
    if i < 0 {
        Seq::empty()
    } else if i >= s.len() {
        flush_word(wstart, i)
    } else if is_ws(s[i]) {
        flush_word(wstart, i) + toks_rec(s, i + 1, Option::None)
    } else if is_delim(s[i]) {
        flush_word(wstart, i) + seq![
            Token { kind: delim_kind_of(s[i]), start: i as usize, end: (i + 1) as usize },
        ] + toks_rec(s, i + 1, Option::None)
    } else {
        match wstart {
            Option::Some(w) => toks_rec(s, i + 1, Option::Some(w)),
            Option::None => toks_rec(s, i + 1, Option::Some(i)),
        }
    }
}

/// The token sequence of a byte sequence, scanned left to right.
pub open spec fn spec_tokens(s: Seq<u8>) -> Seq<Token> {
    toks_rec(s, 0, Option::None)
}

/// Whether `b` is a whitespace byte.
fn is_ws_byte(b: u8) -> (r: bool)
    ensures
        r == is_ws(b),
{
    b == 32 || b == 9 || b == 10 || b == 11 || b == 12 || b == 13
}

/// The kind of the one-byte token a bracket byte forms; `NonDelim` for any
/// other byte.
fn token_kind_of(b: u8) -> (k: TokenKind)
    ensures
        is_delim(b) ==> k == delim_kind_of(b),
        !is_delim(b) ==> k == TokenKind::NonDelim,
{
    if b == 40 {
        TokenKind::Open(DelimKind::Round)
    } else if b == 41 {
        TokenKind::Close(DelimKind::Round)
    } else if b == 91 {
        TokenKind::Open(DelimKind::Square)
    } else if b == 93 {
        TokenKind::Close(DelimKind::Square)
    } else if b == 60 {
        TokenKind::Open(DelimKind::Angle)
    } else if b == 62 {
        TokenKind::Close(DelimKind::Angle)
    } else {
        TokenKind::NonDelim
    }
}

/// The byte length of the whitespace character starting at `i` in the
/// slice, zero when none starts there.
fn ws_prefix_len(s: &[u8], i: usize) -> (r: usize)
    requires
        i <= s@.len(),
    ensures
        r as int == ws_len_at(s@, i as int),
        i + r <= s@.len(),
{
    let n = s.len();
    if i >= n {
        return 0;
    }
    let b = s[i];
    if is_ws_byte(b) {
        return 1;
    }
    if n - i > 1 && b == 0xc2 && (s[i + 1] == 0x85 || s[i + 1] == 0xa0) {
        return 2;
    }
    if n - i > 2 {
        let b1 = s[i + 1];
        let b2 = s[i + 2];
        if b == 0xe1 && b1 == 0x9a && b2 == 0x80 {
            return 3;
        }
        if b == 0xe2 && b1 == 0x80 && ((0x80 <= b2 && b2 <= 0x8a) || b2 == 0xa8 || b2
            == 0xa9 || b2 == 0xaf) {
            return 3;
        }
        if b == 0xe2 && b1 == 0x81 && b2 == 0x9f {
            return 3;
        }
        if b == 0xe3 && b1 == 0x80 && b2 == 0x80 {
            return 3;
        }
    }
    0
}

/// Collapses every whitespace run of `source` to a single space and trims
/// both ends.
fn normalize_ws(source: &[u8]) -> (out: Vec<u8>)
    ensures
        out@ == normalize(source@),
{
    let n = source.len();
    let mut i: usize = 0;
    let mut w = ws_prefix_len(source, i);
    while w > 0
        invariant
            0 <= i <= n,
            n == source@.len(),
            w as int == ws_len_at(source@, i as int),
            i + w <= n,
            skip_ws_from(source@, 0) == skip_ws_from(source@, i as int),
        decreases n - i,
    {
        proof {
            assert(skip_ws_from(source@, i as int) == skip_ws_from(source@, i + w));
        }
        i = i + w;
        w = ws_prefix_len(source, i);
    }
    proof {
        assert(skip_ws_from(source@, i as int) == i);
    }
    let mut out: Vec<u8> = Vec::new();
    let mut pend: bool = false;
    let mut j: usize = i;
    while j < n
        invariant
            0 <= j <= n,
            n == source@.len(),
            normalize(source@) == out@ + norm_core(source@, j as int, pend),
        decreases n - j,
    {
        let ghost out0 = out@;
        let ghost pend0 = pend;
        let w = ws_prefix_len(source, j);
        if w > 0 {
            pend = true;
            proof {
                assert(norm_core(source@, j as int, pend0) == norm_core(
                    source@,
                    j + w,
                    true,
                ));
            }
            j = j + w;
        } else {
            let b = source[j];
            if pend {
                out.push(32u8);
                out.push(b);
                pend = false;
                proof {
                    assert(out@ =~= out0 + seq![32u8] + seq![b]);
                    assert(out0 + norm_core(source@, j as int, true) =~= out@ + norm_core(
                        source@,
                        j + 1,
                        false,
                    ));
                }
            } else {
                out.push(b);
                proof {
                    assert(out@ =~= out0 + seq![b]);
                    assert(out0 + norm_core(source@, j as int, false) =~= out@ + norm_core(
                        source@,
                        j + 1,
                        false,
                    ));
                }
            }
            j = j + 1;
        }
    }
    proof {
        assert(norm_core(source@, n as int, pend) =~= Seq::<u8>::empty());
        assert(out@ + Seq::<u8>::empty() =~= out@);
    }
    out
}

/// The view of an optional word-start position.
pub open spec fn opt_view(o: Option<usize>) -> Option<int> {
    match o {
        Option::Some(w) => Option::Some(w as int),
        Option::None => Option::None,
    }
}

/// Normalizes whitespace in `source` and splits the result into tokens:
/// each bracket byte becomes its own one-byte token, every other maximal
/// run of non-space bytes becomes a `NonDelim` token, and the separating
/// spaces are discarded.
pub fn tokenize(source: &[u8]) -> (r: Tokenized)
    ensures
        r.source@ == normalize(source@),
        r.tokens@ == spec_tokens(r.source@),
        is_normalized(r.source@),
        r.wf(),
{
    proof {
        lemma_normalize_normalized(source@);
    }
    let out = normalize_ws(source);
    let n = out.len();
    let mut tokens: Vec<Token> = Vec::new();
    let mut wstart: Option<usize> = Option::None;
    let mut k: usize = 0;
    while k < n
        invariant
            0 <= k <= n,
            n == out@.len(),
            spec_tokens(out@) == tokens@ + toks_rec(out@, k as int, opt_view(wstart)),
            match wstart {
                Option::Some(w) => w < k,
                Option::None => true,
            },
            forall|t: int|
                0 <= t < tokens@.len() ==> (#[trigger] tokens@[t]).start <= tokens@[t].end
                    <= k,
        decreases n - k,
    {
        let b = out[k];
        let ghost toks0 = tokens@;
        let ghost w0 = opt_view(wstart);
        if is_ws_byte(b) {
            if let Option::Some(w) = wstart {
                tokens.push(Token { kind: TokenKind::NonDelim, start: w, end: k });
                wstart = Option::None;
            }
            proof {
                assert(toks_rec(out@, k as int, w0) =~= flush_word(w0, k as int) + toks_rec(
                    out@,
                    k + 1,
                    Option::None,
                ));
                assert(toks0 + toks_rec(out@, k as int, w0) =~= tokens@ + toks_rec(
                    out@,
                    k + 1,
                    Option::None,
                ));
            }
        } else if b == 40 || b == 41 || b == 91 || b == 93 || b == 60 || b == 62 {
            if let Option::Some(w) = wstart {
                tokens.push(Token { kind: TokenKind::NonDelim, start: w, end: k });
                wstart = Option::None;
            }
            tokens.push(Token { kind: token_kind_of(b), start: k, end: k + 1 });
            proof {
                assert(toks_rec(out@, k as int, w0) =~= flush_word(w0, k as int) + seq![
                    Token { kind: delim_kind_of(b), start: k, end: (k + 1) as usize },
                ] + toks_rec(out@, k + 1, Option::None));
                assert(toks0 + toks_rec(out@, k as int, w0) =~= tokens@ + toks_rec(
                    out@,
                    k + 1,
                    Option::None,
                ));
            }
        } else {
            if wstart.is_none() {
                wstart = Option::Some(k);
            }
            proof {
                assert(toks_rec(out@, k as int, w0) == toks_rec(
                    out@,
                    k + 1,
                    opt_view(wstart),
                ));
            }
        }
        k = k + 1;
    }
    if let Option::Some(w) = wstart {
        let ghost toks0 = tokens@;
        tokens.push(Token { kind: TokenKind::NonDelim, start: w, end: n });
        proof {
            assert(toks_rec(out@, n as int, opt_view(Option::Some(w))) =~= seq![
                Token { kind: TokenKind::NonDelim, start: w, end: n },
            ]);
            assert(toks0 + toks_rec(out@, n as int, opt_view(Option::Some(w))) =~= tokens@);
        }
    }
    proof {
        assert(tokens@ + toks_rec(out@, n as int, Option::None) =~= tokens@);
        assert(spec_tokens(out@) == tokens@);
    }
    Tokenized { source: out, tokens }
}

/// A whitespace character fits within the sequence it starts in.
proof fn lemma_ws_len_bound(s: Seq<u8>, i: int)
    ensures
        0 <= ws_len_at(s, i),
        ws_len_at(s, i) > 0 ==> i + ws_len_at(s, i) <= s.len(),
{
}

/// Whether a whitespace character starts at a position depends only on
/// the suffix from that position.
proof fn lemma_ws_len_suffix(a: Seq<u8>, j: int, b: Seq<u8>, k: int)
    requires
        0 <= j <= a.len(),
        0 <= k <= b.len(),
        a.skip(j) == b.skip(k),
    ensures
        ws_len_at(a, j) == ws_len_at(b, k),
{
    assert(a.skip(j).len() == a.len() - j);
    assert(b.skip(k).len() == b.len() - k);
    assert(a.len() - j == b.len() - k);
    if j < a.len() {
        assert(a[j] == a.skip(j)[0]);
        assert(b[k] == b.skip(k)[0]);
        if j + 1 < a.len() {
            assert(a[j + 1] == a.skip(j)[1]);
            assert(b[k + 1] == b.skip(k)[1]);
        }
        if j + 2 < a.len() {
            assert(a[j + 2] == a.skip(j)[2]);
            assert(b[k + 2] == b.skip(k)[2]);
        }
    }
}

/// Whitespace skipping moves forward, stays within bounds, and stops
/// where no whitespace character starts.
proof fn lemma_skip_ws(s: Seq<u8>, i: int)
    requires
        0 <= i <= s.len(),
    ensures
        i <= skip_ws_from(s, i) <= s.len(),
        skip_ws_from(s, i) < s.len() ==> ws_len_at(s, skip_ws_from(s, i)) == 0,
    decreases s.len() - i,
{
    if i < s.len() && ws_len_at(s, i) > 0 {
        lemma_ws_len_bound(s, i);
        lemma_skip_ws(s, i + ws_len_at(s, i));
    }
}

/// The shape of normalization output: the only whitespace character in it
/// is the plain space, no two spaces are adjacent, it does not end in a
/// space, the first byte obeys the pending-space flag, and a non-space
/// head is a verbatim copy of the source bytes from `i` on.
#[verifier::rlimit(100)]
proof fn lemma_norm_core_props(s: Seq<u8>, i: int, pend: bool)
    requires
        0 <= i <= s.len(),
    ensures
        ({
            let r = norm_core(s, i, pend);
            &&& forall|j: int|
                0 <= j < r.len() && #[trigger] ws_len_at(r, j) > 0 ==> r[j] == 32
            &&& forall|j: int|
                0 <= j < r.len() - 1 ==> !((#[trigger] r[j]) == 32 && r[j + 1] == 32)
            &&& (r.len() > 0 ==> r[r.len() - 1] != 32)
            &&& ((!pend && r.len() > 0 && (i >= s.len() || ws_len_at(s, i) == 0)) ==> r[0]
                != 32)
            &&& ((pend && r.len() > 0) ==> r[0] == 32 && r.len() >= 2 && r[1] != 32)
            &&& ((r.len() > 0 && r[0] != 32) ==> (i < s.len() && ws_len_at(s, i) == 0
                && r[0] == s[i] && (r.len() >= 2 ==> (r[1] == 32 || (i + 1 < s.len()
                && ws_len_at(s, i + 1) == 0 && r[1] == s[i + 1]))) && ((r.len() >= 3
                && r[1] != 32) ==> (r[2] == 32 || (i + 2 < s.len() && r[2] == s[i + 2])))))
        }),
    decreases s.len() - i,
{
    let r = norm_core(s, i, pend);
    if i >= s.len() {
    } else if ws_len_at(s, i) > 0 {
        lemma_ws_len_bound(s, i);
        lemma_norm_core_props(s, i + ws_len_at(s, i), true);
    } else {
        lemma_norm_core_props(s, i + 1, false);
        let rest = norm_core(s, i + 1, false);
        let x = seq![s[i]] + rest;
        assert(x[0] == s[i]);
        assert(x.len() == 1 + rest.len());
        assert(forall|j: int| 1 <= j < x.len() ==> x[j] == rest[j - 1]);
        assert(s[i] != 32);
        // The head of `rest` is either a space or the verbatim source
        // byte after `i`.
        assert(rest.len() > 0 ==> (rest[0] == 32 || (i + 1 < s.len() && ws_len_at(
            s,
            i + 1,
        ) == 0 && rest[0] == s[i + 1])));
        // No whitespace character starts anywhere in `x`: a multi-byte
        // one at its head would be a verbatim copy of a whitespace
        // character starting at `i` in the source, which there is none.
        assert forall|j: int|
            0 <= j < x.len() && #[trigger] ws_len_at(x, j) > 0 implies x[j] == 32 by {
            if j == 0 {
                if x.len() >= 2 && x[1] != 32 {
                    assert(x[1] == rest[0]);
                    assert(i + 1 < s.len() && rest[0] == s[i + 1]);
                    if x.len() >= 3 && x[2] != 32 {
                        assert(x[2] == rest[1]);
                        assert(rest[1] == 32 || (i + 2 < s.len() && rest[1] == s[i + 2]));
                    }
                }
                assert(ws_len_at(x, 0) == 0);
            } else {
                assert(x.skip(j) =~= rest.skip(j - 1));
                lemma_ws_len_suffix(x, j, rest, j - 1);
                assert(x[j] == rest[j - 1]);
            }
        }
        assert forall|j: int|
            0 <= j < x.len() - 1 implies !((#[trigger] x[j]) == 32 && x[j + 1] == 32) by {
            if j >= 1 {
                assert(x[j] == rest[j - 1]);
                assert(x[j + 1] == rest[j]);
            }
        }
        if rest.len() > 0 {
            assert(x[x.len() - 1] == rest[rest.len() - 1]);
        } else {
            assert(x[x.len() - 1] == s[i]);
        }
        if pend {
            assert(r == seq![32u8] + seq![s[i]] + rest);
            assert(r =~= seq![32u8] + x);
            assert(r.len() == 1 + x.len());
            assert(r[0] == 32u8);
            assert(forall|j: int| 1 <= j < r.len() ==> r[j] == x[j - 1]);
            assert forall|j: int|
                0 <= j < r.len() && #[trigger] ws_len_at(r, j) > 0 implies r[j] == 32 by {
                if j >= 1 {
                    assert(r.skip(j) =~= x.skip(j - 1));
                    lemma_ws_len_suffix(r, j, x, j - 1);
                    assert(r[j] == x[j - 1]);
                }
            }
            assert forall|j: int|
                0 <= j < r.len() - 1 implies !((#[trigger] r[j]) == 32 && r[j + 1] == 32) by {
                if j == 0 {
                    assert(r[1] == x[0]);
                } else {
                    assert(r[j] == x[j - 1]);
                    assert(r[j + 1] == x[j]);
                }
            }
            assert(r[r.len() - 1] == x[x.len() - 1]);
            assert(r[1] == x[0]);
        } else {
            assert(r == x);
        }
    }
}

/// The normalized form of any byte sequence is in normal form.
pub proof fn lemma_normalize_normalized(s: Seq<u8>)
    ensures
        is_normalized(normalize(s)),
{
    lemma_skip_ws(s, 0);
    lemma_norm_core_props(s, skip_ws_from(s, 0), false);
}

/// On a sequence already in normal form, normalization from any position
/// that is not mid-run reproduces the remaining suffix.
proof fn lemma_norm_core_fixed(t: Seq<u8>, i: int)
    requires
        is_normalized(t),
        0 <= i <= t.len(),
    ensures
        norm_core(t, i, false) == t.skip(i),
    decreases t.len() - i,
{
    if i >= t.len() {
        assert(norm_core(t, i, false) =~= t.skip(i));
    } else if t[i] == 32 {
        assert(ws_len_at(t, i) == 1);
        assert(i + 1 < t.len());
        assert(t[i + 1] != 32);
        assert(ws_len_at(t, i + 1) == 0);
        lemma_norm_core_fixed(t, i + 2);
        assert(norm_core(t, i, false) == norm_core(t, i + 1, true));
        assert(norm_core(t, i + 1, true) == seq![32u8] + seq![t[i + 1]] + t.skip(i + 2));
        assert(seq![32u8] + seq![t[i + 1]] + t.skip(i + 2) =~= t.skip(i));
    } else {
        assert(ws_len_at(t, i) == 0) by {
            assert(ws_len_at(t, i) > 0 ==> t[i] == 32);
        }
        lemma_norm_core_fixed(t, i + 1);
        assert(norm_core(t, i, false) == seq![t[i]] + t.skip(i + 1));
        assert(seq![t[i]] + t.skip(i + 1) =~= t.skip(i));
    }
}

/// Normalization leaves a sequence in normal form unchanged.
pub proof fn lemma_normalized_fixed(s: Seq<u8>)
    requires
        is_normalized(s),
    ensures
        normalize(s) == s,
{
    if s.len() > 0 {
        assert(ws_len_at(s, 0) == 0) by {
            assert(ws_len_at(s, 0) > 0 ==> s[0] == 32);
        }
    }
    assert(skip_ws_from(s, 0) == 0);
    lemma_norm_core_fixed(s, 0);
    assert(s.skip(0) =~= s);
}

/// Normalization is idempotent: normalizing an already normalized sequence
/// changes nothing.
pub proof fn lemma_normalize_idempotent(s: Seq<u8>)
    ensures
        normalize(normalize(s)) == normalize(s),
{
    lemma_normalize_normalized(s);
    lemma_normalized_fixed(normalize(s));
}

/// Tokenizing the normalized output of a tokenization run again yields the
/// same token sequence.
pub proof fn lemma_tokenize_idempotent(s: Seq<u8>)
    ensures
        spec_tokens(normalize(normalize(s))) == spec_tokens(normalize(s)),
{
    lemma_normalize_idempotent(s);
}

/// How the tokens of a normalized suffix sit in the text: spans are
/// nonempty and in bounds, consecutive spans touch or are separated by one
/// space, the last span reaches the end, and the first span starts where
/// the scan stands (or one space later).
#[verifier::rlimit(100)]
proof fn lemma_toks_rec_cover(s: Seq<u8>, i: int, wstart: Option<int>)
    requires
        is_normalized(s),
        s.len() <= usize::MAX,
        0 <= i <= s.len(),
        match wstart {
            Option::Some(w) => 0 <= w < i,
            Option::None => true,
        },
    ensures
        ({
            let r = toks_rec(s, i, wstart);
            &&& forall|k: int|
                0 <= k < r.len() ==> (#[trigger] r[k]).start < r[k].end <= s.len()
            &&& forall|k: int|
                #![trigger r[k], r[k + 1]]
                0 <= k < r.len() - 1 ==> (r[k].end == r[k + 1].start || (r[k].end + 1
                    == r[k + 1].start && s[r[k].end as int] == 32))
            &&& (r.len() > 0 ==> r[r.len() - 1].end == s.len())
            &&& match wstart {
                Option::Some(w) => r.len() > 0 && r[0].start == w,
                Option::None => {
                    &&& (r.len() == 0 ==> i == s.len())
                    &&& (r.len() > 0 ==> (r[0].start == i || (r[0].start == i + 1 && i
                        < s.len() && s[i] == 32)))
                },
            }
        }),
    decreases s.len() - i,
{
    let r = toks_rec(s, i, wstart);
    if i >= s.len() {
    } else if is_ws(s[i]) {
        assert(ws_len_at(s, i) == 1);
        assert(s[i] == 32);
        assert(i + 1 < s.len() && s[i + 1] != 32 && !is_ws(s[i + 1])) by {
            assert(i != s.len() - 1);
            assert(s[i + 1] != 32);
            assert(ws_len_at(s, i + 1) > 0 ==> s[i + 1] == 32);
        }
        lemma_toks_rec_cover(s, i + 1, Option::None);
        let rest = toks_rec(s, i + 1, Option::None);
        assert(rest.len() > 0);
        assert(rest[0].start == i + 1);
        assert(r == flush_word(wstart, i) + rest);
        match wstart {
            Option::Some(w) => {
                assert(r[0].start == w && r[0].end == i);
                assert(forall|k: int| 1 <= k < r.len() ==> r[k] == rest[k - 1]);
                assert forall|k: int|
                    #![trigger r[k], r[k + 1]]
                    0 <= k < r.len() - 1 implies (r[k].end == r[k + 1].start || (r[k].end
                    + 1 == r[k + 1].start && s[r[k].end as int] == 32)) by {
                    if k == 0 {
                        assert(r[1] == rest[0]);
                    } else {
                        let j = k - 1;
                        assert(r[k] == rest[j]);
                        assert(r[k + 1] == rest[j + 1]);
                        assert(rest[j].end == rest[j + 1].start || (rest[j].end + 1
                            == rest[j + 1].start && s[rest[j].end as int] == 32));
                    }
                }
            },
            Option::None => {
                assert(r =~= rest);
            },
        }
    } else if is_delim(s[i]) {
        lemma_toks_rec_cover(s, i + 1, Option::None);
        let rest = toks_rec(s, i + 1, Option::None);
        let dt = Token { kind: delim_kind_of(s[i]), start: i as usize, end: (i + 1) as usize };
        assert(r == flush_word(wstart, i) + seq![dt] + rest);
        if rest.len() > 0 {
            assert(rest[0].start == i + 1 || (rest[0].start == i + 2 && i + 1 < s.len()
                && s[i + 1] == 32));
        } else {
            assert(i + 1 == s.len());
        }
        match wstart {
            Option::Some(w) => {
                assert(r[0].start == w && r[0].end == i);
                assert(r[1] == dt);
                assert(forall|k: int| 2 <= k < r.len() ==> r[k] == rest[k - 2]);
                assert forall|k: int|
                    #![trigger r[k], r[k + 1]]
                    0 <= k < r.len() - 1 implies (r[k].end == r[k + 1].start || (r[k].end
                    + 1 == r[k + 1].start && s[r[k].end as int] == 32)) by {
                    if k == 0 {
                        assert(r[1] == dt);
                    } else if k == 1 {
                        assert(r[2] == rest[0]);
                    } else {
                        let j = k - 2;
                        assert(r[k] == rest[j]);
                        assert(r[k + 1] == rest[j + 1]);
                        assert(rest[j].end == rest[j + 1].start || (rest[j].end + 1
                            == rest[j + 1].start && s[rest[j].end as int] == 32));
                    }
                }
            },
            Option::None => {
                assert(r[0] == dt);
                assert(forall|k: int| 1 <= k < r.len() ==> r[k] == rest[k - 1]);
                assert forall|k: int|
                    #![trigger r[k], r[k + 1]]
                    0 <= k < r.len() - 1 implies (r[k].end == r[k + 1].start || (r[k].end
                    + 1 == r[k + 1].start && s[r[k].end as int] == 32)) by {
                    if k == 0 {
                        assert(r[1] == rest[0]);
                    } else {
                        let j = k - 1;
                        assert(r[k] == rest[j]);
                        assert(r[k + 1] == rest[j + 1]);
                        assert(rest[j].end == rest[j + 1].start || (rest[j].end + 1
                            == rest[j + 1].start && s[rest[j].end as int] == 32));
                    }
                }
            },
        }
    } else {
        match wstart {
            Option::Some(w) => {
                lemma_toks_rec_cover(s, i + 1, Option::Some(w));
            },
            Option::None => {
                lemma_toks_rec_cover(s, i + 1, Option::Some(i));
            },
        }
    }
}

/// How the tokens of a normalized text cover it: every span is nonempty
/// and in bounds, consecutive spans touch or are separated by exactly one
/// space byte, the first span starts at the first byte, the last ends at
/// the last, and only the empty text has no tokens. Concatenating the
/// spans with those separators therefore reproduces the text.
#[verifier::rlimit(100)]
pub proof fn lemma_token_spans_cover(s: Seq<u8>)
    requires
        is_normalized(s),
        s.len() <= usize::MAX,
    ensures
        ({
            let toks = spec_tokens(s);
            &&& forall|k: int|
                0 <= k < toks.len() ==> (#[trigger] toks[k]).start < toks[k].end <= s.len()
            &&& forall|k: int|
                #![trigger toks[k], toks[k + 1]]
                0 <= k < toks.len() - 1 ==> (toks[k].end == toks[k + 1].start || (
                toks[k].end + 1 == toks[k + 1].start && s[toks[k].end as int] == 32))
            &&& (toks.len() > 0 ==> toks[0].start == 0 && toks[toks.len() - 1].end
                == s.len())
            &&& (toks.len() == 0 ==> s.len() == 0)
        }),
{
    lemma_toks_rec_cover(s, 0, Option::None);
    let toks = spec_tokens(s);
    if toks.len() > 0 {
        assert(s.len() > 0 ==> s[0] != 32);
        assert(toks[0].start == 0);
    }
}

/// The bytes of the normalized source that a token's span covers.
pub open spec fn token_text(s: Seq<u8>, t: Token) -> Seq<u8> {
    s.subrange(t.start as int, t.end as int)
}

/// The token texts from index `k` on, joined by single spaces.
pub open spec fn space_joined(s: Seq<u8>, toks: Seq<Token>, k: int) -> Seq<u8>
    decreases toks.len() - k,
{
    if k < 0 || k >= toks.len() {
        Seq::empty()
    } else if k == toks.len() - 1 {
        token_text(s, toks[k])
    } else {
        token_text(s, toks[k]) + seq![32u8] + space_joined(s, toks, k + 1)
    }
}

/// The joined suffix of token texts reproduces the source suffix, when all
/// consecutive tokens are separated by exactly one space.
#[verifier::rlimit(100)]
proof fn lemma_join_suffix(s: Seq<u8>, k: int)
    requires
        is_normalized(s),
        s.len() <= usize::MAX,
        0 <= k < spec_tokens(s).len(),
        forall|j: int|
            #![trigger spec_tokens(s)[j], spec_tokens(s)[j + 1]]
            0 <= j < spec_tokens(s).len() - 1 ==> spec_tokens(s)[j].end + 1
                == spec_tokens(s)[j + 1].start,
    ensures
        space_joined(s, spec_tokens(s), k) == s.subrange(
            spec_tokens(s)[k].start as int,
            s.len() as int,
        ),
    decreases spec_tokens(s).len() - k,
{
    lemma_token_spans_cover(s);
    let toks = spec_tokens(s);
    if k == toks.len() - 1 {
        assert(toks[k].end == s.len());
        assert(token_text(s, toks[k]) =~= s.subrange(toks[k].start as int, s.len() as int));
    } else {
        lemma_join_suffix(s, k + 1);
        assert(toks[k].end + 1 == toks[k + 1].start);
        assert(s[toks[k].end as int] == 32);
        assert(token_text(s, toks[k]) + seq![32u8] + s.subrange(
            toks[k + 1].start as int,
            s.len() as int,
        ) =~= s.subrange(toks[k].start as int, s.len() as int));
    }
}

/// Round trip: concatenating the source bytes of every token in order,
/// interleaved with single spaces, reproduces the normalized source —
/// provided every pair of consecutive tokens is separated by a space in
/// it (bracket tokens may also abut their neighbours directly, and then
/// the interleaving inserts a space the source does not have).
#[verifier::rlimit(100)]
pub proof fn lemma_round_trip(s: Seq<u8>)
    requires
        is_normalized(s),
        s.len() <= usize::MAX,
        forall|j: int|
            #![trigger spec_tokens(s)[j], spec_tokens(s)[j + 1]]
            0 <= j < spec_tokens(s).len() - 1 ==> spec_tokens(s)[j].end + 1
                == spec_tokens(s)[j + 1].start,
    ensures
        space_joined(s, spec_tokens(s), 0) == s,
{
    lemma_token_spans_cover(s);
    let toks = spec_tokens(s);
    if toks.len() == 0 {
        assert(space_joined(s, toks, 0) =~= s);
    } else {
        lemma_join_suffix(s, 0);
        assert(s.subrange(0, s.len() as int) =~= s);
    }
}

} // verus!
