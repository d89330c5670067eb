//! The validation configuration: four independent matchers compiled from
//! caller-supplied string lists.
//!
//! Whitelist, blacklist and after-angle lists are whole-string matchers: a
//! candidate matches only if it equals one listed entry in full. A list
//! that is empty, or holds nothing but a single empty entry, yields a
//! matcher that rejects everything — the check is inert, not
//! accept-everything. Atoms are the allowed grapheme building blocks of
//! ordinary words; they are matched greedily, longest first, to tile a
//! word's bytes during validation.
use vstd::prelude::*;
use vstd::slice::slice_subrange;

verus! {

/// A whole-string matcher with nothing to match: built from no entries, or
/// from a single empty entry.
pub open spec fn list_inert(l: Seq<Seq<u8>>) -> bool {
    l.len() == 0 || (l.len() == 1 && l[0].len() == 0)
}

/// Whether `s` matches the whole-string matcher built from `l`: the
/// matcher is not inert and `s` equals one of the entries in full.
pub open spec fn list_matches(l: Seq<Seq<u8>>, s: Seq<u8>) -> bool {
    !list_inert(l) && exists|k: int| 0 <= k < l.len() && l[k] == s
}

/// Whether the atom occurs in `w` exactly at byte position `pos`. An empty
/// atom never matches.
pub open spec fn atom_matches_at(atom: Seq<u8>, w: Seq<u8>, pos: int) -> bool {
    &&& atom.len() > 0
    &&& 0 <= pos
    &&& pos + atom.len() <= w.len()
    &&& w.subrange(pos, pos + atom.len()) == atom
}

/// The length of the longest among the first `k` atoms that matches in `w`
/// at `pos`; zero when none does.
pub open spec fn best_upto(atoms: Seq<Seq<u8>>, w: Seq<u8>, pos: int, k: int) -> int
    decreases k,
{
    if k <= 0 {
        0
    } else {
        let b = best_upto(atoms, w, pos, k - 1);
        if atom_matches_at(atoms[k - 1], w, pos) && atoms[k - 1].len() > b {
            atoms[k - 1].len() as int
        } else {
            b
        }
    }
}

/// The length of the longest atom matching in `w` at `pos`; zero when none
/// matches there.
pub open spec fn best_atom_len(atoms: Seq<Seq<u8>>, w: Seq<u8>, pos: int) -> int {
    best_upto(atoms, w, pos, atoms.len() as int)
}

/// The uncovered gaps left by greedy longest-first atom tiling of `w`,
/// scanning from `pos` with `prev_end` the end of the last atom match (or
/// the last reported gap). Each pair is one maximal contiguous run of
/// bytes no atom match covers; with no atoms configured the whole span is
/// one gap.
pub open spec fn tiling_gaps(atoms: Seq<Seq<u8>>, w: Seq<u8>, pos: int, prev_end: int) -> Seq<
    (int, int),
>
    decreases w.len() - pos,
{
    if pos < 0 {
        Seq::empty()
    } else if pos >= w.len() {
        if prev_end != w.len() {
            seq![(prev_end, w.len() as int)]
        } else {
            Seq::empty()
        }
    } else {
        let m = best_atom_len(atoms, w, pos);
        if m > 0 && pos + m <= w.len() {
            (if pos != prev_end {
                seq![(prev_end, pos)]
            } else {
                Seq::empty()
            }) + tiling_gaps(atoms, w, pos + m, pos + m)
        } else {
            tiling_gaps(atoms, w, pos + 1, prev_end)
        }
    }
}

/// The gaps of a whole word under greedy longest-first atom tiling: empty
/// exactly when the atoms cover the word completely.
pub open spec fn word_gaps(atoms: Seq<Seq<u8>>, w: Seq<u8>) -> Seq<(int, int)> {
    tiling_gaps(atoms, w, 0, 0)
}

/// The deep view of a list of byte vectors indexes to the views of its
/// entries.
pub(crate) proof fn lemma_vec_deep_view_index(v: &Vec<Vec<u8>>, k: int)
    requires
        0 <= k < v@.len(),
    ensures
        v.deep_view()[k] == v@[k]@,
{
    assert(v@[k].deep_view() =~= v@[k]@);
}

/// Whether two byte slices hold the same bytes.
pub(crate) fn bytes_eq(a: &[u8], b: &[u8]) -> (r: bool)
    ensures
        r == (a@ == b@),
{
    if a.len() != b.len() {
        return false;
    }
    let n = a.len();
    let mut i: usize = 0;
    while i < n
        invariant
            0 <= i <= n,
            n == a@.len() == b@.len(),
            forall|j: int| 0 <= j < i ==> a@[j] == b@[j],
        decreases n - i,
    {
        if a[i] != b[i] {
            return false;
        }
        i = i + 1;
    }
    proof {
        assert(a@ =~= b@);
    }
    true
}

/// The mathematical model of a configuration: the four entry lists.
pub struct ConfigModel {
    pub whitelist: Seq<Seq<u8>>,
    pub blacklist: Seq<Seq<u8>>,
    pub atoms: Seq<Seq<u8>>,
    pub after_angle: Seq<Seq<u8>>,
}

/// The compiled validation configuration: full tokens that are explicitly
/// allowed, full tokens that are explicitly disallowed, the grapheme atoms
/// allowed in tokens not covered by the other two, and the codes allowed
/// in a `_`-separated list after an angle-open. Built once, then shared
/// read-only by any number of validation calls.
#[derive(Debug)]
pub struct ParserConfig {
    whitelist: Vec<Vec<u8>>,
    blacklist: Vec<Vec<u8>>,
    atoms: Vec<Vec<u8>>,
    after_angle: Vec<Vec<u8>>,
}

impl View for ParserConfig {
    type V = ConfigModel;

    closed spec fn view(&self) -> ConfigModel {
        ConfigModel {
            whitelist: self.whitelist.deep_view(),
            blacklist: self.blacklist.deep_view(),
            atoms: self.atoms.deep_view(),
            after_angle: self.after_angle.deep_view(),
        }
    }
}

impl ParserConfig {
    /// Compiles a configuration from the four entry lists. Entries are
    /// taken literally; nothing about them can be malformed, so
    /// compilation cannot fail.
    pub fn from_args(
        whitelist: Vec<Vec<u8>>,
        blacklist: Vec<Vec<u8>>,
        atoms: Vec<Vec<u8>>,
        after_angle: Vec<Vec<u8>>,
    ) -> (r: ParserConfig)
        ensures
            r@.whitelist == whitelist.deep_view(),
            r@.blacklist == blacklist.deep_view(),
            r@.atoms == atoms.deep_view(),
            r@.after_angle == after_angle.deep_view(),
    {
        ParserConfig { whitelist, blacklist, atoms, after_angle }
    }

    /// Whether `s` equals one of the whitelist entries in full.
    pub fn in_whitelist(&self, s: &[u8]) -> (r: bool)
        ensures
            r == list_matches(self@.whitelist, s@),
    {
        list_contains(&self.whitelist, s)
    }

    /// Whether `s` equals one of the blacklist entries in full.
    pub fn in_blacklist(&self, s: &[u8]) -> (r: bool)
        ensures
            r == list_matches(self@.blacklist, s@),
    {
        list_contains(&self.blacklist, s)
    }

    /// Whether `s` equals one of the allowed after-angle codes in full.
    pub fn in_after_angle(&self, s: &[u8]) -> (r: bool)
        ensures
            r == list_matches(self@.after_angle, s@),
    {
        list_contains(&self.after_angle, s)
    }

    /// The length of the longest atom matching in `w` at byte position
    /// `pos`; zero when no atom matches there.
    pub(crate) fn best_atom_at(&self, w: &[u8], pos: usize) -> (r: usize)
        requires
            pos <= w@.len(),
        ensures
            r as int == best_atom_len(self@.atoms, w@, pos as int),
            r <= w@.len() - pos,
    {
        let n = self.atoms.len();
        let mut best: usize = 0;
        let mut k: usize = 0;
        while k < n
            invariant
                0 <= k <= n,
                n == self.atoms@.len(),
                pos <= w@.len(),
                best as int == best_upto(self@.atoms, w@, pos as int, k as int),
                best <= w@.len() - pos,
            decreases n - k,
        {
            proof {
                lemma_vec_deep_view_index(&self.atoms, k as int);
            }
            let atom = &self.atoms[k];
            let alen = atom.len();
            if alen > 0 && alen <= w.len() - pos && alen > best {
                if bytes_eq(atom.as_slice(), slice_subrange(w, pos, pos + alen)) {
                    best = alen;
                    proof {
                        assert(atom_matches_at(self@.atoms[k as int], w@, pos as int));
                    }
                } else {
                    proof {
                        assert(!atom_matches_at(self@.atoms[k as int], w@, pos as int));
                    }
                }
            } else {
                proof {
                    if alen == 0 || alen as int > w@.len() - pos {
                        assert(!atom_matches_at(self@.atoms[k as int], w@, pos as int));
                    } else {
                        assert(self@.atoms[k as int].len() <= best);
                    }
                }
            }
            k = k + 1;
        }
        best
    }
}

/// Whether `s` matches the whole-string matcher built from `list`.
fn list_contains(list: &Vec<Vec<u8>>, s: &[u8]) -> (r: bool)
    ensures
        r == list_matches(list.deep_view(), s@),
{
    if list.len() == 0 {
        return false;
    }
    if list.len() == 1 && list[0].len() == 0 {
        proof {
            assert(list.deep_view()[0].len() == 0);
        }
        return false;
    }
    let n = list.len();
    let mut k: usize = 0;
    while k < n
        invariant
            0 <= k <= n,
            n == list@.len(),
            !list_inert(list.deep_view()),
            forall|j: int| 0 <= j < k ==> list.deep_view()[j] != s@,
        decreases n - k,
    {
        proof {
            lemma_vec_deep_view_index(list, k as int);
        }
        if bytes_eq(list[k].as_slice(), s) {
            proof {
                assert(list.deep_view()[k as int] == s@);
            }
            return true;
        }
        k = k + 1;
    }
    false
}

} // verus!
