use vstd::prelude::*;

use crate::path::{canonicalize, canon_spec, display_spec, SegPath};
use crate::text::{split_char, split_spec};
use crate::tree::{PathTree, TreeV};

verus! {

/// What a matched filesystem path was at expansion time.
#[derive(Clone, Copy, PartialEq, Eq, Structural)]
pub enum PathKind {
    File,
    Dir,
    Other,
}

/// One concrete path a rule matched, with the byte size the caller
/// computed for it and what kind of object it was.
pub struct MatchedPath {
    path: SegPath,
    size: u64,
    kind: PathKind,
}

/// The model of a matched path.
pub ghost struct EntryV {
    pub path: Seq<Seq<char>>,
    pub size: u64,
    pub kind: PathKind,
}

impl View for MatchedPath {
    type V = EntryV;

    closed spec fn view(&self) -> EntryV {
        EntryV { path: self.path@, size: self.size, kind: self.kind }
    }
}

impl MatchedPath {
    /// Packages a matched path with its computed size and kind.
    pub fn new(path: SegPath, size: u64, kind: PathKind) -> (r: MatchedPath)
        ensures
            r@ == (EntryV { path: path@, size: size, kind: kind }),
    {
        MatchedPath { path, size, kind }
    }
}

/// The models of a matched-path list.
pub open spec fn entries_view(s: Seq<MatchedPath>) -> Seq<EntryV> {
    s.map_values(|m: MatchedPath| m@)
}

/// A rule expanded to its matched paths; after `filter_and_get_size` it
/// carries its deduplicated size and only the paths attributed to this
/// rule and to no other.
pub struct Pattern {
    pattern: String,
    paths: Vec<MatchedPath>,
    size: Option<u64>,
}

/// The model of an expanded rule.
pub ghost struct PatternV {
    pub pattern: Seq<char>,
    pub paths: Seq<EntryV>,
    pub size: Option<u64>,
}

impl View for Pattern {
    type V = PatternV;

    closed spec fn view(&self) -> PatternV {
        PatternV { pattern: self.pattern@, paths: entries_view(self.paths@), size: self.size }
    }
}

/// The models of a pattern list.
pub open spec fn patterns_view(s: Seq<Pattern>) -> Seq<PatternV> {
    s.map_values(|p: Pattern| p@)
}

/// The tree that results from inserting every entry in order.
pub open spec fn insert_entries(t: TreeV, es: Seq<EntryV>) -> TreeV
    decreases es.len(),
{
    if es.len() == 0 {
        t
    } else {
        insert_entries(t.insert_spec(es[0].path, es[0].size).0, es.subrange(1, es.len() as int))
    }
}

/// Whether every insertion in the sequence meets the tree's arithmetic
/// preconditions as it runs: each size at least what its node already
/// accounts for, and no aggregate overflowing.
pub open spec fn entries_ok(t: TreeV, es: Seq<EntryV>) -> bool
    decreases es.len(),
{
    es.len() == 0 || {
        &&& es[0].size >= t.size_at0(es[0].path)
        &&& t.size_val() + es[0].size <= u64::MAX
        &&& entries_ok(
            t.insert_spec(es[0].path, es[0].size).0,
            es.subrange(1, es.len() as int),
        )
    }
}

/// The tree that results from inserting every pattern's entries in order.
pub open spec fn insert_patterns(t: TreeV, ps: Seq<PatternV>) -> TreeV
    decreases ps.len(),
{
    if ps.len() == 0 {
        t
    } else {
        insert_patterns(insert_entries(t, ps[0].paths), ps.subrange(1, ps.len() as int))
    }
}

/// `entries_ok`, across a whole pattern list.
pub open spec fn patterns_ok(t: TreeV, ps: Seq<PatternV>) -> bool
    decreases ps.len(),
{
    ps.len() == 0 || {
        &&& entries_ok(t, ps[0].paths)
        &&& patterns_ok(insert_entries(t, ps[0].paths), ps.subrange(1, ps.len() as int))
    }
}

/// What one entry contributes when its pattern's size is re-read from the
/// shared tree.
pub open spec fn entry_contrib(t: TreeV, e: EntryV) -> int {
    match t.size_at(e.path) {
        Option::Some(s) => s as int,
        Option::None => 0int,
    }
}

/// An upper bound on a pattern's resolved size: the sum of what the tree
/// holds at each of its paths, counting repeated paths each time.
pub open spec fn resolved_sum(t: TreeV, es: Seq<EntryV>) -> int
    decreases es.len(),
{
    if es.len() == 0 {
        0int
    } else {
        entry_contrib(t, es[0]) + resolved_sum(t, es.subrange(1, es.len() as int))
    }
}

proof fn lemma_resolved_sum_nonneg(t: TreeV, es: Seq<EntryV>)
    ensures
        resolved_sum(t, es) >= 0,
    decreases es.len(),
{
    if es.len() > 0 {
        lemma_resolved_sum_nonneg(t, es.subrange(1, es.len() as int));
    }
}

/// Whether the exact path at position `m` is inserted again afterwards:
/// later in the same pattern, or by any later pattern.  The last inserter
/// of a path owns it, mirroring last-writer-wins for overlapping paths.
pub open spec fn occurs_later(es: Seq<EntryV>, laters: Seq<PatternV>, m: int) -> bool {
    ||| exists|m2: int| m < m2 < es.len() && (#[trigger] es[m2]).path == es[m].path
    ||| exists|k2: int, m2: int|
        0 <= k2 < laters.len() && 0 <= m2 < laters[k2].paths.len() && (#[trigger] laters[k2].paths[m2]).path == es[m].path
}

/// Whether the entry at `m` survives resolution: the tree still holds its
/// exact node, and no later insertion re-claims the same path.
pub open spec fn entry_kept(t: TreeV, es: Seq<EntryV>, laters: Seq<PatternV>, m: int) -> bool {
    t.size_at(es[m].path) is Some && !occurs_later(es, laters, m)
}

/// The entries from position `m` on that survive resolution.
pub open spec fn dedup_kept(t: TreeV, es: Seq<EntryV>, laters: Seq<PatternV>, m: int) -> Seq<
    EntryV,
>
    decreases es.len() - m,
{
    if m < 0 || m >= es.len() {
        Seq::empty()
    } else {
        let rest = dedup_kept(t, es, laters, m + 1);
        if entry_kept(t, es, laters, m) {
            seq![es[m]] + rest
        } else {
            rest
        }
    }
}

/// The summed sizes of the surviving entries from position `m` on.
pub open spec fn dedup_sum(t: TreeV, es: Seq<EntryV>, laters: Seq<PatternV>, m: int) -> int
    decreases es.len() - m,
{
    if m < 0 || m >= es.len() {
        0int
    } else {
        (if entry_kept(t, es, laters, m) {
            entry_contrib(t, es[m])
        } else {
            0int
        }) + dedup_sum(t, es, laters, m + 1)
    }
}

/// The surviving entries' sum is non-negative and never exceeds the
/// undeduplicated sum over the same positions.
proof fn lemma_dedup_sum_bounds(t: TreeV, es: Seq<EntryV>, laters: Seq<PatternV>, m: int)
    requires
        0 <= m <= es.len(),
    ensures
        0 <= dedup_sum(t, es, laters, m) <= resolved_sum(t, es.skip(m)),
    decreases es.len() - m,
{
    if m < es.len() {
        lemma_dedup_sum_bounds(t, es, laters, m + 1);
        assert(es.skip(m)[0] == es[m]);
        assert(es.skip(m).subrange(1, es.skip(m).len() as int) =~= es.skip(m + 1));
    } else {
        assert(es.skip(m) =~= Seq::<EntryV>::empty());
    }
}

/// A pattern after querying the finished tree, given the patterns that
/// come after it in rule order: only the paths the tree still attributes
/// to this pattern and that no later pattern re-claims, with their sizes
/// summed.  A path matched by several rules is owned by its last
/// inserter alone, so surviving path lists are pairwise disjoint.
pub open spec fn resolve_pattern(t: TreeV, p: PatternV, laters: Seq<PatternV>) -> PatternV {
    PatternV {
        pattern: p.pattern,
        paths: dedup_kept(t, p.paths, laters, 0),
        size: Option::Some(dedup_sum(t, p.paths, laters, 0) as u64),
    }
}

/// Being one of `es`'s entries from position `m0` on, at a position that
/// survives resolution.
pub open spec fn kept_elem_of(
    t: TreeV,
    es: Seq<EntryV>,
    laters: Seq<PatternV>,
    m0: int,
    e: EntryV,
) -> bool {
    exists|m: int|
        #![trigger es[m]]
        m0 <= m < es.len() && e == es[m] && entry_kept(t, es, laters, m)
}

/// Every surviving entry is one of the pattern's own matched paths, at a
/// position that kept it.
proof fn lemma_dedup_kept_elems(t: TreeV, es: Seq<EntryV>, laters: Seq<PatternV>, m0: int)
    ensures
        forall|i: int| #![trigger dedup_kept(t, es, laters, m0)[i]]
            0 <= i < dedup_kept(t, es, laters, m0).len() ==> kept_elem_of(
                t,
                es,
                laters,
                m0,
                dedup_kept(t, es, laters, m0)[i],
            ),
    decreases es.len() - m0,
{
    if 0 <= m0 < es.len() {
        lemma_dedup_kept_elems(t, es, laters, m0 + 1);
        let d = dedup_kept(t, es, laters, m0);
        let rest = dedup_kept(t, es, laters, m0 + 1);
        assert forall|i: int| 0 <= i < dedup_kept(t, es, laters, m0).len() implies kept_elem_of(
            t,
            es,
            laters,
            m0,
            dedup_kept(t, es, laters, m0)[i],
        ) by {
            assert(d[i] == dedup_kept(t, es, laters, m0)[i]);
            if entry_kept(t, es, laters, m0) {
                if i == 0 {
                    assert(m0 <= m0 < es.len() && d[i] == es[m0] && entry_kept(
                        t,
                        es,
                        laters,
                        m0,
                    ));
                } else {
                    assert(d[i] == rest[i - 1]);
                    assert(kept_elem_of(t, es, laters, m0 + 1, rest[i - 1]));
                    let m = choose|m: int|
                        #![trigger es[m]]
                        m0 + 1 <= m < es.len() && rest[i - 1] == es[m] && entry_kept(
                            t,
                            es,
                            laters,
                            m,
                        );
                    assert(m0 <= m < es.len() && d[i] == es[m] && entry_kept(t, es, laters, m));
                }
            } else {
                assert(d[i] == rest[i]);
                assert(kept_elem_of(t, es, laters, m0 + 1, rest[i]));
                let m = choose|m: int|
                    #![trigger es[m]]
                    m0 + 1 <= m < es.len() && rest[i] == es[m] && entry_kept(t, es, laters, m);
                assert(m0 <= m < es.len() && d[i] == es[m] && entry_kept(t, es, laters, m));
            }
        }
    } else {
        assert(dedup_kept(t, es, laters, m0) =~= Seq::<EntryV>::empty());
    }
}

/// No surviving entry's path occurs among any later pattern's matched
/// paths.
proof fn lemma_dedup_kept_not_later(t: TreeV, es: Seq<EntryV>, laters: Seq<PatternV>, m0: int)
    ensures
        forall|i: int, k2: int, m2: int|
            #![trigger dedup_kept(t, es, laters, m0)[i], laters[k2].paths[m2]]
            0 <= i < dedup_kept(t, es, laters, m0).len() && 0 <= k2 < laters.len() && 0 <= m2
                < laters[k2].paths.len() ==> (dedup_kept(t, es, laters, m0)[i]).path != (
            laters[k2].paths[m2]).path,
    decreases es.len() - m0,
{
    if 0 <= m0 < es.len() {
        lemma_dedup_kept_not_later(t, es, laters, m0 + 1);
        let d = dedup_kept(t, es, laters, m0);
        let rest = dedup_kept(t, es, laters, m0 + 1);
        assert forall|i: int, k2: int, m2: int|
            #![trigger dedup_kept(t, es, laters, m0)[i], laters[k2].paths[m2]]
            0 <= i < dedup_kept(t, es, laters, m0).len() && 0 <= k2 < laters.len() && 0 <= m2
                < laters[k2].paths.len() implies (dedup_kept(t, es, laters, m0)[i]).path != (
        laters[k2].paths[m2]).path by {
            assert(d[i] == dedup_kept(t, es, laters, m0)[i]);
            if entry_kept(t, es, laters, m0) {
                if i == 0 {
                    assert(!occurs_later(es, laters, m0));
                    assert(d[0] == es[m0 as int]);
                } else {
                    assert(d[i] == rest[i - 1]);
                }
            } else {
                assert(d[i] == rest[i]);
            }
        }
    }
}

/// The surviving entries' paths are pairwise distinct.
proof fn lemma_dedup_kept_distinct(t: TreeV, es: Seq<EntryV>, laters: Seq<PatternV>, m0: int)
    ensures
        forall|i: int, j: int|
            #![trigger dedup_kept(t, es, laters, m0)[i], dedup_kept(t, es, laters, m0)[j]]
            0 <= i < j < dedup_kept(t, es, laters, m0).len() ==> (dedup_kept(
                t,
                es,
                laters,
                m0,
            )[i]).path != (dedup_kept(t, es, laters, m0)[j]).path,
    decreases es.len() - m0,
{
    if 0 <= m0 < es.len() {
        lemma_dedup_kept_distinct(t, es, laters, m0 + 1);
        lemma_dedup_kept_elems(t, es, laters, m0 + 1);
        let d = dedup_kept(t, es, laters, m0);
        let rest = dedup_kept(t, es, laters, m0 + 1);
        assert forall|i: int, j: int|
            #![trigger dedup_kept(t, es, laters, m0)[i], dedup_kept(t, es, laters, m0)[j]]
            0 <= i < j < dedup_kept(t, es, laters, m0).len() implies (dedup_kept(
            t,
            es,
            laters,
            m0,
        )[i]).path != (dedup_kept(t, es, laters, m0)[j]).path by {
            assert(d[i] == dedup_kept(t, es, laters, m0)[i]);
            assert(d[j] == dedup_kept(t, es, laters, m0)[j]);
            if entry_kept(t, es, laters, m0) {
                if i == 0 {
                    assert(d[0] == es[m0 as int]);
                    assert(d[j] == rest[j - 1]);
                    let m = choose|m: int|
                        #![trigger es[m]]
                        m0 + 1 <= m < es.len() && rest[j - 1] == es[m] && entry_kept(
                            t,
                            es,
                            laters,
                            m,
                        );
                    assert(!occurs_later(es, laters, m0));
                    assert((es[m]).path != (es[m0 as int]).path);
                } else {
                    assert(d[i] == rest[i - 1]);
                    assert(d[j] == rest[j - 1]);
                }
            } else {
                assert(d[i] == rest[i]);
                assert(d[j] == rest[j]);
            }
        }
    }
}

/// The surviving path lists of two resolved patterns never share a path:
/// a path matched by both rules is owned by the later one alone.  With
/// `lemma_survivor_paths_distinct` this is what lets the deletion phase
/// fan out over the listed patterns as disjoint path sets.
pub proof fn lemma_survivors_disjoint(t: TreeV, ps: Seq<PatternV>, k1: int, k2: int)
    requires
        0 <= k1 < k2 < ps.len(),
    ensures
        forall|i: int, j: int|
            #![trigger resolve_all(t, ps)[k1].paths[i], resolve_all(t, ps)[k2].paths[j]]
            0 <= i < resolve_all(t, ps)[k1].paths.len() && 0 <= j < resolve_all(
                t,
                ps,
            )[k2].paths.len() ==> (resolve_all(t, ps)[k1].paths[i]).path != (resolve_all(
                t,
                ps,
            )[k2].paths[j]).path,
{
    let l1 = ps.skip(k1 + 1);
    let l2 = ps.skip(k2 + 1);
    lemma_dedup_kept_not_later(t, ps[k1].paths, l1, 0);
    lemma_dedup_kept_elems(t, ps[k2].paths, l2, 0);
    let d1 = dedup_kept(t, ps[k1].paths, l1, 0);
    let d2 = dedup_kept(t, ps[k2].paths, l2, 0);
    assert(l1[k2 - k1 - 1] == ps[k2]);
    assert forall|i: int, j: int|
        0 <= i < resolve_all(t, ps)[k1].paths.len() && 0 <= j < resolve_all(
            t,
            ps,
        )[k2].paths.len() implies (resolve_all(t, ps)[k1].paths[i]).path != (resolve_all(
        t,
        ps,
    )[k2].paths[j]).path by {
        assert(resolve_all(t, ps)[k1].paths == d1);
        assert(resolve_all(t, ps)[k2].paths == d2);
        let m = choose|m: int|
            #![trigger ps[k2].paths[m]]
            0 <= m < ps[k2].paths.len() && d2[j] == ps[k2].paths[m] && entry_kept(
                t,
                ps[k2].paths,
                l2,
                m,
            );
        assert((d1[i]).path != (l1[k2 - k1 - 1].paths[m]).path);
    }
}

/// Within one resolved pattern, no path is listed twice.
pub proof fn lemma_survivor_paths_distinct(t: TreeV, ps: Seq<PatternV>, k: int)
    requires
        0 <= k < ps.len(),
    ensures
        forall|i: int, j: int|
            #![trigger resolve_all(t, ps)[k].paths[i], resolve_all(t, ps)[k].paths[j]]
            0 <= i < j < resolve_all(t, ps)[k].paths.len() ==> (resolve_all(
                t,
                ps,
            )[k].paths[i]).path != (resolve_all(t, ps)[k].paths[j]).path,
{
    lemma_dedup_kept_distinct(t, ps[k].paths, ps.skip(k + 1), 0);
    assert(resolve_all(t, ps)[k].paths == dedup_kept(t, ps[k].paths, ps.skip(k + 1), 0));
}

/// Whether any entry of the list has exactly this path.
fn has_path(v: &Vec<MatchedPath>, p: &SegPath) -> (r: bool)
    ensures
        r == exists|i: int|
            0 <= i < entries_view(v@).len() && (#[trigger] entries_view(v@)[i]).path == p@,
{
    let n = v.len();
    let mut i: usize = 0;
    while i < n
        invariant
            i <= n,
            n == v@.len(),
            forall|m: int| 0 <= m < i ==> (#[trigger] entries_view(v@)[m]).path != p@,
        decreases n - i,
    {
        proof {
            assert(entries_view(v@)[i as int] == v@[i as int]@);
        }
        if v[i].path.same_path(p) {
            proof {
                assert((entries_view(v@)[i as int]).path == p@);
            }
            return true;
        }
        i += 1;
    }
    proof {
        if exists|i: int|
            0 <= i < entries_view(v@).len() && (#[trigger] entries_view(v@)[i]).path == p@ {
            let w = choose|i: int|
                0 <= i < entries_view(v@).len() && (#[trigger] entries_view(v@)[i]).path
                    == p@;
            assert((entries_view(v@)[w]).path != p@);
        }
    }
    false
}

/// Whether any pattern in the list matched exactly this path.
fn patterns_have_path(v: &Vec<Pattern>, p: &SegPath) -> (r: bool)
    ensures
        r == exists|k: int, i: int|
            0 <= k < patterns_view(v@).len() && 0 <= i < patterns_view(v@)[k].paths.len() && (
            #[trigger] patterns_view(v@)[k].paths[i]).path == p@,
{
    let n = v.len();
    let mut k: usize = 0;
    while k < n
        invariant
            k <= n,
            n == v@.len(),
            forall|k2: int, m2: int|
                0 <= k2 < k && 0 <= m2 < patterns_view(v@)[k2].paths.len() ==> (
                #[trigger] patterns_view(v@)[k2].paths[m2]).path != p@,
        decreases n - k,
    {
        proof {
            assert(patterns_view(v@)[k as int] == v@[k as int]@);
        }
        if has_path(&v[k].paths, p) {
            proof {
                let i = choose|i: int|
                    0 <= i < entries_view(v@[k as int].paths@).len() && (
                    #[trigger] entries_view(v@[k as int].paths@)[i]).path == p@;
                assert((patterns_view(v@)[k as int].paths[i]).path == p@);
            }
            return true;
        }
        proof {
            assert forall|m2: int|
                0 <= m2 < patterns_view(v@)[k as int].paths.len() implies (
            #[trigger] patterns_view(v@)[k as int].paths[m2]).path != p@ by {
                assert((entries_view(v@[k as int].paths@)[m2]).path != p@);
            }
        }
        k += 1;
    }
    proof {
        if exists|k2: int, i: int|
            0 <= k2 < patterns_view(v@).len() && 0 <= i < patterns_view(v@)[k2].paths.len()
                && (#[trigger] patterns_view(v@)[k2].paths[i]).path == p@ {
            let (k2, i) = choose|k2: int, i: int|
                0 <= k2 < patterns_view(v@).len() && 0 <= i < patterns_view(
                    v@,
                )[k2].paths.len() && (#[trigger] patterns_view(v@)[k2].paths[i]).path == p@;
            assert((patterns_view(v@)[k2].paths[i]).path != p@);
        }
    }
    false
}

impl Pattern {
    /// A freshly expanded rule: its pattern text and matched paths, with
    /// no size resolved yet.
    pub fn new(pattern: String, paths: Vec<MatchedPath>) -> (r: Pattern)
        ensures
            r@ == (PatternV {
                pattern: pattern@,
                paths: entries_view(paths@),
                size: Option::<u64>::None,
            }),
    {
        Pattern { pattern, paths, size: Option::None }
    }

    /// The rule text this expansion came from.
    pub fn as_ref(&self) -> (r: &String)
        ensures
            r@ == self@.pattern,
    {
        &self.pattern
    }

    /// Inserts every matched path into the shared tree, in order.  This is
    /// the write phase: it must finish before any pattern re-reads its
    /// size from the tree.
    pub fn insert(&self, tree: &mut PathTree)
        requires
            old(tree)@.wf(),
            entries_ok(old(tree)@, self@.paths),
        ensures
            final(tree)@ == insert_entries(old(tree)@, self@.paths),
            final(tree)@.wf(),
    {
        let ghost all = self@.paths;
        let ghost t0 = tree@;
        let n = self.paths.len();
        let mut i: usize = 0;
        proof {
            assert(all.subrange(0, all.len() as int) =~= all);
            assert(all.subrange(i as int, all.len() as int) =~= all);
        }
        while i < n
            invariant
                i <= n,
                n == self.paths@.len(),
                all == entries_view(self.paths@),
                all.len() == n,
                tree@.wf(),
                entries_ok(tree@, all.subrange(i as int, all.len() as int)),
                insert_entries(tree@, all.subrange(i as int, all.len() as int))
                    == insert_entries(t0, all),
            decreases n - i,
        {
            let ghost rem = all.subrange(i as int, all.len() as int);
            proof {
                assert(rem.len() > 0);
                assert(rem[0] == all[i as int]);
                assert(all[i as int] == self.paths@[i as int]@);
                assert(rem.subrange(1, rem.len() as int) =~= all.subrange(
                    i + 1 as int,
                    all.len() as int,
                ));
                crate::tree::lemma_insert_wf(tree@, rem[0].path, rem[0].size);
            }
            let m = &self.paths[i];
            tree.insert_with(&m.path, m.size);
            i += 1;
        }
        proof {
            assert(all.subrange(n as int, all.len() as int) =~= Seq::<EntryV>::empty());
        }
    }

    /// Re-reads this pattern's contribution from the finished tree: drops
    /// every path the tree no longer attributes to it, and every path
    /// that a later position — in this pattern or in one of the patterns
    /// after it — inserted again, then sums the sizes of the rest.  A
    /// pattern wholly subsumed or re-claimed comes back with size zero.
    pub fn filter_and_get_size(self, tree: &PathTree, later: &Vec<Pattern>) -> (r: Pattern)
        requires
            resolved_sum(tree@, self@.paths) <= u64::MAX,
        ensures
            r@ == resolve_pattern(tree@, self@, patterns_view(later@)),
    {
        let ghost all = self@.paths;
        let ghost t = tree@;
        let ghost laters = patterns_view(later@);
        let mut rest = self.paths;
        let mut kept: Vec<MatchedPath> = Vec::new();
        let mut sum: u64 = 0;
        let ghost k: int = 0;
        proof {
            assert(all.subrange(0, all.len() as int) =~= all);
            lemma_dedup_sum_bounds(t, all, laters, 0);
            assert(all.skip(0) =~= all);
        }
        while rest.len() > 0
            invariant
                t == tree@,
                laters == patterns_view(later@),
                0 <= k <= all.len(),
                entries_view(rest@) == all.subrange(k as int, all.len() as int),
                entries_view(kept@) + dedup_kept(t, all, laters, k) == dedup_kept(
                    t,
                    all,
                    laters,
                    0,
                ),
                sum + dedup_sum(t, all, laters, k) == dedup_sum(t, all, laters, 0),
                dedup_sum(t, all, laters, 0) <= u64::MAX,
                sum >= 0,
            decreases rest@.len(),
        {
            proof {
                assert(entries_view(rest@).len() == rest@.len());
            }
            let ghost rem = all.subrange(k as int, all.len() as int);
            let m = rest.remove(0);
            proof {
                assert(rem[0] == m@);
                assert(entries_view(rest@) =~= rem.subrange(1, rem.len() as int));
                assert(rem.subrange(1, rem.len() as int) =~= all.subrange(
                    k + 1,
                    all.len() as int,
                ));
                lemma_dedup_sum_bounds(t, all, laters, k + 1);
            }
            let found = tree.get_size_at(&m.path);
            let dup = has_path(&rest, &m.path) || patterns_have_path(later, &m.path);
            proof {
                let cur = all[k as int];
                assert(dup == occurs_later(all, laters, k)) by {
                    if exists|i: int|
                        0 <= i < entries_view(rest@).len() && (#[trigger] entries_view(
                            rest@,
                        )[i]).path == m@.path {
                        let i = choose|i: int|
                            0 <= i < entries_view(rest@).len() && (#[trigger] entries_view(
                                rest@,
                            )[i]).path == m@.path;
                        assert((all[k + 1 + i]).path == cur.path);
                    }
                    if exists|m2: int| k < m2 < all.len() && (#[trigger] all[m2]).path
                        == cur.path {
                        let m2 = choose|m2: int|
                            k < m2 < all.len() && (#[trigger] all[m2]).path == cur.path;
                        assert((entries_view(rest@)[m2 - k - 1]).path == m@.path);
                    }
                }
                assert(entry_kept(t, all, laters, k) == (found is Some && !dup));
            }
            let ghost kept0 = entries_view(kept@);
            match found {
                Option::Some(sz) => {
                    if !dup {
                        proof {
                            assert(entry_contrib(t, all[k as int]) == sz as int);
                            assert(sum + sz <= u64::MAX);
                        }
                        sum = sum + sz;
                        kept.push(m);
                        proof {
                            assert(entries_view(kept@) =~= kept0.push(rem[0]));
                            assert(entries_view(kept@) + dedup_kept(t, all, laters, k + 1)
                                =~= kept0 + dedup_kept(t, all, laters, k));
                        }
                    }
                },
                Option::None => {},
            }
            proof {
                k = k + 1;
            }
        }
        proof {
            assert(entries_view(rest@).len() == rest@.len());
            assert(k == all.len());
            assert(entries_view(kept@) + dedup_kept(t, all, laters, k) =~= entries_view(
                kept@,
            ));
            assert(entries_view(kept@) =~= dedup_kept(t, all, laters, 0));
        }
        Pattern { pattern: self.pattern, paths: kept, size: Option::Some(sum) }
    }

    /// Whether the pattern contributes nothing: no size resolved, or a
    /// resolved size of zero.  Empty patterns are hidden from the report.
    pub fn is_empty(&self) -> (r: bool)
        ensures
            r == match self@.size {
                Option::Some(s) => s == 0,
                Option::None => true,
            },
    {
        match self.size {
            Option::Some(s) => s == 0,
            Option::None => true,
        }
    }

    /// The size resolved by `filter_and_get_size`, if it has run.
    pub fn get_size_cached(&self) -> (r: Option<u64>)
        ensures
            r == self@.size,
    {
        self.size
    }

    /// How many of the pattern's current paths are files.
    pub fn num_files(&self) -> (r: usize)
        ensures
            r == count_kind(self@.paths, PathKind::File),
    {
        self.count_of(PathKind::File)
    }

    /// How many of the pattern's current paths are directories.
    pub fn num_dirs(&self) -> (r: usize)
        ensures
            r == count_kind(self@.paths, PathKind::Dir),
    {
        self.count_of(PathKind::Dir)
    }

    #[verifier::loop_isolation(false)]
    fn count_of(&self, kind: PathKind) -> (r: usize)
        ensures
            r == count_kind(self@.paths, kind),
    {
        let ghost all = self@.paths;
        let n = self.paths.len();
        let mut c: usize = 0;
        let mut i: usize = 0;
        proof {
            assert(all.take(0) =~= Seq::<EntryV>::empty());
        }
        while i < n
            invariant
                i <= n,
                c <= i,
                c == count_kind(all.take(i as int), kind),
            decreases n - i,
        {
            proof {
                assert(all.take(i + 1 as int).drop_last() =~= all.take(i as int));
                assert(all.take(i + 1 as int).last() == self.paths@[i as int]@);
            }
            let matches_kind = match (self.paths[i].kind, kind) {
                (PathKind::File, PathKind::File) => true,
                (PathKind::Dir, PathKind::Dir) => true,
                (PathKind::Other, PathKind::Other) => true,
                _ => false,
            };
            if matches_kind {
                c += 1;
            }
            i += 1;
        }
        proof {
            assert(all.take(n as int) =~= all);
        }
        c
    }
}

/// How many entries have the given kind.
pub open spec fn count_kind(es: Seq<EntryV>, kind: PathKind) -> int
    decreases es.len(),
{
    if es.len() == 0 {
        0int
    } else {
        count_kind(es.drop_last(), kind) + if es.last().kind == kind {
            1int
        } else {
            0int
        }
    }
}

/// One deletion the caller is asked to perform: a path in display form,
/// and whether it is a directory (to be removed recursively).
pub struct CleanAction {
    pub path: String,
    pub is_dir: bool,
}

/// The model of a deletion.
pub ghost struct ActionV {
    pub path: Seq<char>,
    pub is_dir: bool,
}

impl View for CleanAction {
    type V = ActionV;

    open spec fn view(&self) -> ActionV {
        ActionV { path: self.path@, is_dir: self.is_dir }
    }
}

/// The models of an action list.
pub open spec fn actions_view(s: Seq<CleanAction>) -> Seq<ActionV> {
    s.map_values(|a: CleanAction| a@)
}

/// The deletion an entry asks for.
pub open spec fn action_of(e: EntryV) -> ActionV {
    ActionV { path: display_spec(e.path), is_dir: e.kind == PathKind::Dir }
}

/// The deletion plan of a pattern: one action per remaining path, in order.
pub open spec fn clean_plan_spec(p: PatternV) -> Seq<ActionV> {
    p.paths.map_values(|e: EntryV| action_of(e))
}

/// The action a cleaner performs at step `k` of a pattern's plan, given
/// whether the step before it failed.  The plan is fixed before any
/// deletion is attempted, so the outcome parameter cannot influence it.
pub open spec fn clean_next(p: PatternV, k: int, prev_failed: bool) -> Option<ActionV> {
    if 0 <= k < clean_plan_spec(p).len() {
        Option::Some(clean_plan_spec(p)[k])
    } else {
        Option::None
    }
}

/// Best-effort deletion: a path that cannot be deleted changes nothing
/// about which other paths are attempted — the next action never depends
/// on an earlier outcome, and the plan covers every remaining path of the
/// pattern exactly once.
pub proof fn lemma_clean_best_effort(p: PatternV, k: int)
    ensures
        clean_next(p, k, true) == clean_next(p, k, false),
        clean_plan_spec(p).len() == p.paths.len(),
        forall|i: int|
            0 <= i < p.paths.len() ==> clean_plan_spec(p)[i] == action_of(#[trigger] p.paths[i]),
{
}

impl Pattern {
    /// The deletion plan for this pattern: every one of its remaining
    /// paths, in order.  The caller performs the deletions; a failure on
    /// one path must not stop it from attempting the rest.
    #[verifier::loop_isolation(false)]
    pub fn clean(&self) -> (r: Vec<CleanAction>)
        ensures
            actions_view(r@) == clean_plan_spec(self@),
    {
        let ghost all = self@.paths;
        let n = self.paths.len();
        let mut out: Vec<CleanAction> = Vec::new();
        let mut i: usize = 0;
        proof {
            assert(actions_view(out@) =~= all.take(0).map_values(|e: EntryV| action_of(e)));
        }
        while i < n
            invariant
                i <= n,
                actions_view(out@) == all.take(i as int).map_values(|e: EntryV| action_of(e)),
            decreases n - i,
        {
            proof {
                assert(all[i as int] == self.paths@[i as int]@);
            }
            let m = &self.paths[i];
            let path = m.path.to_display();
            let is_dir = match m.kind {
                PathKind::Dir => true,
                _ => false,
            };
            let ghost out0 = actions_view(out@);
            out.push(CleanAction { path, is_dir });
            proof {
                assert(actions_view(out@) =~= out0.push(
                    ActionV { path: path@, is_dir: is_dir },
                ));
                assert((ActionV { path: path@, is_dir: is_dir }) == action_of(all[i as int]));
                assert(actions_view(out@) =~= all.take(i + 1 as int).map_values(
                    |e: EntryV| action_of(e),
                ));
            }
            i += 1;
        }
        proof {
            assert(all.take(n as int) =~= all);
        }
        out
    }
}

/// Whether a resolved pattern contributes nothing and is hidden.
pub open spec fn pattern_empty(p: PatternV) -> bool {
    match p.size {
        Option::Some(s) => s == 0,
        Option::None => true,
    }
}

/// Every pattern resolved against the finished tree, each seeing the
/// patterns after it in rule order so that re-claimed paths are dropped.
pub open spec fn resolve_all(t: TreeV, ps: Seq<PatternV>) -> Seq<PatternV> {
    Seq::new(ps.len(), |k: int| resolve_pattern(t, ps[k], ps.skip(k + 1)))
}

/// The non-empty patterns, in order.
pub open spec fn keep_nonempty(ps: Seq<PatternV>) -> Seq<PatternV> {
    ps.filter(|p: PatternV| !pattern_empty(p))
}

/// The ordering key of a resolved pattern: its size, with an unresolved
/// pattern sorting before everything.
pub open spec fn size_key(p: PatternV) -> int {
    match p.size {
        Option::Some(s) => s as int,
        Option::None => -1int,
    }
}

/// Stable insertion into an already sorted run: the new pattern lands
/// after every pattern of equal or smaller size.
pub open spec fn insert_sorted(p: PatternV, s: Seq<PatternV>) -> Seq<PatternV>
    decreases s.len(),
{
    if s.len() == 0 {
        seq![p]
    } else if size_key(s.last()) <= size_key(p) {
        s.push(p)
    } else {
        insert_sorted(p, s.drop_last()).push(s.last())
    }
}

/// Stable insertion sort, ascending by size.
pub open spec fn sort_by_size(s: Seq<PatternV>) -> Seq<PatternV>
    decreases s.len(),
{
    if s.len() == 0 {
        s
    } else {
        insert_sorted(s.last(), sort_by_size(s.drop_last()))
    }
}

/// Ascending by size key.
pub open spec fn sorted_by_size(s: Seq<PatternV>) -> bool {
    forall|i: int, j: int| 0 <= i <= j < s.len() ==> size_key(s[i]) <= size_key(s[j])
}

proof fn lemma_insert_sorted_bound(p: PatternV, s: Seq<PatternV>, b: int)
    requires
        size_key(p) <= b,
        forall|i: int| 0 <= i < s.len() ==> size_key(#[trigger] s[i]) <= b,
    ensures
        forall|i: int|
            0 <= i < insert_sorted(p, s).len() ==> size_key(#[trigger] insert_sorted(p, s)[i])
                <= b,
    decreases s.len(),
{
    let r = insert_sorted(p, s);
    if s.len() == 0 {
        assert(r =~= seq![p]);
    } else if size_key(s.last()) <= size_key(p) {
        assert forall|i: int| 0 <= i < r.len() implies size_key(#[trigger] r[i]) <= b by {
            if i < s.len() {
                assert(r[i] == s[i]);
            }
        }
    } else {
        let dl = s.drop_last();
        assert(forall|i: int| 0 <= i < dl.len() ==> dl[i] == s[i]);
        lemma_insert_sorted_bound(p, dl, b);
        let r0 = insert_sorted(p, dl);
        assert forall|i: int| 0 <= i < r.len() implies size_key(#[trigger] r[i]) <= b by {
            if i < r0.len() {
                assert(r[i] == r0[i]);
            } else {
                assert(r[i] == s.last());
                assert(size_key(s[s.len() - 1]) <= b);
            }
        }
    }
}

proof fn lemma_insert_sorted_sorted(p: PatternV, s: Seq<PatternV>)
    requires
        sorted_by_size(s),
    ensures
        sorted_by_size(insert_sorted(p, s)),
    decreases s.len(),
{
    if s.len() == 0 {
    } else if size_key(s.last()) <= size_key(p) {
        let r = s.push(p);
        assert forall|i: int, j: int| 0 <= i <= j < r.len() implies size_key(r[i]) <= size_key(
            r[j],
        ) by {
            if j == r.len() - 1 && i < j {
                assert(size_key(s[i]) <= size_key(s[s.len() - 1]));
            }
        }
    } else {
        let dl = s.drop_last();
        assert(forall|i: int| 0 <= i < dl.len() ==> dl[i] == s[i]);
        lemma_insert_sorted_sorted(p, dl);
        lemma_insert_sorted_bound(p, dl, size_key(s.last()));
        let r0 = insert_sorted(p, dl);
        let r = r0.push(s.last());
        assert forall|i: int, j: int| 0 <= i <= j < r.len() implies size_key(r[i]) <= size_key(
            r[j],
        ) by {
            if j == r.len() - 1 && i < j {
                assert(size_key(r0[i]) <= size_key(s.last()));
            }
        }
    }
}

proof fn lemma_insert_sorted_multiset(p: PatternV, s: Seq<PatternV>)
    ensures
        insert_sorted(p, s).to_multiset() == s.to_multiset().insert(p),
    decreases s.len(),
{
    broadcast use vstd::seq_lib::group_to_multiset_ensures;

    if s.len() == 0 {
        assert(s.push(p) =~= insert_sorted(p, s));
        assert(insert_sorted(p, s).to_multiset() =~= s.to_multiset().insert(p));
    } else if size_key(s.last()) <= size_key(p) {
    } else {
        let dl = s.drop_last();
        lemma_insert_sorted_multiset(p, dl);
        assert(dl.push(s.last()) =~= s);
        assert(insert_sorted(p, s).to_multiset() =~= dl.to_multiset().insert(p).insert(
            s.last(),
        ));
        assert(dl.to_multiset().insert(p).insert(s.last()) =~= dl.to_multiset().insert(
            s.last(),
        ).insert(p));
        assert(s.to_multiset() =~= dl.to_multiset().insert(s.last()));
    }
}

/// The order the report's callers rely on: the sorted pattern list is
/// ascending by resolved size, and holds exactly the patterns it was
/// given, each exactly as often.
pub proof fn lemma_sort_by_size_ensures(s: Seq<PatternV>)
    ensures
        sorted_by_size(sort_by_size(s)),
        sort_by_size(s).to_multiset() == s.to_multiset(),
    decreases s.len(),
{
    broadcast use vstd::seq_lib::group_to_multiset_ensures;

    if s.len() > 0 {
        let dl = s.drop_last();
        lemma_sort_by_size_ensures(dl);
        lemma_insert_sorted_sorted(s.last(), sort_by_size(dl));
        lemma_insert_sorted_multiset(s.last(), sort_by_size(dl));
        assert(dl.push(s.last()) =~= s);
        assert(s.to_multiset() =~= dl.to_multiset().insert(s.last()));
    }
}

/// Splicing at the position found by scanning from the end is exactly
/// `insert_sorted`.
proof fn lemma_insert_sorted_at(s: Seq<PatternV>, p: PatternV, pos: int)
    requires
        0 <= pos <= s.len(),
        forall|m: int| pos <= m < s.len() ==> size_key(#[trigger] s[m]) > size_key(p),
        pos > 0 ==> size_key(s[pos - 1]) <= size_key(p),
    ensures
        insert_sorted(p, s) == s.insert(pos, p),
    decreases s.len(),
{
    if pos == s.len() {
        if s.len() == 0 {
            assert(insert_sorted(p, s) =~= s.insert(pos, p));
        } else {
            assert(size_key(s[pos - 1]) <= size_key(p));
            assert(insert_sorted(p, s) =~= s.insert(pos, p));
        }
    } else {
        let dl = s.drop_last();
        assert(size_key(s[s.len() - 1]) > size_key(p));
        assert(forall|m: int| pos <= m < dl.len() ==> size_key(#[trigger] dl[m]) > size_key(p));
        if pos > 0 {
            assert(dl[pos - 1] == s[pos - 1]);
        }
        lemma_insert_sorted_at(dl, p, pos);
        assert(insert_sorted(p, s) =~= s.insert(pos, p));
    }
}

/// Compares two patterns by their size key.
fn key_le(a: &Pattern, b: &Pattern) -> (r: bool)
    ensures
        r == (size_key(a@) <= size_key(b@)),
{
    match (a.size, b.size) {
        (Option::None, _) => true,
        (Option::Some(_), Option::None) => false,
        (Option::Some(x), Option::Some(y)) => x <= y,
    }
}

/// Sorts patterns ascending by resolved size, stably.
#[verifier::loop_isolation(false)]
fn sort_patterns(input: Vec<Pattern>) -> (r: Vec<Pattern>)
    ensures
        patterns_view(r@) == sort_by_size(patterns_view(input@)),
{
    let ghost all = patterns_view(input@);
    let mut rest = input;
    let mut out: Vec<Pattern> = Vec::new();
    let ghost k: int = 0;
    proof {
        assert(patterns_view(rest@) =~= all.skip(0));
        assert(patterns_view(out@) =~= sort_by_size(all.take(0)));
    }
    while rest.len() > 0
        invariant
            0 <= k <= all.len(),
            patterns_view(rest@) == all.skip(k),
            patterns_view(out@) == sort_by_size(all.take(k)),
        decreases rest@.len(),
    {
        proof {
            assert(patterns_view(rest@).len() == rest@.len());
        }
        let ghost rv0 = rest@;
        let p = rest.remove(0);
        proof {
            assert(patterns_view(rv0)[0] == p@);
            assert(all.skip(k)[0] == p@);
            assert(rest@ =~= rv0.subrange(1, rv0.len() as int));
            assert(forall|m: int| 0 <= m < rest@.len() ==> rest@[m] == rv0[m + 1]);
            assert forall|m: int| 0 <= m < rest@.len() implies #[trigger] patterns_view(
                rest@,
            )[m] == all.skip(k + 1)[m] by {
                assert(patterns_view(rv0)[m + 1] == all.skip(k)[m + 1]);
            }
            assert(patterns_view(rest@) =~= all.skip(k + 1));
        }
        let mut pos = out.len();
        while pos > 0 && !key_le(&out[pos - 1], &p)
            invariant
                pos <= out@.len(),
                forall|m: int|
                    pos <= m < out@.len() ==> size_key(#[trigger] patterns_view(out@)[m])
                        > size_key(p@),
            decreases pos,
        {
            proof {
                assert(patterns_view(out@)[pos - 1] == out@[pos - 1]@);
            }
            pos = pos - 1;
        }
        let ghost out0 = patterns_view(out@);
        proof {
            if pos > 0 {
                assert(patterns_view(out@)[pos - 1] == out@[pos - 1]@);
            }
            lemma_insert_sorted_at(out0, p@, pos as int);
        }
        out.insert(pos, p);
        proof {
            assert(patterns_view(out@) =~= out0.insert(pos as int, p@));
            assert(all.take(k + 1).drop_last() =~= all.take(k));
            assert(all.take(k + 1).last() == p@);
            assert(patterns_view(out@) =~= sort_by_size(all.take(k + 1)));
            k = k + 1;
        }
    }
    proof {
        assert(patterns_view(rest@).len() == rest@.len());
        assert(all.take(k) =~= all);
    }
    out
}

/// The rules a listing starts from, each normalized, kept unique and in
/// first-insertion order.  Keeping a fixed order makes listing
/// deterministic: when two overlapping rules are inserted, the later one
/// in this order wins the overlap.
pub struct Rules {
    patterns: Vec<String>,
}

impl View for Rules {
    type V = Seq<Seq<char>>;

    closed spec fn view(&self) -> Seq<Seq<char>> {
        self.patterns.deep_view()
    }
}

/// No rule occurs twice.
pub open spec fn unique_rules(s: Seq<Seq<char>>) -> bool {
    forall|i: int, j: int| 0 <= i < j < s.len() ==> s[i] != s[j]
}

/// What adding one raw rule string does: a string that fails
/// normalization is dropped, a normalized form already present is a
/// no-op, anything else is appended.
pub open spec fn add_one_spec(cur: Seq<Seq<char>>, raw: Seq<char>) -> Seq<Seq<char>> {
    match canon_spec(raw) {
        Option::None => cur,
        Option::Some(p) => {
            if cur.contains(display_spec(p)) {
                cur
            } else {
                cur.push(display_spec(p))
            }
        },
    }
}

/// Adding a list of raw rule strings, left to right.
pub open spec fn add_all_spec(cur: Seq<Seq<char>>, raws: Seq<Seq<char>>) -> Seq<Seq<char>>
    decreases raws.len(),
{
    if raws.len() == 0 {
        cur
    } else {
        add_all_spec(add_one_spec(cur, raws[0]), raws.subrange(1, raws.len() as int))
    }
}

/// Set semantics of the rule collection: adding a pattern whose
/// normalized form is already present changes nothing, so adding the same
/// pattern twice leaves the rule count of the first addition.
pub proof fn lemma_add_idempotent(cur: Seq<Seq<char>>, raw: Seq<char>)
    ensures
        add_one_spec(add_one_spec(cur, raw), raw) == add_one_spec(cur, raw),
        add_one_spec(add_one_spec(cur, raw), raw).len() == add_one_spec(cur, raw).len(),
{
    match canon_spec(raw) {
        Option::None => {},
        Option::Some(p) => {
            let s = display_spec(p);
            if !cur.contains(s) {
                assert(cur.push(s)[cur.len() as int] == s);
                assert(cur.push(s).contains(s));
            }
        },
    }
}

/// Adding keeps the rules unique.
proof fn lemma_add_one_unique(cur: Seq<Seq<char>>, raw: Seq<char>)
    ensures
        unique_rules(cur) ==> unique_rules(add_one_spec(cur, raw)),
{
    if !unique_rules(cur) {
        return;
    }
    match canon_spec(raw) {
        Option::None => {},
        Option::Some(p) => {
            let s = display_spec(p);
            if !cur.contains(s) {
                let cur2 = cur.push(s);
                assert forall|i: int, j: int| 0 <= i < j < cur2.len() implies cur2[i]
                    != cur2[j] by {
                    if j == cur.len() {
                        assert(!cur.contains(s));
                        assert(cur2[i] == cur[i]);
                    }
                }
            }
        },
    }
}

/// What removing one raw rule string does: the string is normalized the
/// same way `add` normalizes, and every stored rule with that normalized
/// text goes away; a string that fails normalization removes nothing.
pub open spec fn remove_one_spec(cur: Seq<Seq<char>>, raw: Seq<char>) -> Seq<Seq<char>> {
    match canon_spec(raw) {
        Option::None => cur,
        Option::Some(p) => cur.filter(|x: Seq<char>| x != display_spec(p)),
    }
}

/// Removing a list of raw rule strings, left to right.
pub open spec fn remove_all_spec(cur: Seq<Seq<char>>, raws: Seq<Seq<char>>) -> Seq<Seq<char>>
    decreases raws.len(),
{
    if raws.len() == 0 {
        cur
    } else {
        remove_all_spec(remove_one_spec(cur, raws[0]), raws.subrange(1, raws.len() as int))
    }
}

/// The stored text: one rule per line, each line newline-terminated.
pub open spec fn write_spec(ps: Seq<Seq<char>>) -> Seq<char>
    decreases ps.len(),
{
    if ps.len() == 0 {
        Seq::empty()
    } else {
        write_spec(ps.drop_last()) + ps.last() + seq!['\n']
    }
}

impl Rules {
    /// An empty rule set.
    pub fn new() -> (r: Rules)
        ensures
            r@ == Seq::<Seq<char>>::empty(),
            unique_rules(r@),
    {
        let r = Rules { patterns: Vec::new() };
        proof {
            assert(r@ =~= Seq::<Seq<char>>::empty());
        }
        r
    }

    /// How the stored rules read, in order.
    pub fn get(&self) -> (r: &Vec<String>)
        ensures
            r.deep_view() == self@,
    {
        &self.patterns
    }

    /// Whether a rule with exactly this text is stored.
    fn contains_pattern(&self, s: &String) -> (r: bool)
        ensures
            r == self@.contains(s@),
    {
        let n = self.patterns.len();
        let mut i: usize = 0;
        while i < n
            invariant
                i <= n,
                n == self.patterns@.len(),
                n == self@.len(),
                forall|m: int| 0 <= m < i ==> self@[m] != s@,
            decreases n - i,
        {
            proof {
                assert(self@[i as int] == self.patterns@[i as int]@);
            }
            if self.patterns[i] == *s {
                return true;
            }
            i += 1;
        }
        proof {
            if self@.contains(s@) {
                let w = choose|w: int| 0 <= w < self@.len() && self@[w] == s@;
                assert(self@[w] != s@);
            }
        }
        false
    }

    /// Normalizes each raw string and stores the results, skipping
    /// duplicates and anything that fails normalization.
    pub fn add(&mut self, patterns: Vec<String>)
        ensures
            final(self)@ == add_all_spec(old(self)@, patterns.deep_view()),
            unique_rules(old(self)@) ==> unique_rules(final(self)@),
    {
        let ghost raws = patterns.deep_view();
        let ghost s0 = self@;
        let n = patterns.len();
        let mut i: usize = 0;
        proof {
            assert(raws.skip(0) =~= raws);
        }
        while i < n
            invariant
                i <= n,
                n == patterns@.len(),
                n == raws.len(),
                raws == patterns.deep_view(),
                add_all_spec(self@, raws.skip(i as int)) == add_all_spec(s0, raws),
                unique_rules(s0) ==> unique_rules(self@),
            decreases n - i,
        {
            let ghost before = self@;
            proof {
                assert(raws.skip(i as int)[0] == raws[i as int]);
                assert(raws[i as int] == patterns@[i as int]@);
                assert(raws.skip(i as int).subrange(1, raws.skip(i as int).len() as int)
                    =~= raws.skip(i + 1 as int));
                lemma_add_one_unique(before, raws[i as int]);
            }
            match canonicalize(patterns[i].as_str()) {
                Option::Some(p) => {
                    let s = p.to_display();
                    if !self.contains_pattern(&s) {
                        self.patterns.push(s);
                        proof {
                            assert(self@ =~= before.push(s@));
                            assert(self@ == add_one_spec(before, raws[i as int]));
                        }
                    } else {
                        proof {
                            assert(self@ == add_one_spec(before, raws[i as int]));
                        }
                    }
                },
                Option::None => {
                    proof {
                        assert(self@ == add_one_spec(before, raws[i as int]));
                    }
                },
            }
            i += 1;
        }
        proof {
            assert(raws.skip(n as int) =~= Seq::<Seq<char>>::empty());
        }
    }

    /// Reads a stored rule file's text: one rule per line, blank lines
    /// and lines that fail normalization skipped, duplicates collapsed.
    pub fn load(&mut self, content: &str)
        ensures
            final(self)@ == add_all_spec(old(self)@, split_spec(content@, '\n')),
            unique_rules(old(self)@) ==> unique_rules(final(self)@),
    {
        let lines = split_char(content, '\n');
        self.add(lines);
    }

    /// Removes every stored rule matching one of the raw strings, each
    /// compared by its fully normalized form — the same normalization
    /// `add` stores under.  A string that fails normalization removes
    /// nothing.
    pub fn remove(&mut self, patterns: Vec<String>)
        ensures
            final(self)@ == remove_all_spec(old(self)@, patterns.deep_view()),
            unique_rules(old(self)@) ==> unique_rules(final(self)@),
    {
        let ghost raws = patterns.deep_view();
        let ghost s0 = self@;
        let n = patterns.len();
        let mut i: usize = 0;
        proof {
            assert(raws.skip(0) =~= raws);
        }
        while i < n
            invariant
                i <= n,
                n == patterns@.len(),
                n == raws.len(),
                raws == patterns.deep_view(),
                remove_all_spec(self@, raws.skip(i as int)) == remove_all_spec(s0, raws),
                unique_rules(s0) ==> unique_rules(self@),
            decreases n - i,
        {
            let ghost before = self@;
            proof {
                assert(raws.skip(i as int)[0] == raws[i as int]);
                assert(raws[i as int] == patterns@[i as int]@);
                assert(raws.skip(i as int).subrange(1, raws.skip(i as int).len() as int)
                    =~= raws.skip(i + 1 as int));
            }
            match canonicalize(patterns[i].as_str()) {
                Option::None => {
                    proof {
                        assert(self@ == remove_one_spec(before, raws[i as int]));
                    }
                },
                Option::Some(normalized) => {
                    let key = normalized.to_display();
                    let ghost key_view = display_spec(canon_spec(raws[i as int])->0);
                    proof {
                        assert(key@ == key_view);
                    }
                    let m = self.patterns.len();
                    let mut keep: Vec<String> = Vec::new();
                    let mut j: usize = 0;
                    proof {
                        reveal(Seq::filter);
                        assert(keep.deep_view() =~= before.take(0).filter(
                            |x: Seq<char>| x != key_view,
                        ));
                    }
                    while j < m
                        invariant
                            j <= m,
                            m == self.patterns@.len(),
                            m == before.len(),
                            before == self@,
                            key@ == key_view,
                            keep.deep_view() == before.take(j as int).filter(
                                |x: Seq<char>| x != key_view,
                            ),
                        decreases m - j,
                    {
                        proof {
                            reveal(Seq::filter);
                            assert(before[j as int] == self.patterns@[j as int]@);
                            assert(before.take(j + 1 as int).drop_last() =~= before.take(
                                j as int,
                            ));
                            assert(before.take(j + 1 as int).last() == before[j as int]);
                        }
                        let ghost keep0 = keep.deep_view();
                        if !(self.patterns[j] == key) {
                            keep.push(self.patterns[j].clone());
                            proof {
                                assert(keep.deep_view() =~= keep0.push(before[j as int]));
                            }
                        }
                        proof {
                            assert(keep.deep_view() =~= before.take(j + 1 as int).filter(
                                |x: Seq<char>| x != key_view,
                            ));
                        }
                        j += 1;
                    }
                    proof {
                        assert(before.take(m as int) =~= before);
                    }
                    self.patterns = keep;
                    proof {
                        assert(self@ == remove_one_spec(before, raws[i as int]));
                        lemma_filter_unique(before, key_view);
                    }
                },
            }
            i += 1;
        }
        proof {
            assert(raws.skip(n as int) =~= Seq::<Seq<char>>::empty());
        }
    }

    /// Serializes the stored rules for persistence: one per line, each
    /// line newline-terminated.  The caller rewrites the store in full.
    pub fn write(&self) -> (r: String)
        ensures
            r@ == write_spec(self@),
    {
        let n = self.patterns.len();
        let mut out = String::new();
        let mut i: usize = 0;
        proof {
            assert(self@.take(0) =~= Seq::<Seq<char>>::empty());
            assert(out@ =~= write_spec(self@.take(0)));
        }
        while i < n
            invariant
                i <= n,
                n == self.patterns@.len(),
                n == self@.len(),
                out@ == write_spec(self@.take(i as int)),
            decreases n - i,
        {
            proof {
                assert(self@[i as int] == self.patterns@[i as int]@);
                assert(self@.take(i + 1 as int).drop_last() =~= self@.take(i as int));
                assert(self@.take(i + 1 as int).last() == self@[i as int]);
            }
            out.append(self.patterns[i].as_str());
            out.append("\n");
            proof {
                reveal_strlit("\n");
                assert("\n"@ =~= seq!['\n']);
                assert(out@ =~= write_spec(self@.take(i + 1 as int)));
            }
            i += 1;
        }
        proof {
            assert(self@.take(n as int) =~= self@);
        }
        out
    }
}

/// The deletion plans of a pattern list, one after another.
pub open spec fn clean_all_spec(ps: Seq<PatternV>) -> Seq<ActionV>
    decreases ps.len(),
{
    if ps.len() == 0 {
        Seq::empty()
    } else {
        clean_all_spec(ps.drop_last()) + clean_plan_spec(ps.last())
    }
}

/// Whether each pattern's resolved size fits the size type once the tree
/// is built.
pub open spec fn sums_fit(t: TreeV, ps: Seq<PatternV>) -> bool {
    forall|i: int|
        0 <= i < ps.len() ==> resolved_sum(t, (#[trigger] ps[i]).paths) <= u64::MAX
}

/// The arithmetic preconditions of a whole listing run over a starting
/// tree: the tree is well-formed, every insertion's size conditions hold
/// as the build proceeds, and no pattern's summed sizes overflow (the
/// sum counts repeated paths, an upper bound on the resolved size).
pub open spec fn expansion_pre(t0: TreeV, ps: Seq<PatternV>) -> bool {
    &&& t0.wf()
    &&& patterns_ok(t0, ps)
    &&& sums_fit(insert_patterns(t0, ps), ps)
}

/// The report of a listing run: every pattern's paths inserted in rule
/// order, each pattern resolved against the finished tree, empty patterns
/// hidden, and the rest sorted ascending by size.
pub open spec fn listing_spec(t0: TreeV, ps: Seq<PatternV>) -> Seq<PatternV> {
    sort_by_size(keep_nonempty(resolve_all(insert_patterns(t0, ps), ps)))
}

/// No double counting at the listing level: when one rule resolves to an
/// ancestor of another rule's path, the tree a listing builds from the
/// two accounts the ancestor's size alone — whichever of the two is
/// inserted first — never the sum of both.  (Inserting the ancestor
/// second asks the tree for at least the descendant's bytes back, so its
/// size must be at least the descendant's, as any size measure of nested
/// filesystem paths is.)
#[verifier::rlimit(60)]
pub proof fn lemma_listing_no_double_count(pa: PatternV, pb: PatternV)
    requires
        pa.paths.len() == 1,
        pb.paths.len() == 1,
        pa.paths[0].path.is_prefix_of(pb.paths[0].path),
        pa.paths[0].path != pb.paths[0].path,
        pa.paths[0].size >= pb.paths[0].size,
    ensures
        insert_patterns(TreeV::empty(), seq![pa, pb]).size_val() == pa.paths[0].size,
        insert_patterns(TreeV::empty(), seq![pb, pa]).size_val() == pa.paths[0].size,
{
    let a = pa.paths[0].path;
    let b = pb.paths[0].path;
    let sa = pa.paths[0].size;
    let sb = pb.paths[0].size;
    crate::tree::lemma_no_double_counting(a, b, sa, sb);
    reveal_with_fuel(insert_entries, 3);
    reveal_with_fuel(insert_patterns, 3);
    let t_a = TreeV::empty().insert_spec(a, sa).0;
    let t_b = TreeV::empty().insert_spec(b, sb).0;
    assert(pa.paths.subrange(1, 1) =~= Seq::<EntryV>::empty());
    assert(pb.paths.subrange(1, 1) =~= Seq::<EntryV>::empty());
    assert(insert_entries(TreeV::empty(), pa.paths) == t_a);
    assert(insert_entries(TreeV::empty(), pb.paths) == t_b);
    let two_ab = seq![pa, pb];
    let two_ba = seq![pb, pa];
    assert(two_ab.subrange(1, 2) =~= seq![pb]);
    assert(two_ba.subrange(1, 2) =~= seq![pa]);
    assert(seq![pb].subrange(1, 1) =~= Seq::<PatternV>::empty());
    assert(seq![pa].subrange(1, 1) =~= Seq::<PatternV>::empty());
    assert(insert_patterns(TreeV::empty(), two_ab) == insert_entries(t_a, pb.paths));
    assert(insert_entries(t_a, pb.paths) == t_a.insert_spec(b, sb).0);
    assert(insert_patterns(TreeV::empty(), two_ba) == insert_entries(t_b, pa.paths));
    assert(insert_entries(t_b, pa.paths) == t_b.insert_spec(a, sa).0);
}

/// Listing is idempotent: the report is a pure function of the starting
/// tree and the expanded patterns, so two listings over unchanged
/// filesystem contents yield identical patterns, sizes and counts.
pub proof fn lemma_listing_idempotent(
    t1: TreeV,
    t2: TreeV,
    ps1: Seq<PatternV>,
    ps2: Seq<PatternV>,
)
    requires
        t1 == t2,
        ps1 == ps2,
    ensures
        listing_spec(t1, ps1) == listing_spec(t2, ps2),
        insert_patterns(t1, ps1) == insert_patterns(t2, ps2),
{
}

impl Rules {
    /// The listing pipeline over already-expanded patterns: builds the
    /// shared deduplication tree by inserting every pattern's paths in
    /// rule order (the write phase), then resolves each pattern's
    /// deduplicated size against the finished tree — a path matched by
    /// several rules counts for the last of them alone — drops the empty
    /// ones and sorts the rest ascending by size.
    pub fn expand_patterns(&self, tree: &mut PathTree, patterns: Vec<Pattern>) -> (r: Vec<
        Pattern,
    >)
        requires
            expansion_pre(old(tree)@, patterns_view(patterns@)),
        ensures
            final(tree)@ == insert_patterns(old(tree)@, patterns_view(patterns@)),
            final(tree)@.wf(),
            patterns_view(r@) == listing_spec(old(tree)@, patterns_view(patterns@)),
            sorted_by_size(patterns_view(r@)),
    {
        let ghost all = patterns_view(patterns@);
        let ghost t0 = tree@;
        let n = patterns.len();
        let mut i: usize = 0;
        proof {
            assert(all.skip(0) =~= all);
        }
        while i < n
            invariant
                i <= n,
                n == patterns@.len(),
                all == patterns_view(patterns@),
                all.len() == n,
                tree@.wf(),
                patterns_ok(tree@, all.skip(i as int)),
                insert_patterns(tree@, all.skip(i as int)) == insert_patterns(t0, all),
                sums_fit(insert_patterns(t0, all), all),
            decreases n - i,
        {
            let ghost rem = all.skip(i as int);
            proof {
                assert(rem.len() > 0);
                assert(rem[0] == all[i as int]);
                assert(all[i as int] == patterns@[i as int]@);
                assert(rem.subrange(1, rem.len() as int) =~= all.skip(i + 1 as int));
            }
            patterns[i].insert(tree);
            i += 1;
        }
        proof {
            assert(all.skip(n as int) =~= Seq::<PatternV>::empty());
        }
        let ghost tfin = tree@;
        proof {
            assert(tfin == insert_patterns(t0, all));
        }
        let ghost ra = resolve_all(tfin, all);
        let mut rest = patterns;
        let mut out: Vec<Pattern> = Vec::new();
        let ghost k: int = 0;
        proof {
            assert(patterns_view(rest@) =~= all.skip(0));
            reveal(Seq::filter);
            assert(ra.take(0) =~= Seq::<PatternV>::empty());
            assert(patterns_view(out@) =~= keep_nonempty(ra.take(0)));
        }
        while rest.len() > 0
            invariant
                0 <= k <= all.len(),
                tfin == tree@,
                ra == resolve_all(tfin, all),
                ra.len() == all.len(),
                patterns_view(rest@) == all.skip(k),
                patterns_view(out@) == keep_nonempty(ra.take(k)),
                sums_fit(tfin, all),
            decreases rest@.len(),
        {
            proof {
                assert(patterns_view(rest@).len() == rest@.len());
            }
            let ghost rv0 = rest@;
            let p = rest.remove(0);
            proof {
                assert(patterns_view(rv0)[0] == p@);
                assert(all.skip(k)[0] == p@);
                assert(p@ == all[k]);
                assert(forall|m: int| 0 <= m < rest@.len() ==> rest@[m] == rv0[m + 1]);
                assert forall|m: int| 0 <= m < rest@.len() implies #[trigger] patterns_view(
                    rest@,
                )[m] == all.skip(k + 1)[m] by {
                    assert(patterns_view(rv0)[m + 1] == all.skip(k)[m + 1]);
                }
                assert(patterns_view(rest@) =~= all.skip(k + 1));
                assert(resolved_sum(tfin, all[k].paths) <= u64::MAX);
            }
            let p2 = p.filter_and_get_size(tree, &rest);
            let ghost out0 = patterns_view(out@);
            proof {
                assert(p2@ == resolve_pattern(tfin, all[k], all.skip(k + 1)));
                assert(p2@ == ra[k]);
                assert(ra.take(k + 1).drop_last() =~= ra.take(k));
                assert(ra.take(k + 1).last() == ra[k]);
            }
            if !p2.is_empty() {
                out.push(p2);
                proof {
                    reveal(Seq::filter);
                    assert(patterns_view(out@) =~= out0.push(ra[k]));
                    assert(patterns_view(out@) =~= keep_nonempty(ra.take(k + 1)));
                }
            } else {
                proof {
                    reveal(Seq::filter);
                    assert(patterns_view(out@) =~= keep_nonempty(ra.take(k + 1)));
                }
            }
            proof {
                k = k + 1;
            }
        }
        proof {
            assert(patterns_view(rest@).len() == rest@.len());
            assert(ra.take(k) =~= ra);
        }
        let sorted = sort_patterns(out);
        proof {
            assert(patterns_view(sorted@) == listing_spec(t0, all));
            lemma_sort_by_size_ensures(keep_nonempty(resolve_all(tfin, all)));
        }
        sorted
    }

    /// The deletion plans of every listed pattern, in listing order.  The
    /// caller performs the deletions path by path, skipping failures; the
    /// listed patterns' path sets are pairwise disjoint, so the plans never
    /// name one path twice.
    pub fn clean(&self, patterns: &Vec<Pattern>) -> (r: Vec<CleanAction>)
        ensures
            actions_view(r@) == clean_all_spec(patterns_view(patterns@)),
    {
        let ghost all = patterns_view(patterns@);
        let n = patterns.len();
        let mut out: Vec<CleanAction> = Vec::new();
        let mut i: usize = 0;
        proof {
            assert(all.take(0) =~= Seq::<PatternV>::empty());
            assert(actions_view(out@) =~= clean_all_spec(all.take(0)));
        }
        while i < n
            invariant
                i <= n,
                n == patterns@.len(),
                all == patterns_view(patterns@),
                all.len() == n,
                actions_view(out@) == clean_all_spec(all.take(i as int)),
            decreases n - i,
        {
            proof {
                assert(all[i as int] == patterns@[i as int]@);
                assert(all.take(i + 1 as int).drop_last() =~= all.take(i as int));
                assert(all.take(i + 1 as int).last() == all[i as int]);
            }
            let mut acts = patterns[i].clean();
            let ghost out0 = actions_view(out@);
            let ghost acts0 = actions_view(acts@);
            out.append(&mut acts);
            proof {
                assert(actions_view(out@) =~= out0 + acts0);
                assert(actions_view(out@) =~= clean_all_spec(all.take(i + 1 as int)));
            }
            i += 1;
        }
        proof {
            assert(all.take(n as int) =~= all);
        }
        out
    }
}

/// Decides, before a listing run from a fresh tree, whether the run's
/// arithmetic preconditions hold: every insertion's size is at least what
/// its node already accounts for, no aggregate overflows, and every
/// pattern's resolved size fits.  A caller that computes sizes from a
/// real filesystem meets these by construction, but must check before
/// calling `expand_patterns`.
#[verifier::loop_isolation(false)]
pub fn check_expansion(patterns: &Vec<Pattern>) -> (r: bool)
    ensures
        r == expansion_pre(TreeV::empty(), patterns_view(patterns@)),
{
    let ghost all = patterns_view(patterns@);
    let mut tree = PathTree::new();
    let n = patterns.len();
    let mut i: usize = 0;
    proof {
        assert(all.skip(0) =~= all);
        assert(TreeV::empty().wf());
    }
    while i < n
        invariant
            i <= n,
            tree@.wf(),
            patterns_ok(TreeV::empty(), all) == patterns_ok(tree@, all.skip(i as int)),
            insert_patterns(tree@, all.skip(i as int)) == insert_patterns(TreeV::empty(), all),
        decreases n - i,
    {
        let ghost tp0 = tree@;
        let ghost rem = all.skip(i as int);
        let ghost es = all[i as int].paths;
        proof {
            assert(rem.len() > 0);
            assert(rem[0] == all[i as int]);
            assert(all[i as int] == patterns@[i as int]@);
            assert(rem.subrange(1, rem.len() as int) =~= all.skip(i + 1 as int));
            assert(es.skip(0) =~= es);
        }
        let p = &patterns[i];
        let m = p.paths.len();
        let mut j: usize = 0;
        while j < m
            invariant
                j <= m,
                m == p.paths@.len(),
                es == entries_view(p.paths@),
                es.len() == m,
                tree@.wf(),
                entries_ok(tp0, es) == entries_ok(tree@, es.skip(j as int)),
                insert_entries(tp0, es) == insert_entries(tree@, es.skip(j as int)),
            decreases m - j,
        {
            let ghost erem = es.skip(j as int);
            proof {
                assert(erem.len() > 0);
                assert(erem[0] == es[j as int]);
                assert(es[j as int] == p.paths@[j as int]@);
                assert(erem.subrange(1, erem.len() as int) =~= es.skip(j + 1 as int));
            }
            let e = &p.paths[j];
            let cur: u64 = match tree.get_size_at(&e.path) {
                Option::Some(s) => s,
                Option::None => 0,
            };
            proof {
                assert(cur as int == tree@.size_at0(erem[0].path));
            }
            if e.size < cur {
                proof {
                    assert(!entries_ok(tree@, erem));
                    assert(!patterns_ok(TreeV::empty(), all));
                }
                return false;
            }
            let tot: u64 = match tree.get_size() {
                Option::Some(s) => s,
                Option::None => 0,
            };
            proof {
                assert(tot as int == tree@.size_val());
            }
            if e.size > u64::MAX - tot {
                proof {
                    assert(!entries_ok(tree@, erem));
                    assert(!patterns_ok(TreeV::empty(), all));
                }
                return false;
            }
            proof {
                crate::tree::lemma_insert_wf(tree@, erem[0].path, erem[0].size);
            }
            tree.insert_with(&e.path, e.size);
            j += 1;
        }
        proof {
            assert(es.skip(m as int) =~= Seq::<EntryV>::empty());
            assert(entries_ok(tp0, es));
            assert(insert_entries(tp0, es) == tree@);
        }
        i += 1;
    }
    proof {
        assert(all.skip(n as int) =~= Seq::<PatternV>::empty());
        assert(patterns_ok(TreeV::empty(), all));
        assert(tree@ == insert_patterns(TreeV::empty(), all));
    }
    let mut i2: usize = 0;
    while i2 < n
        invariant
            i2 <= n,
            tree@ == insert_patterns(TreeV::empty(), all),
            patterns_ok(TreeV::empty(), all),
            forall|w: int|
                0 <= w < i2 ==> resolved_sum(tree@, (#[trigger] all[w]).paths) <= u64::MAX,
        decreases n - i2,
    {
        let ghost es = all[i2 as int].paths;
        proof {
            assert(all[i2 as int] == patterns@[i2 as int]@);
            assert(es.skip(0) =~= es);
            lemma_resolved_sum_nonneg(tree@, es);
        }
        let p = &patterns[i2];
        let m = p.paths.len();
        let mut acc: u128 = 0;
        let mut j: usize = 0;
        while j < m
            invariant
                j <= m,
                m == p.paths@.len(),
                es == entries_view(p.paths@),
                es.len() == m,
                acc as int + resolved_sum(tree@, es.skip(j as int)) == resolved_sum(tree@, es),
                acc as int <= j * (u64::MAX as int),
            decreases m - j,
        {
            let ghost erem = es.skip(j as int);
            proof {
                assert(erem.len() > 0);
                assert(erem[0] == es[j as int]);
                assert(es[j as int] == p.paths@[j as int]@);
                assert(erem.subrange(1, erem.len() as int) =~= es.skip(j + 1 as int));
                assert((j + 1) * (u64::MAX as int) == j * (u64::MAX as int) + u64::MAX);
                assert(j * (u64::MAX as int) <= (usize::MAX as int) * (u64::MAX as int))
                    by (nonlinear_arith)
                    requires
                        0 <= j <= usize::MAX,
                ;
                assert((usize::MAX as int) * (u64::MAX as int) + u64::MAX < u128::MAX)
                    by (nonlinear_arith);
            }
            let e = &p.paths[j];
            let c: u64 = match tree.get_size_at(&e.path) {
                Option::Some(s) => s,
                Option::None => 0,
            };
            proof {
                assert(c as int == entry_contrib(tree@, erem[0]));
            }
            acc = acc + (c as u128);
            j += 1;
        }
        proof {
            assert(es.skip(m as int) =~= Seq::<EntryV>::empty());
            assert(acc as int == resolved_sum(tree@, es));
        }
        if acc > (u64::MAX as u128) {
            proof {
                assert(resolved_sum(tree@, all[i2 as int].paths) > u64::MAX);
                assert(!sums_fit(insert_patterns(TreeV::empty(), all), all));
            }
            return false;
        }
        i2 += 1;
    }
    proof {
        assert(sums_fit(insert_patterns(TreeV::empty(), all), all));
    }
    true
}

/// An element of a filtered sequence comes from the unfiltered one.
proof fn lemma_filter_sub(s: Seq<Seq<char>>, key: Seq<char>, i: int)
    requires
        0 <= i < s.filter(|x: Seq<char>| x != key).len(),
    ensures
        s.contains(s.filter(|x: Seq<char>| x != key)[i]),
    decreases s.len(),
{
    reveal(Seq::filter);
    let pred = |x: Seq<char>| x != key;
    let f = s.filter(pred);
    if s.len() > 0 {
        let dl = s.drop_last();
        let f0 = dl.filter(pred);
        if pred(s.last()) && i == f.len() - 1 {
            assert(f[i] == s.last());
            assert(s[s.len() - 1] == s.last());
        } else {
            assert(f[i] == f0[i]);
            lemma_filter_sub(dl, key, i);
            let w = choose|w: int| 0 <= w < dl.len() && dl[w] == f0[i];
            assert(s[w] == f[i]);
        }
    }
}

/// Filtering keeps distinct elements distinct.
proof fn lemma_filter_unique(s: Seq<Seq<char>>, key: Seq<char>)
    ensures
        unique_rules(s) ==> unique_rules(s.filter(|x: Seq<char>| x != key)),
    decreases s.len(),
{
    reveal(Seq::filter);
    let pred = |x: Seq<char>| x != key;
    if unique_rules(s) && s.len() > 0 {
        let dl = s.drop_last();
        assert(forall|i: int| 0 <= i < dl.len() ==> dl[i] == s[i]);
        lemma_filter_unique(dl, key);
        let f0 = dl.filter(pred);
        let f = s.filter(pred);
        if pred(s.last()) {
            assert(f == f0.push(s.last()));
            assert forall|i: int, j: int| 0 <= i < j < f.len() implies f[i] != f[j] by {
                if j == f.len() - 1 {
                    assert(f[i] == f0[i]);
                    lemma_filter_sub(dl, key, i);
                    let w = choose|w: int| 0 <= w < dl.len() && dl[w] == f0[i];
                    assert(s[w] != s[s.len() - 1]);
                }
            }
        }
    }
}

} // verus!
