use vstd::prelude::*;

use crate::path::{canon_spec, canonicalize, SegPath};

verus! {

/// The mathematical model of a deduplication tree: a trie node with an
/// optional aggregated byte size and children keyed by path segment, in
/// insertion order.  Within a well-formed tree the keys are distinct, so
/// the order carries no meaning beyond making trees comparable values.
#[verifier::ext_equal]
pub ghost struct TreeV {
    pub size: Option<u64>,
    pub children: Seq<(Seq<char>, TreeV)>,
}

/// First child with the given segment key, if any.
pub open spec fn lookup_child(cs: Seq<(Seq<char>, TreeV)>, key: Seq<char>) -> Option<TreeV>
    decreases cs.len(),
{
    if cs.len() == 0 {
        Option::None
    } else if cs[0].0 == key {
        Option::Some(cs[0].1)
    } else {
        lookup_child(cs.subrange(1, cs.len() as int), key)
    }
}

/// Position of the first child with the given segment key.
pub open spec fn key_index(cs: Seq<(Seq<char>, TreeV)>, key: Seq<char>) -> int
    decreases cs.len(),
{
    if cs.len() == 0 {
        0
    } else if cs[0].0 == key {
        0
    } else {
        1 + key_index(cs.subrange(1, cs.len() as int), key)
    }
}

/// Sum of the size fields of a child sequence.
pub open spec fn sum_sizes(cs: Seq<(Seq<char>, TreeV)>) -> int
    decreases cs.len(),
{
    if cs.len() == 0 {
        0int
    } else {
        sum_sizes(cs.subrange(0, cs.len() - 1)) + cs.last().1.size_val()
    }
}

impl TreeV {
    /// A node with no size and no children: a fresh tree.
    pub open spec fn empty() -> TreeV {
        TreeV { size: Option::None, children: Seq::empty() }
    }

    /// The aggregated size of a node, zero while unset.
    pub open spec fn size_val(self) -> int {
        match self.size {
            Option::Some(s) => s as int,
            Option::None => 0int,
        }
    }

    /// A leaf owns its whole subtree: it has a size and no children.
    pub open spec fn is_leaf(self) -> bool {
        self.size is Some && self.children.len() == 0
    }

    /// Well-formedness: distinct child keys, well-formed children that all
    /// carry a size, and the size of an inner node is the sum of its
    /// children's sizes (the incremental-aggregation invariant).
    pub open spec fn wf(self) -> bool
        decreases self,
    {
        &&& (forall|i: int, j: int|
            0 <= i < j < self.children.len() ==> self.children[i].0 != self.children[j].0)
        &&& (forall|i: int|
            0 <= i < self.children.len() ==> (#[trigger] self.children[i].1).wf())
        &&& (forall|i: int|
            0 <= i < self.children.len() ==> (#[trigger] self.children[i].1).size is Some)
        &&& (self.children.len() > 0 ==> self.size is Some && self.size->0 == sum_sizes(
            self.children,
        ))
    }

    /// The node reached by following the path's segments exactly.
    pub open spec fn node_at(self, p: Seq<Seq<char>>) -> Option<TreeV>
        decreases p.len(),
    {
        if p.len() == 0 {
            Option::Some(self)
        } else {
            match lookup_child(self.children, p[0]) {
                Option::None => Option::None,
                Option::Some(c) => c.node_at(p.subrange(1, p.len() as int)),
            }
        }
    }

    /// The size stored at the path's exact node, if the node exists.
    pub open spec fn size_at(self, p: Seq<Seq<char>>) -> Option<u64> {
        match self.node_at(p) {
            Option::Some(n) => n.size,
            Option::None => Option::None,
        }
    }

    /// The size stored at the path's exact node, zero if absent or unset.
    pub open spec fn size_at0(self, p: Seq<Seq<char>>) -> int {
        match self.node_at(p) {
            Option::Some(n) => n.size_val(),
            Option::None => 0int,
        }
    }

    /// Whether the path's exact node exists and is a leaf.
    pub open spec fn leaf_at(self, p: Seq<Seq<char>>) -> bool {
        match self.node_at(p) {
            Option::Some(n) => n.is_leaf(),
            Option::None => false,
        }
    }

    /// An insertion along `p` is blocked when it runs into a leaf strictly
    /// above the end of `p`: that leaf already owns the inserted path.
    pub open spec fn blocked(self, p: Seq<Seq<char>>) -> bool
        decreases p.len(),
    {
        p.len() > 0 && (self.is_leaf() || match lookup_child(self.children, p[0]) {
            Option::None => false,
            Option::Some(c) => c.blocked(p.subrange(1, p.len() as int)),
        })
    }

    /// Whether a path is covered by the tree: walking it stops at a leaf,
    /// either on the way down or exactly at its end.
    pub open spec fn covered(self, p: Seq<Seq<char>>) -> bool
        decreases p.len(),
    {
        if p.len() == 0 {
            self.is_leaf()
        } else {
            match lookup_child(self.children, p[0]) {
                Option::None => self.is_leaf(),
                Option::Some(c) => c.covered(p.subrange(1, p.len() as int)),
            }
        }
    }

    /// What inserting a path with an authoritative size does to the tree,
    /// and the returned size delta.  Reaching the end of the path turns the
    /// node into a leaf, discarding any subsumed descendants; meeting a leaf
    /// on the way down makes the insertion a no-op; the delta between new
    /// and previous size is propagated into every ancestor's aggregate.
    pub open spec fn insert_spec(self, p: Seq<Seq<char>>, size: u64) -> (TreeV, Option<u64>)
        decreases p.len(),
    {
        if p.len() == 0 {
            (
                TreeV { size: Option::Some(size), children: Seq::empty() },
                Option::Some((size - self.size_val()) as u64),
            )
        } else if self.is_leaf() {
            (self, Option::None)
        } else if lookup_child(self.children, p[0]) is Some {
            let j = key_index(self.children, p[0]);
            let sub = self.children[j].1.insert_spec(p.subrange(1, p.len() as int), size);
            match sub.1 {
                Option::None => (self, Option::None),
                Option::Some(d) => (
                    TreeV {
                        size: Option::Some((self.size_val() + d) as u64),
                        children: self.children.update(j, (p[0], sub.0)),
                    },
                    Option::Some(d),
                ),
            }
        } else {
            let sub = TreeV::empty().insert_spec(p.subrange(1, p.len() as int), size);
            match sub.1 {
                Option::None => (self, Option::None),
                Option::Some(d) => (
                    TreeV {
                        size: Option::Some((self.size_val() + d) as u64),
                        children: self.children.push((p[0], sub.0)),
                    },
                    Option::Some(d),
                ),
            }
        }
    }
}

/// A mutable prefix tree over filesystem paths that aggregates a byte size
/// per stored path and guarantees that no stored path is an ancestor of
/// another: overlapping insertions are deduplicated by construction.
pub struct PathTree {
    children: Vec<(String, PathTree)>,
    size: Option<u64>,
}

/// The model of an executable child list: each entry reduced to its view.
pub closed spec fn children_view(cs: Seq<(String, PathTree)>) -> Seq<(Seq<char>, TreeV)>
    decreases cs,
{
    if cs.len() == 0 {
        Seq::empty()
    } else {
        children_view(cs.subrange(0, cs.len() - 1)).push((cs.last().0@, cs.last().1@))
    }
}

impl View for PathTree {
    type V = TreeV;

    closed spec fn view(&self) -> TreeV
        decreases self,
    {
        TreeV { size: self.size, children: children_view(self.children@) }
    }
}

/// Pointwise characterization of `children_view`.
proof fn lemma_children_view(cs: Seq<(String, PathTree)>)
    ensures
        children_view(cs).len() == cs.len(),
        forall|i: int|
            0 <= i < cs.len() ==> #[trigger] children_view(cs)[i] == (cs[i].0@, cs[i].1@),
    decreases cs.len(),
{
    if cs.len() == 0 {
        assert(children_view(cs) =~= Seq::<(Seq<char>, TreeV)>::empty());
    } else {
        let sub = cs.subrange(0, cs.len() - 1);
        lemma_children_view(sub);
        assert(children_view(cs) == children_view(sub).push((cs.last().0@, cs.last().1@)));
        assert forall|i: int| 0 <= i < cs.len() implies #[trigger] children_view(cs)[i] == (
            cs[i].0@,
            cs[i].1@,
        ) by {
            if i < cs.len() - 1 {
                assert(sub[i] == cs[i]);
            }
        }
    }
}

/// A scan that finds the key at position `j`, with no earlier occurrence,
/// finds exactly what `lookup_child` and `key_index` denote.
proof fn lemma_lookup_index(cs: Seq<(Seq<char>, TreeV)>, key: Seq<char>, j: int)
    requires
        0 <= j < cs.len(),
        forall|m: int| 0 <= m < j ==> cs[m].0 != key,
        cs[j].0 == key,
    ensures
        lookup_child(cs, key) == Option::Some(cs[j].1),
        key_index(cs, key) == j,
    decreases j,
{
    if j > 0 {
        lemma_lookup_index(cs.subrange(1, cs.len() as int), key, j - 1);
    }
}

/// A failed `lookup_child` means the key is at no position.
proof fn lemma_lookup_none(cs: Seq<(Seq<char>, TreeV)>, key: Seq<char>)
    requires
        lookup_child(cs, key) is None,
    ensures
        forall|m: int| 0 <= m < cs.len() ==> cs[m].0 != key,
    decreases cs.len(),
{
    if cs.len() > 0 {
        lemma_lookup_none(cs.subrange(1, cs.len() as int), key);
        assert forall|m: int| 0 <= m < cs.len() implies cs[m].0 != key by {
            if m > 0 {
                assert(cs.subrange(1, cs.len() as int)[m - 1] == cs[m]);
            }
        }
    }
}

/// A successful `lookup_child` finds the entry at `key_index`.
proof fn lemma_key_index(cs: Seq<(Seq<char>, TreeV)>, key: Seq<char>)
    requires
        lookup_child(cs, key) is Some,
    ensures
        0 <= key_index(cs, key) < cs.len(),
        cs[key_index(cs, key)].0 == key,
        cs[key_index(cs, key)].1 == lookup_child(cs, key)->0,
    decreases cs.len(),
{
    if cs.len() > 0 && cs[0].0 != key {
        lemma_key_index(cs.subrange(1, cs.len() as int), key);
    }
}

/// Every child's size is bounded by the sum over the whole child list.
proof fn lemma_sum_sizes_nonneg(cs: Seq<(Seq<char>, TreeV)>)
    ensures
        sum_sizes(cs) >= 0,
    decreases cs.len(),
{
    if cs.len() > 0 {
        lemma_sum_sizes_nonneg(cs.subrange(0, cs.len() - 1));
    }
}

proof fn lemma_sum_sizes_bound(cs: Seq<(Seq<char>, TreeV)>, j: int)
    requires
        0 <= j < cs.len(),
    ensures
        cs[j].1.size_val() <= sum_sizes(cs),
    decreases cs.len(),
{
    let sub = cs.subrange(0, cs.len() - 1);
    if j == cs.len() - 1 {
        lemma_sum_sizes_nonneg(sub);
    } else {
        lemma_sum_sizes_bound(sub, j);
        assert(sub[j] == cs[j]);
    }
}

/// Replacing one child changes the sum by the difference at that position.
proof fn lemma_sum_sizes_update(cs: Seq<(Seq<char>, TreeV)>, j: int, pair: (Seq<char>, TreeV))
    requires
        0 <= j < cs.len(),
    ensures
        sum_sizes(cs.update(j, pair)) == sum_sizes(cs) - cs[j].1.size_val() + pair.1.size_val(),
    decreases cs.len(),
{
    let sub = cs.subrange(0, cs.len() - 1);
    if j == cs.len() - 1 {
        assert(cs.update(j, pair).subrange(0, cs.len() - 1) =~= sub);
        assert(cs.update(j, pair).last() == pair);
    } else {
        lemma_sum_sizes_update(sub, j, pair);
        assert(cs.update(j, pair).subrange(0, cs.len() - 1) =~= sub.update(j, pair));
        assert(cs.update(j, pair).last() == cs.last());
        assert(sub[j] == cs[j]);
    }
}

/// Appending a child adds its size to the sum.
proof fn lemma_sum_sizes_push(cs: Seq<(Seq<char>, TreeV)>, pair: (Seq<char>, TreeV))
    ensures
        sum_sizes(cs.push(pair)) == sum_sizes(cs) + pair.1.size_val(),
{
    assert(cs.push(pair).subrange(0, cs.len() as int) =~= cs);
    assert(cs.push(pair).last() == pair);
}

/// Inserting into a fresh subtree never meets a leaf, so it always succeeds.
proof fn lemma_insert_fresh_some(p: Seq<Seq<char>>, size: u64)
    ensures
        TreeV::empty().insert_spec(p, size).1 is Some,
    decreases p.len(),
{
    if p.len() > 0 {
        lemma_insert_fresh_some(p.subrange(1, p.len() as int), size);
    }
}

/// When it succeeds, an insertion returns exactly the difference between
/// the new size and whatever the path's node previously accounted for.
pub proof fn lemma_insert_delta(t: TreeV, p: Seq<Seq<char>>, size: u64)
    requires
        size >= t.size_at0(p),
    ensures
        match t.insert_spec(p, size).1 {
            Option::Some(d) => d == size - t.size_at0(p),
            Option::None => t.blocked(p),
        },
        t.insert_spec(p, size).1 is None <==> t.blocked(p),
    decreases p.len(),
{
    if p.len() == 0 {
    } else if t.is_leaf() {
    } else {
        let rest = p.subrange(1, p.len() as int);
        match lookup_child(t.children, p[0]) {
            Option::Some(c) => {
                lemma_key_index(t.children, p[0]);
                assert(t.size_at0(p) == c.size_at0(rest));
                lemma_insert_delta(c, rest, size);
            },
            Option::None => {
                lemma_insert_delta(TreeV::empty(), rest, size);
                lemma_insert_fresh_some(rest, size);
                assert(TreeV::empty().size_at0(rest) == 0);
            },
        }
    }
}

/// A successful insertion preserves well-formedness, leaves a leaf with the
/// new size at the inserted path, and raises the root aggregate by the
/// returned delta; a blocked insertion changes nothing.
pub proof fn lemma_insert_wf(t: TreeV, p: Seq<Seq<char>>, size: u64)
    requires
        t.wf(),
        size >= t.size_at0(p),
        t.size_val() + size <= u64::MAX,
    ensures
        t.insert_spec(p, size).0.wf(),
        t.insert_spec(p, size).1 is Some ==> t.insert_spec(p, size).0.size is Some
            && t.insert_spec(p, size).0.size_val() == t.size_val() + t.insert_spec(p, size).1->0,
        t.insert_spec(p, size).1 is None ==> t.insert_spec(p, size).0 == t,
    decreases p.len(),
{
    lemma_insert_delta(t, p, size);
    if p.len() == 0 {
    } else if t.is_leaf() {
    } else {
        let rest = p.subrange(1, p.len() as int);
        match lookup_child(t.children, p[0]) {
            Option::Some(c) => {
                lemma_key_index(t.children, p[0]);
                let j = key_index(t.children, p[0]);
                assert(t.size_at0(p) == c.size_at0(rest));
                lemma_sum_sizes_bound(t.children, j);
                lemma_insert_wf(c, rest, size);
                let sub = c.insert_spec(rest, size);
                match sub.1 {
                    Option::None => {},
                    Option::Some(d) => {
                        let cs2 = t.children.update(j, (p[0], sub.0));
                        lemma_sum_sizes_update(t.children, j, (p[0], sub.0));
                        let t2 = t.insert_spec(p, size).0;
                        assert(t2.children == cs2);
                        assert forall|a: int, b: int|
                            0 <= a < b < cs2.len() implies cs2[a].0 != cs2[b].0 by {
                            assert(cs2[a].0 == t.children[a].0);
                            assert(cs2[b].0 == t.children[b].0);
                        }
                        assert forall|a: int|
                            0 <= a < cs2.len() implies (#[trigger] cs2[a].1).wf()
                            && cs2[a].1.size is Some by {
                            if a != j {
                                assert(cs2[a] == t.children[a]);
                            }
                        }
                        assert(t2.wf());
                    },
                }
            },
            Option::None => {
                lemma_lookup_none(t.children, p[0]);
                lemma_insert_wf(TreeV::empty(), rest, size);
                lemma_insert_fresh_some(rest, size);
                lemma_insert_delta(TreeV::empty(), rest, size);
                let sub = TreeV::empty().insert_spec(rest, size);
                let d = sub.1->0;
                let cs2 = t.children.push((p[0], sub.0));
                lemma_sum_sizes_push(t.children, (p[0], sub.0));
                let t2 = t.insert_spec(p, size).0;
                assert(t2.children == cs2);
                assert forall|a: int, b: int|
                    0 <= a < b < cs2.len() implies cs2[a].0 != cs2[b].0 by {
                    assert(cs2[a].0 == t.children[a].0);
                    if b < t.children.len() {
                        assert(cs2[b].0 == t.children[b].0);
                    }
                }
                assert forall|a: int|
                    0 <= a < cs2.len() implies (#[trigger] cs2[a].1).wf() && cs2[a].1.size
                    is Some by {
                    if a < t.children.len() {
                        assert(cs2[a] == t.children[a]);
                    }
                }
                if t.children.len() == 0 {
                    assert(t.size is None);
                } else {
                    lemma_sum_sizes_nonneg(t.children);
                }
                assert(t2.wf());
            },
        }
    }
}

/// Being a prefix is decided on the tails once the heads agree.
proof fn lemma_prefix_tail(p: Seq<Seq<char>>, q: Seq<Seq<char>>)
    requires
        p.len() > 0,
        q.len() > 0,
        p[0] == q[0],
    ensures
        p.is_prefix_of(q) <==> p.subrange(1, p.len() as int).is_prefix_of(
            q.subrange(1, q.len() as int),
        ),
{
    let pr = p.subrange(1, p.len() as int);
    let qr = q.subrange(1, q.len() as int);
    if p.is_prefix_of(q) {
        assert(qr.subrange(0, pr.len() as int) =~= pr);
    }
    if pr.is_prefix_of(qr) {
        assert(pr =~= qr.subrange(0, pr.len() as int));
        assert forall|m: int| 0 <= m < p.len() implies q.subrange(0, p.len() as int)[m]
            == p[m] by {
            if m >= 1 {
                assert(pr[m - 1] == qr.subrange(0, pr.len() as int)[m - 1]);
                assert(qr[m - 1] == q[m]);
                assert(pr[m - 1] == p[m]);
            }
        }
        assert(q.subrange(0, p.len() as int) =~= p);
    }
}

/// Where every path leads after a successful insertion: the inserted path
/// becomes a leaf holding the new size and owning its whole subtree —
/// every previously stored descendant is gone — while paths neither above
/// nor below it keep exactly the nodes they had.
pub proof fn lemma_insert_subsumes(t: TreeV, p: Seq<Seq<char>>, size: u64)
    requires
        t.wf(),
        size >= t.size_at0(p),
        t.size_val() + size <= u64::MAX,
        !t.blocked(p),
    ensures
        ({
            let t2 = t.insert_spec(p, size).0;
            &&& t2.leaf_at(p)
            &&& t2.size_at(p) == Option::Some(size)
            &&& forall|q: Seq<Seq<char>>|
                p.is_prefix_of(q) && q != p ==> (#[trigger] t2.node_at(q)) is None
            &&& forall|q: Seq<Seq<char>>|
                !p.is_prefix_of(q) && !q.is_prefix_of(p) ==> #[trigger] t2.node_at(q)
                    == t.node_at(q)
        }),
    decreases p.len(),
{
    lemma_insert_delta(t, p, size);
    let t2 = t.insert_spec(p, size).0;
    if p.len() == 0 {
        assert(t2.node_at(p) == Option::Some(t2));
        assert forall|q: Seq<Seq<char>>| p.is_prefix_of(q) && q != p implies (
        #[trigger] t2.node_at(q)) is None by {
            assert(q.len() > 0) by {
                if q.len() == 0 {
                    assert(q =~= p);
                }
            }
            assert(lookup_child(t2.children, q[0]) is None);
        }
        assert forall|q: Seq<Seq<char>>|
            !p.is_prefix_of(q) && !q.is_prefix_of(p) implies #[trigger] t2.node_at(q)
            == t.node_at(q) by {
            assert(p =~= q.subrange(0, 0));
            assert(p.is_prefix_of(q));
        }
    } else {
        let key = p[0];
        let pr = p.subrange(1, p.len() as int);
        assert(!t.is_leaf());
        match lookup_child(t.children, key) {
            Option::Some(c) => {
                lemma_key_index(t.children, key);
                let j = key_index(t.children, key);
                assert(t.size_at0(p) == c.size_at0(pr));
                lemma_sum_sizes_bound(t.children, j);
                assert(!c.blocked(pr));
                lemma_insert_delta(c, pr, size);
                lemma_insert_subsumes(c, pr, size);
                let c2 = c.insert_spec(pr, size).0;
                let cs2 = t.children.update(j, (key, c2));
                assert(t2.children == cs2);
                lemma_lookup_update(t.children, j, (key, c2), key);
                assert(lookup_child(cs2, key) == Option::Some(c2));
                assert(t2.node_at(p) == c2.node_at(pr));
                assert forall|q: Seq<Seq<char>>| p.is_prefix_of(q) && q != p implies (
                #[trigger] t2.node_at(q)) is None by {
                    assert(q.len() >= p.len());
                    assert(q[0] == q.subrange(0, p.len() as int)[0]);
                    assert(q[0] == key);
                    let qr = q.subrange(1, q.len() as int);
                    lemma_prefix_tail(p, q);
                    assert(pr.is_prefix_of(qr));
                    assert(pr != qr) by {
                        if pr == qr {
                            assert(p =~= q);
                        }
                    }
                    assert(t2.node_at(q) == c2.node_at(qr));
                }
                assert forall|q: Seq<Seq<char>>|
                    !p.is_prefix_of(q) && !q.is_prefix_of(p) implies #[trigger] t2.node_at(q)
                    == t.node_at(q) by {
                    assert(q.len() > 0) by {
                        if q.len() == 0 {
                            assert(q =~= p.subrange(0, 0));
                            assert(q.is_prefix_of(p));
                        }
                    }
                    if q[0] == key {
                        let qr = q.subrange(1, q.len() as int);
                        lemma_prefix_tail(p, q);
                        lemma_prefix_tail(q, p);
                        assert(!pr.is_prefix_of(qr));
                        assert(!qr.is_prefix_of(pr));
                        assert(t2.node_at(q) == c2.node_at(qr));
                        assert(t.node_at(q) == c.node_at(qr));
                    } else {
                        lemma_lookup_update(t.children, j, (key, c2), q[0]);
                        assert(lookup_child(cs2, q[0]) == lookup_child(t.children, q[0]));
                    }
                }
            },
            Option::None => {
                lemma_insert_fresh_some(pr, size);
                lemma_insert_delta(TreeV::empty(), pr, size);
                assert(!TreeV::empty().blocked(pr));
                lemma_insert_subsumes(TreeV::empty(), pr, size);
                let c2 = TreeV::empty().insert_spec(pr, size).0;
                let cs2 = t.children.push((key, c2));
                assert(t2.children == cs2);
                lemma_lookup_push(t.children, (key, c2), key);
                assert(lookup_child(cs2, key) == Option::Some(c2));
                assert(t2.node_at(p) == c2.node_at(pr));
                assert forall|q: Seq<Seq<char>>| p.is_prefix_of(q) && q != p implies (
                #[trigger] t2.node_at(q)) is None by {
                    assert(q.len() >= p.len());
                    assert(q[0] == q.subrange(0, p.len() as int)[0]);
                    assert(q[0] == key);
                    let qr = q.subrange(1, q.len() as int);
                    lemma_prefix_tail(p, q);
                    assert(pr.is_prefix_of(qr));
                    assert(pr != qr) by {
                        if pr == qr {
                            assert(p =~= q);
                        }
                    }
                    assert(t2.node_at(q) == c2.node_at(qr));
                }
                assert forall|q: Seq<Seq<char>>|
                    !p.is_prefix_of(q) && !q.is_prefix_of(p) implies #[trigger] t2.node_at(q)
                    == t.node_at(q) by {
                    assert(q.len() > 0) by {
                        if q.len() == 0 {
                            assert(q =~= p.subrange(0, 0));
                            assert(q.is_prefix_of(p));
                        }
                    }
                    if q[0] == key {
                        let qr = q.subrange(1, q.len() as int);
                        lemma_prefix_tail(p, q);
                        lemma_prefix_tail(q, p);
                        assert(!pr.is_prefix_of(qr));
                        assert(!qr.is_prefix_of(pr));
                        assert(qr.len() > 0) by {
                            if qr.len() == 0 {
                                assert(qr.is_prefix_of(pr));
                            }
                        }
                        assert(t2.node_at(q) == c2.node_at(qr));
                        assert(c2.node_at(qr) == TreeV::empty().node_at(qr));
                        assert(TreeV::empty().node_at(qr) is None);
                        assert(t.node_at(q) is None);
                    } else {
                        lemma_lookup_push(t.children, (key, c2), q[0]);
                        assert(lookup_child(cs2, q[0]) == lookup_child(t.children, q[0]));
                    }
                }
            },
        }
    }
}

/// Replacing the first entry of a key changes that key's lookup and no
/// other's.
proof fn lemma_lookup_update(
    cs: Seq<(Seq<char>, TreeV)>,
    j: int,
    pair: (Seq<char>, TreeV),
    key: Seq<char>,
)
    requires
        0 <= j < cs.len(),
        cs[j].0 == pair.0,
        forall|m: int| 0 <= m < j ==> cs[m].0 != pair.0,
    ensures
        key == pair.0 ==> lookup_child(cs.update(j, pair), key) == Option::Some(pair.1),
        key != pair.0 ==> lookup_child(cs.update(j, pair), key) == lookup_child(cs, key),
    decreases cs.len(),
{
    let cs2 = cs.update(j, pair);
    if j == 0 {
        if key != pair.0 {
            assert(cs2.subrange(1, cs2.len() as int) =~= cs.subrange(1, cs.len() as int));
        }
    } else {
        assert(cs2[0] == cs[0]);
        assert(cs2.subrange(1, cs2.len() as int) =~= cs.subrange(1, cs.len() as int).update(
            j - 1,
            pair,
        ));
        lemma_lookup_update(cs.subrange(1, cs.len() as int), j - 1, pair, key);
    }
}

/// Appending an entry with a fresh key changes that key's lookup and no
/// other's.
proof fn lemma_lookup_push(cs: Seq<(Seq<char>, TreeV)>, pair: (Seq<char>, TreeV), key: Seq<char>)
    requires
        lookup_child(cs, pair.0) is None,
    ensures
        key == pair.0 ==> lookup_child(cs.push(pair), key) == Option::Some(pair.1),
        key != pair.0 ==> lookup_child(cs.push(pair), key) == lookup_child(cs, key),
    decreases cs.len(),
{
    let cs2 = cs.push(pair);
    if cs.len() == 0 {
        if key != pair.0 {
            assert(cs2.subrange(1, cs2.len() as int) =~= Seq::<(Seq<char>, TreeV)>::empty());
        }
    } else {
        assert(cs2[0] == cs[0]);
        assert(cs2.subrange(1, cs2.len() as int) =~= cs.subrange(1, cs.len() as int).push(
            pair,
        ));
        lemma_lookup_push(cs.subrange(1, cs.len() as int), pair, key);
    }
}

/// A scan that finds the key nowhere means `lookup_child` fails.
proof fn lemma_lookup_absent(cs: Seq<(Seq<char>, TreeV)>, key: Seq<char>)
    requires
        forall|m: int| 0 <= m < cs.len() ==> cs[m].0 != key,
    ensures
        lookup_child(cs, key) is None,
    decreases cs.len(),
{
    if cs.len() > 0 {
        lemma_lookup_absent(cs.subrange(1, cs.len() as int), key);
    }
}

impl PathTree {
    /// A fresh, empty tree.
    pub fn new() -> (t: Self)
        ensures
            t@ == TreeV::empty(),
    {
        Self::with_capacity(0)
    }

    /// A fresh, empty tree with room reserved for `cap` children.
    pub fn with_capacity(cap: usize) -> (t: Self)
        ensures
            t@ == TreeV::empty(),
    {
        let t = PathTree { children: Vec::with_capacity(cap), size: Option::None };
        proof {
            assert(t@.children =~= TreeV::empty().children);
            assert(t@ =~= TreeV::empty());
        }
        t
    }

    /// The aggregated size of the whole tree, `None` before any insertion.
    pub fn get_size(&self) -> (r: Option<u64>)
        ensures
            r == self@.size,
    {
        self.size
    }

    fn is_leaf(&self) -> (r: bool)
        ensures
            r == self@.is_leaf(),
    {
        proof {
            lemma_children_view(self.children@);
        }
        self.size.is_some() && self.children.len() == 0
    }

    /// Walks the tree along `segs[i..]`, returning the node reached.
    #[verifier::loop_isolation(false)]
    fn traverse_tree<'a>(&'a self, segs: &Vec<String>, i: usize) -> (r: Option<&'a PathTree>)
        requires
            i <= segs.len(),
        ensures
            match r {
                Option::Some(node) => self@.node_at(segs.deep_view().skip(i as int))
                    == Option::Some(node@),
                Option::None => self@.node_at(segs.deep_view().skip(i as int)) is None,
            },
        decreases segs.len() - i,
    {
        let ghost p = segs.deep_view().skip(i as int);
        if i == segs.len() {
            proof {
                assert(p =~= Seq::<Seq<char>>::empty());
            }
            return Option::Some(self);
        }
        proof {
            assert(p.len() > 0);
            assert(p[0] == segs.deep_view()[i as int]);
            assert(p.subrange(1, p.len() as int) =~= segs.deep_view().skip(i + 1 as int));
            lemma_children_view(self.children@);
        }
        let key = &segs[i];
        let n = self.children.len();
        let mut j: usize = 0;
        while j < n
            invariant
                j <= n,
                i < segs.len(),
                n == self.children@.len(),
                forall|m: int| 0 <= m < j ==> self.children@[m].0@ != segs.deep_view()[i as int],
                key == &segs@[i as int],
                key@ == segs.deep_view()[i as int],
            decreases n - j,
        {
            if self.children[j].0 == *key {
                proof {
                    lemma_children_view(self.children@);
                    lemma_lookup_index(self@.children, key@, j as int);
                }
                return self.children[j].1.traverse_tree(segs, i + 1);
            }
            j += 1;
        }
        proof {
            lemma_children_view(self.children@);
            lemma_lookup_absent(self@.children, key@);
        }
        Option::None
    }

    /// Inserts `segs[i..]` below this node; see `insert_with`.
    #[verifier::loop_isolation(false)]
    fn insert_at(&mut self, segs: &Vec<String>, i: usize, size: u64) -> (r: Option<u64>)
        requires
            i <= segs.len(),
            old(self)@.wf(),
            size >= old(self)@.size_at0(segs.deep_view().skip(i as int)),
            old(self)@.size_val() + size <= u64::MAX,
        ensures
            final(self)@ == old(self)@.insert_spec(segs.deep_view().skip(i as int), size).0,
            r == old(self)@.insert_spec(segs.deep_view().skip(i as int), size).1,
        decreases segs.len() - i,
    {
        let ghost p = segs.deep_view().skip(i as int);
        let ghost t0 = self@;
        if i == segs.len() {
            proof {
                assert(p =~= Seq::<Seq<char>>::empty());
            }
            let old_sz: u64 = match self.size {
                Option::Some(s) => s,
                Option::None => 0,
            };
            let diff = size - old_sz;
            self.size = Option::Some(size);
            self.children.clear();
            proof {
                assert(self@.children =~= Seq::<(Seq<char>, TreeV)>::empty());
                assert(self@ =~= t0.insert_spec(p, size).0);
            }
            return Option::Some(diff);
        }
        proof {
            assert(p.len() > 0);
            assert(p[0] == segs.deep_view()[i as int]);
            assert(p.subrange(1, p.len() as int) =~= segs.deep_view().skip(i + 1 as int));
            lemma_children_view(self.children@);
        }
        if self.is_leaf() {
            return Option::None;
        }
        let ghost rest = p.subrange(1, p.len() as int);
        let key = &segs[i];
        let n = self.children.len();
        let mut j: usize = 0;
        let mut found = false;
        while !found && j < n
            invariant
                j <= n,
                !found ==> forall|m: int|
                    0 <= m < j ==> self.children@[m].0@ != segs.deep_view()[i as int],
                found ==> j < n && self.children@[j as int].0@ == segs.deep_view()[i as int]
                    && forall|m: int|
                    0 <= m < j ==> self.children@[m].0@ != segs.deep_view()[i as int],
            decreases n - j, (if found { 0int } else { 1int }),
        {
            if self.children[j].0 == *key {
                found = true;
            } else {
                j += 1;
            }
        }
        if found {
            proof {
                lemma_lookup_index(t0.children, p[0], j as int);
                assert(lookup_child(t0.children, p[0]) == Option::Some(t0.children[j as int].1));
                assert(key_index(t0.children, p[0]) == j as int);
                assert(self.children@[j as int].1@ == t0.children[j as int].1);
                assert(t0.size_at0(p) == t0.children[j as int].1.size_at0(rest));
                lemma_sum_sizes_bound(t0.children, j as int);
                assert(t0.children[j as int].1.size_val() <= t0.size_val());
            }
            let pair = &mut self.children[j];
            let r = pair.1.insert_at(segs, i + 1, size);
            proof {
                let c0 = t0.children[j as int].1;
                lemma_insert_delta(c0, rest, size);
                lemma_insert_wf(c0, rest, size);
                if c0.insert_spec(rest, size).1 is None {
                    assert(t0.children.update(j as int, (t0.children[j as int].0, c0))
                        =~= t0.children);
                }
                lemma_children_view(self.children@);
                assert(self@.children =~= t0.children.update(
                    j as int,
                    (t0.children[j as int].0, c0.insert_spec(rest, size).0),
                ));
                assert((t0.children[j as int].0, c0.insert_spec(rest, size).0) == (
                    p[0],
                    c0.insert_spec(rest, size).0,
                ));
            }
            match r {
                Option::Some(d) => {
                    let s0: u64 = match self.size {
                        Option::Some(s) => s,
                        Option::None => 0,
                    };
                    self.size = Option::Some(s0 + d);
                    proof {
                        assert(self@ =~= t0.insert_spec(p, size).0);
                    }
                    Option::Some(d)
                },
                Option::None => {
                    proof {
                        assert(self@ =~= t0);
                    }
                    Option::None
                },
            }
        } else {
            proof {
                lemma_lookup_absent(t0.children, p[0]);
                lemma_insert_fresh_some(rest, size);
                lemma_insert_delta(TreeV::empty(), rest, size);
                assert(TreeV::empty().size_at0(rest) == 0);
            }
            let fresh = PathTree::new();
            self.children.push((key.clone(), fresh));
            let ghost mid = self@;
            proof {
                lemma_children_view(self.children@);
                assert(mid.children =~= t0.children.push((p[0], TreeV::empty())));
            }
            let k = self.children.len() - 1;
            let pair = &mut self.children[k];
            let r = pair.1.insert_at(segs, i + 1, size);
            proof {
                lemma_children_view(self.children@);
                assert(self@.children =~= t0.children.push(
                    (p[0], TreeV::empty().insert_spec(rest, size).0),
                ));
            }
            match r {
                Option::Some(d) => {
                    let s0: u64 = match self.size {
                        Option::Some(s) => s,
                        Option::None => 0,
                    };
                    self.size = Option::Some(s0 + d);
                    proof {
                        assert(self@ =~= t0.insert_spec(p, size).0);
                    }
                    Option::Some(d)
                },
                Option::None => {
                    proof {
                        assert(false);
                    }
                    Option::None
                },
            }
        }
    }

    /// Inserts a path whose authoritative byte size the caller has already
    /// computed.  The path becomes a leaf owning its whole subtree: any
    /// previously stored descendants are discarded, every ancestor's
    /// aggregate grows by the returned delta, and a path already covered by
    /// an ancestor leaf is ignored (`None`).
    pub fn insert_with(&mut self, path: &SegPath, size: u64) -> (r: Option<u64>)
        requires
            old(self)@.wf(),
            size >= old(self)@.size_at0(path@),
            old(self)@.size_val() + size <= u64::MAX,
        ensures
            final(self)@ == old(self)@.insert_spec(path@, size).0,
            r == old(self)@.insert_spec(path@, size).1,
            final(self)@.wf(),
    {
        proof {
            assert(path@.skip(0) =~= path@);
            lemma_insert_wf(old(self)@, path@, size);
        }
        self.insert_at(path.segments(), 0, size)
    }

    /// Inserts a path with its computed size; identical to `insert_with`.
    pub fn insert(&mut self, path: &SegPath, size: u64) -> (r: Option<u64>)
        requires
            old(self)@.wf(),
            size >= old(self)@.size_at0(path@),
            old(self)@.size_val() + size <= u64::MAX,
        ensures
            final(self)@ == old(self)@.insert_spec(path@, size).0,
            r == old(self)@.insert_spec(path@, size).1,
            final(self)@.wf(),
    {
        self.insert_with(path, size)
    }

    /// Whether some node of the tree sits at exactly this path: the path or
    /// one of its descendants has been inserted and not subsumed since.
    pub fn contains_parent(&self, path: &SegPath) -> (r: bool)
        ensures
            r == (self@.node_at(path@) is Some),
    {
        proof {
            assert(path@.skip(0) =~= path@);
        }
        self.traverse_tree(path.segments(), 0).is_some()
    }

    /// The size stored at exactly this path, if its node exists.  A path
    /// subsumed by an ancestor leaf has no node and yields `None`.
    pub fn get_size_at(&self, path: &SegPath) -> (r: Option<u64>)
        ensures
            r == self@.size_at(path@),
    {
        proof {
            assert(path@.skip(0) =~= path@);
        }
        match self.traverse_tree(path.segments(), 0) {
            Option::Some(node) => node.size,
            Option::None => Option::None,
        }
    }

    /// Walks `segs[i..]` and reports whether the walk stops at a leaf.
    #[verifier::loop_isolation(false)]
    fn covered_at(&self, segs: &Vec<String>, i: usize) -> (r: bool)
        requires
            i <= segs.len(),
        ensures
            r == self@.covered(segs.deep_view().skip(i as int)),
        decreases segs.len() - i,
    {
        let ghost p = segs.deep_view().skip(i as int);
        if i == segs.len() {
            proof {
                assert(p =~= Seq::<Seq<char>>::empty());
            }
            return self.is_leaf();
        }
        proof {
            assert(p.len() > 0);
            assert(p[0] == segs.deep_view()[i as int]);
            assert(p.subrange(1, p.len() as int) =~= segs.deep_view().skip(i + 1 as int));
            lemma_children_view(self.children@);
        }
        let key = &segs[i];
        let n = self.children.len();
        let mut j: usize = 0;
        while j < n
            invariant
                j <= n,
                forall|m: int| 0 <= m < j ==> self.children@[m].0@ != segs.deep_view()[i as int],
            decreases n - j,
        {
            if self.children[j].0 == *key {
                proof {
                    lemma_lookup_index(self@.children, key@, j as int);
                }
                return self.children[j].1.covered_at(segs, i + 1);
            }
            j += 1;
        }
        proof {
            lemma_lookup_absent(self@.children, key@);
        }
        self.is_leaf()
    }

    /// Whether the given raw path, once normalized, is already covered by a
    /// stored leaf: itself stored, or lying under a stored ancestor.  A path
    /// that fails normalization is covered by nothing.
    pub fn contains_subpath(&self, s: &str) -> (r: bool)
        ensures
            r == match canon_spec(s@) {
                Option::Some(p) => self@.covered(p),
                Option::None => false,
            },
    {
        match canonicalize(s) {
            Option::Some(path) => {
                proof {
                    assert(path@.skip(0) =~= path@);
                }
                self.covered_at(path.segments(), 0)
            },
            Option::None => false,
        }
    }
}

impl TreeV {
    /// The sum of the sizes of all leaves of the tree.
    pub open spec fn leaf_sum(self) -> int
        decreases self,
    {
        if self.children.len() == 0 {
            self.size_val()
        } else {
            leaf_sum_seq(self.children)
        }
    }
}

/// The sum of `leaf_sum` over a child list.
pub open spec fn leaf_sum_seq(cs: Seq<(Seq<char>, TreeV)>) -> int
    decreases cs,
{
    if cs.len() == 0 {
        0int
    } else {
        leaf_sum_seq(cs.subrange(0, cs.len() - 1)) + cs.last().1.leaf_sum()
    }
}

/// Every byte of the aggregate total is owned by exactly one leaf: in a
/// well-formed tree, the root's aggregated size is the sum of the sizes of
/// its leaves, and leaves never overlap (`lemma_leaves_prefix_free`).
pub proof fn lemma_size_is_leaf_sum(t: TreeV)
    requires
        t.wf(),
    ensures
        t.size_val() == t.leaf_sum(),
    decreases t,
{
    if t.children.len() > 0 {
        lemma_size_is_leaf_sum_seq(t.children);
    }
}

proof fn lemma_size_is_leaf_sum_seq(cs: Seq<(Seq<char>, TreeV)>)
    requires
        forall|i: int| 0 <= i < cs.len() ==> (#[trigger] cs[i].1).wf(),
    ensures
        sum_sizes(cs) == leaf_sum_seq(cs),
    decreases cs,
{
    if cs.len() > 0 {
        let sub = cs.subrange(0, cs.len() - 1);
        assert(forall|i: int| 0 <= i < sub.len() ==> sub[i] == cs[i]);
        lemma_size_is_leaf_sum_seq(sub);
        lemma_size_is_leaf_sum(cs.last().1);
    }
}

/// The leaf invariant: no leaf lies on the path to another leaf.  Two
/// distinct stored paths are never in an ancestor/descendant relationship.
pub proof fn lemma_leaves_prefix_free(t: TreeV, p: Seq<Seq<char>>, q: Seq<Seq<char>>)
    requires
        t.leaf_at(p),
        t.leaf_at(q),
        p != q,
    ensures
        !p.is_prefix_of(q),
    decreases p.len(),
{
    if p.is_prefix_of(q) {
        if p.len() == 0 {
            assert(t.is_leaf());
            assert(q.len() > 0) by {
                if q.len() == 0 {
                    assert(p =~= q);
                }
            }
            assert(lookup_child(t.children, q[0]) is None);
            assert(!t.leaf_at(q));
        } else {
            assert(q.len() >= p.len());
            assert(q[0] == q.subrange(0, p.len() as int)[0]);
            assert(q[0] == p[0]);
            let pr = p.subrange(1, p.len() as int);
            let qr = q.subrange(1, q.len() as int);
            match lookup_child(t.children, p[0]) {
                Option::None => {
                    assert(!t.leaf_at(p));
                },
                Option::Some(c) => {
                    assert(pr.is_prefix_of(qr)) by {
                        assert(pr =~= q.subrange(0, p.len() as int).subrange(
                            1,
                            p.len() as int,
                        ));
                        assert(qr.subrange(0, pr.len() as int) =~= pr);
                    }
                    assert(pr != qr) by {
                        if pr == qr {
                            assert(p =~= q);
                        }
                    }
                    lemma_leaves_prefix_free(c, pr, qr);
                },
            }
        }
    }
}

/// What the covering walk means: a path is covered exactly when some
/// prefix of it — possibly the whole path — is a stored leaf.
pub proof fn lemma_covered_iff_prefix_leaf(t: TreeV, p: Seq<Seq<char>>)
    ensures
        t.covered(p) <==> exists|k: int| 0 <= k <= p.len() && t.leaf_at(#[trigger] p.take(k)),
    decreases p.len(),
{
    if p.len() == 0 {
        assert(p.take(0) =~= p);
        if t.covered(p) {
            assert(t.leaf_at(p.take(0)));
        }
    } else {
        match lookup_child(t.children, p[0]) {
            Option::None => {
                assert(p.take(0) =~= Seq::<Seq<char>>::empty());
                if t.is_leaf() {
                    assert(t.leaf_at(p.take(0)));
                } else {
                    assert forall|k: int| 0 <= k <= p.len() implies !t.leaf_at(
                        #[trigger] p.take(k),
                    ) by {
                        if k > 0 {
                            assert(p.take(k)[0] == p[0]);
                            assert(t.node_at(p.take(k)) is None);
                        }
                    }
                }
            },
            Option::Some(c) => {
                assert(t.children.len() > 0);
                assert(!t.is_leaf());
                let pr = p.subrange(1, p.len() as int);
                lemma_covered_iff_prefix_leaf(c, pr);
                assert forall|k: int| 0 <= k <= pr.len() implies t.leaf_at(
                    p.take(k + 1),
                ) == c.leaf_at(#[trigger] pr.take(k)) by {
                    assert(p.take(k + 1)[0] == p[0]);
                    assert(p.take(k + 1).subrange(1, k + 1) =~= pr.take(k));
                }
                if t.covered(p) {
                    let k = choose|k: int|
                        0 <= k <= pr.len() && c.leaf_at(#[trigger] pr.take(k));
                    assert(t.leaf_at(p.take(k + 1)));
                }
                if exists|k: int| 0 <= k <= p.len() && t.leaf_at(#[trigger] p.take(k)) {
                    let k = choose|k: int|
                        0 <= k <= p.len() && t.leaf_at(#[trigger] p.take(k));
                    if k == 0 {
                        assert(p.take(0) =~= Seq::<Seq<char>>::empty());
                        assert(t.is_leaf());
                    } else {
                        assert(c.leaf_at(pr.take(k - 1)));
                    }
                }
            },
        }
    }
}

/// What blocking means: an insertion is blocked exactly when a strict
/// prefix of its path is a stored leaf — the leaf already owns the path.
pub proof fn lemma_blocked_iff_strict_prefix_leaf(t: TreeV, p: Seq<Seq<char>>)
    ensures
        t.blocked(p) <==> exists|k: int| 0 <= k < p.len() && t.leaf_at(#[trigger] p.take(k)),
    decreases p.len(),
{
    if p.len() == 0 {
    } else {
        if t.is_leaf() {
            assert(p.take(0) =~= Seq::<Seq<char>>::empty());
            assert(t.leaf_at(p.take(0)));
        } else {
            match lookup_child(t.children, p[0]) {
                Option::None => {
                    assert forall|k: int| 0 <= k < p.len() implies !t.leaf_at(
                        #[trigger] p.take(k),
                    ) by {
                        if k == 0 {
                            assert(p.take(0) =~= Seq::<Seq<char>>::empty());
                        } else {
                            assert(p.take(k)[0] == p[0]);
                            assert(t.node_at(p.take(k)) is None);
                        }
                    }
                },
                Option::Some(c) => {
                    let pr = p.subrange(1, p.len() as int);
                    lemma_blocked_iff_strict_prefix_leaf(c, pr);
                    assert forall|k: int| 0 <= k < pr.len() implies t.leaf_at(
                        p.take(k + 1),
                    ) == c.leaf_at(#[trigger] pr.take(k)) by {
                        assert(p.take(k + 1)[0] == p[0]);
                        assert(p.take(k + 1).subrange(1, k + 1) =~= pr.take(k));
                    }
                    if t.blocked(p) {
                        let k = choose|k: int|
                            0 <= k < pr.len() && c.leaf_at(#[trigger] pr.take(k));
                        assert(t.leaf_at(p.take(k + 1)));
                    }
                    if exists|k: int| 0 <= k < p.len() && t.leaf_at(#[trigger] p.take(k)) {
                        let k = choose|k: int|
                            0 <= k < p.len() && t.leaf_at(#[trigger] p.take(k));
                        if k == 0 {
                            assert(p.take(0) =~= Seq::<Seq<char>>::empty());
                            assert(t.is_leaf());
                        } else {
                            assert(c.leaf_at(pr.take(k - 1)));
                        }
                    }
                },
            }
        }
    }
}

/// The root size of a tree built by one insertion into a fresh tree.
proof fn lemma_insert_empty_root(p: Seq<Seq<char>>, s: u64)
    ensures
        TreeV::empty().insert_spec(p, s).0.size == Option::Some(s),
        TreeV::empty().insert_spec(p, s).1 == Option::Some(s),
    decreases p.len(),
{
    if p.len() > 0 {
        lemma_insert_empty_root(p.subrange(1, p.len() as int), s);
    }
}

/// Inserting a descendant after its ancestor is a no-op: the ancestor's
/// leaf already owns the whole subtree.
proof fn lemma_p1_ancestor_first(a: Seq<Seq<char>>, b: Seq<Seq<char>>, sa: u64, sb: u64)
    requires
        a.is_prefix_of(b),
        a != b,
    ensures
        ({
            let t_a = TreeV::empty().insert_spec(a, sa).0;
            t_a.insert_spec(b, sb) == (t_a, Option::<u64>::None)
        }),
    decreases a.len(),
{
    let t_a = TreeV::empty().insert_spec(a, sa).0;
    assert(b.len() > a.len()) by {
        if a.len() == b.len() {
            assert(a =~= b);
        }
    }
    if a.len() == 0 {
        assert(t_a.is_leaf());
    } else {
        assert(b[0] == b.subrange(0, a.len() as int)[0]);
        assert(b[0] == a[0]);
        let ar = a.subrange(1, a.len() as int);
        let br = b.subrange(1, b.len() as int);
        assert(ar.is_prefix_of(br)) by {
            assert(ar =~= b.subrange(0, a.len() as int).subrange(1, a.len() as int));
            assert(br.subrange(0, ar.len() as int) =~= ar);
        }
        assert(ar != br) by {
            if ar == br {
                assert(a =~= b);
            }
        }
        lemma_p1_ancestor_first(ar, br, sa, sb);
        lemma_insert_empty_root(ar, sa);
        let sub = TreeV::empty().insert_spec(ar, sa);
        assert(t_a.children == Seq::<(Seq<char>, TreeV)>::empty().push((a[0], sub.0)));
        assert(t_a.children[0].0 == a[0]);
        assert(lookup_child(t_a.children, b[0]) == Option::Some(sub.0));
        assert(key_index(t_a.children, b[0]) == 0);
        assert(sub.0.insert_spec(br, sb).1 is None);
    }
}

/// Inserting an ancestor after its descendant subsumes the descendant: the
/// tree's total becomes the ancestor's size alone, not the sum of both.
proof fn lemma_p1_descendant_first(a: Seq<Seq<char>>, b: Seq<Seq<char>>, sa: u64, sb: u64)
    requires
        a.is_prefix_of(b),
        a != b,
        sa >= sb,
    ensures
        ({
            let t_b = TreeV::empty().insert_spec(b, sb).0;
            let res = t_b.insert_spec(a, sa);
            res.1 == Option::Some((sa - sb) as u64) && res.0.size_val() == sa
        }),
    decreases a.len(),
{
    let t_b = TreeV::empty().insert_spec(b, sb).0;
    assert(b.len() > a.len()) by {
        if a.len() == b.len() {
            assert(a =~= b);
        }
    }
    lemma_insert_empty_root(b, sb);
    if a.len() == 0 {
        assert(t_b.size_val() == sb);
    } else {
        assert(b[0] == b.subrange(0, a.len() as int)[0]);
        assert(b[0] == a[0]);
        let ar = a.subrange(1, a.len() as int);
        let br = b.subrange(1, b.len() as int);
        assert(ar.is_prefix_of(br)) by {
            assert(ar =~= b.subrange(0, a.len() as int).subrange(1, a.len() as int));
            assert(br.subrange(0, ar.len() as int) =~= ar);
        }
        assert(ar != br) by {
            if ar == br {
                assert(a =~= b);
            }
        }
        lemma_p1_descendant_first(ar, br, sa, sb);
        lemma_insert_empty_root(br, sb);
        let sub_b = TreeV::empty().insert_spec(br, sb);
        assert(t_b.children == Seq::<(Seq<char>, TreeV)>::empty().push((b[0], sub_b.0)));
        assert(t_b.children[0].0 == a[0]);
        assert(!t_b.is_leaf());
        assert(lookup_child(t_b.children, a[0]) == Option::Some(sub_b.0));
        assert(key_index(t_b.children, a[0]) == 0);
        assert(t_b.size_val() == sb);
    }
}

/// No double counting across overlapping rules: when one rule's resolved
/// path is an ancestor of another's, the tree built from both paths
/// accounts the ancestor's size alone, in whichever order the two are
/// inserted — never the sum of both.  (Inserting the ancestor after the
/// descendant asks the tree for at least the descendant's bytes back, so
/// its size must be at least the descendant's, as any size measure of
/// nested filesystem paths is.)
pub proof fn lemma_no_double_counting(a: Seq<Seq<char>>, b: Seq<Seq<char>>, sa: u64, sb: u64)
    requires
        a.is_prefix_of(b),
        a != b,
        sa >= sb,
    ensures
        ({
            let t_a = TreeV::empty().insert_spec(a, sa).0;
            t_a.insert_spec(b, sb) == (t_a, Option::<u64>::None) && t_a.size_val() == sa
        }),
        ({
            let t_b = TreeV::empty().insert_spec(b, sb).0;
            t_b.insert_spec(a, sa).0.size_val() == sa
        }),
{
    lemma_p1_ancestor_first(a, b, sa, sb);
    lemma_p1_descendant_first(a, b, sa, sb);
    lemma_insert_empty_root(a, sa);
}

} // verus!

