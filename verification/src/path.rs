use vstd::prelude::*;

use crate::text::{split_char, split_spec};

verus! {

/// The leading-slash component of an absolute path, kept as an explicit
/// first segment so that rooted and relative paths stay distinguishable.
pub open spec fn root_marker() -> Seq<char> {
    seq!['/']
}

/// The `..` path segment.
pub open spec fn parent_marker() -> Seq<char> {
    seq!['.', '.']
}

/// A raw path string is rooted when it starts with a slash.
pub open spec fn rooted_spec(s: Seq<char>) -> bool {
    s.len() > 0 && s[0] == '/'
}

/// A piece of a slash-split string survives as a path segment when it is
/// neither empty (from doubled or trailing slashes) nor the `.` segment.
pub open spec fn keep_seg(seg: Seq<char>) -> bool {
    seg.len() > 0 && seg != seq!['.']
}

/// The component sequence of a raw path string: split on slashes, drop empty
/// and `.` pieces, and record a leading slash as an explicit first segment.
/// `..` segments are kept; resolving them is `canon_spec`'s job.
pub open spec fn components_spec(s: Seq<char>) -> Seq<Seq<char>> {
    let pieces = split_spec(s, '/').filter(|seg: Seq<char>| keep_seg(seg));
    if rooted_spec(s) {
        seq![root_marker()] + pieces
    } else {
        pieces
    }
}

/// Resolves `..` segments against the segments before them: every other
/// segment (the root marker too) is pushed, `..` pops the previous
/// segment, and popping fails when there is nothing left to pop or when
/// it would take the root marker itself — a `..` may never climb past the
/// root.  No filesystem is consulted, so glob metacharacters pass through
/// as ordinary segments.
pub open spec fn resolve_spec(comps: Seq<Seq<char>>) -> Option<Seq<Seq<char>>>
    decreases comps.len(),
{
    if comps.len() == 0 {
        Some(Seq::empty())
    } else {
        match resolve_spec(comps.drop_last()) {
            Option::None => Option::None,
            Option::Some(acc) => {
                if comps.last() == parent_marker() {
                    if acc.len() == 0 || acc.last() == root_marker() {
                        Option::None
                    } else {
                        Option::Some(acc.drop_last())
                    }
                } else {
                    Option::Some(acc.push(comps.last()))
                }
            },
        }
    }
}

/// A rooted component sequence resolves, if at all, to a sequence that is
/// still rooted: the root marker can never be popped.
pub proof fn lemma_resolve_keeps_root(comps: Seq<Seq<char>>)
    requires
        comps.len() > 0,
        comps[0] == root_marker(),
        resolve_spec(comps) is Some,
    ensures
        resolve_spec(comps)->0.len() > 0,
        resolve_spec(comps)->0[0] == root_marker(),
    decreases comps.len(),
{
    if comps.len() == 1 {
        assert(comps.drop_last() =~= Seq::<Seq<char>>::empty());
        assert(comps.last() == root_marker());
        assert(comps.last() != parent_marker());
    } else {
        assert(comps.drop_last()[0] == comps[0]);
        lemma_resolve_keeps_root(comps.drop_last());
    }
}

/// Normalization of a raw rule string: it must be rooted, and its `.` and
/// `..` segments are resolved purely lexically.
pub open spec fn canon_spec(s: Seq<char>) -> Option<Seq<Seq<char>>> {
    if !rooted_spec(s) {
        Option::None
    } else {
        resolve_spec(components_spec(s))
    }
}

/// Joining the segments of a component sequence back with slashes, with a
/// leading root marker rendered as a single leading slash.
pub open spec fn join_spec(p: Seq<Seq<char>>) -> Seq<char>
    decreases p.len(),
{
    if p.len() == 0 {
        Seq::empty()
    } else if p.len() == 1 {
        p[0]
    } else {
        join_spec(p.drop_last()) + seq!['/'] + p.last()
    }
}

/// The display form of a component sequence.
pub open spec fn display_spec(p: Seq<Seq<char>>) -> Seq<char> {
    if p.len() > 0 && p[0] == root_marker() {
        seq!['/'] + join_spec(p.skip(1))
    } else {
        join_spec(p)
    }
}

/// What joining a raw rule onto a working directory yields: an already
/// rooted rule stands alone, anything else is appended after a slash.
pub open spec fn join_under_spec(w: Seq<char>, r: Seq<char>) -> Seq<char> {
    if rooted_spec(r) {
        r
    } else if w.len() == 0 {
        r
    } else if w.last() == '/' {
        w + r
    } else {
        w + seq!['/'] + r
    }
}

/// A filesystem path or glob pattern held as its sequence of segments.
/// An absolute path carries the root marker `/` as its first segment, so
/// `/tmp/a` is `["/", "tmp", "a"]` and a relative `tmp/a` is `["tmp", "a"]`.
pub struct SegPath {
    pub(crate) segs: Vec<String>,
}

impl View for SegPath {
    type V = Seq<Seq<char>>;

    closed spec fn view(&self) -> Seq<Seq<char>> {
        self.segs.deep_view()
    }
}

impl SegPath {
    /// Reads a raw path string into its segments without resolving `..`:
    /// empty and `.` pieces are dropped, a leading slash becomes the root
    /// marker segment.
    pub fn parse(s: &str) -> (r: SegPath)
        ensures
            r@ == components_spec(s@),
    {
        let pieces = split_char(s, '/');
        let mut segs: Vec<String> = Vec::new();
        let ghost head: Seq<Seq<char>> = if rooted_spec(s@) {
            seq![root_marker()]
        } else {
            Seq::empty()
        };
        if s.unicode_len() > 0 && s.get_char(0) == '/' {
            let marker = "/".to_owned();
            proof {
                reveal_strlit("/");
                assert(marker@ =~= root_marker());
            }
            segs.push(marker);
        }
        proof {
            assert(segs.deep_view() =~~= head + pieces.deep_view().take(0).filter(
                |seg: Seq<char>| keep_seg(seg),
            )) by {
                reveal(Seq::filter);
                assert(pieces.deep_view().take(0) =~= Seq::<Seq<char>>::empty());
            }
        }
        let n = pieces.len();
        let mut i: usize = 0;
        while i < n
            invariant
                i <= n,
                n == pieces.deep_view().len(),
                n == pieces@.len(),
                segs.deep_view() == head + pieces.deep_view().take(i as int).filter(
                    |seg: Seq<char>| keep_seg(seg),
                ),
            decreases n - i,
        {
            let p = &pieces[i];
            let keep = if p.as_str().is_empty() {
                false
            } else if p.as_str().unicode_len() == 1 {
                p.as_str().get_char(0) != '.'
            } else {
                true
            };
            proof {
                assert(pieces.deep_view()[i as int] == p@);
                if p@.len() == 1 && p@[0] == '.' {
                    assert(p@ =~= seq!['.']);
                }
                if p@ == seq!['.'] {
                    assert(p@.len() == 1 && p@[0] == '.');
                }
                assert(keep == keep_seg(p@));
                reveal(Seq::filter);
                assert(pieces.deep_view().take(i + 1 as int).drop_last() =~= pieces.deep_view()
                    .take(i as int));
                assert(pieces.deep_view().take(i + 1 as int).last() == p@);
            }
            if keep {
                let ghost old_segs = segs.deep_view();
                segs.push(p.clone());
                proof {
                    assert(segs.deep_view() =~~= old_segs.push(p@));
                    assert(segs.deep_view() =~~= head + pieces.deep_view().take(i + 1 as int)
                        .filter(|seg: Seq<char>| keep_seg(seg)));
                }
            } else {
                proof {
                    assert(segs.deep_view() =~~= head + pieces.deep_view().take(i + 1 as int)
                        .filter(|seg: Seq<char>| keep_seg(seg)));
                }
            }
            i += 1;
        }
        proof {
            assert(pieces.deep_view().take(n as int) =~= pieces.deep_view());
        }
        SegPath { segs }
    }

    /// The segments as plain strings; the view of the result is the view
    /// of the path itself.
    pub fn segments(&self) -> (r: &Vec<String>)
        ensures
            r.deep_view() == self@,
    {
        &self.segs
    }

    /// Whether two paths consist of exactly the same segments.
    pub fn same_path(&self, other: &SegPath) -> (r: bool)
        ensures
            r == (self@ == other@),
    {
        let n = self.segs.len();
        if n != other.segs.len() {
            proof {
                assert(self@.len() != other@.len());
            }
            return false;
        }
        let mut i: usize = 0;
        while i < n
            invariant
                i <= n,
                n == self.segs@.len(),
                n == other.segs@.len(),
                forall|m: int| 0 <= m < i ==> self@[m] == other@[m],
            decreases n - i,
        {
            proof {
                assert(self@[i as int] == self.segs@[i as int]@);
                assert(other@[i as int] == other.segs@[i as int]@);
            }
            if !(self.segs[i] == other.segs[i]) {
                proof {
                    assert(self@[i as int] != other@[i as int]);
                }
                return false;
            }
            i += 1;
        }
        proof {
            assert(self@ =~~= other@);
        }
        true
    }

    /// The display form: segments joined back with slashes.  This inverts
    /// `parse` on already-normal paths and is the form rules are stored in.
    pub fn to_display(&self) -> (r: String)
        ensures
            r@ == display_spec(self@),
    {
        let n = self.segs.len();
        let mut out = String::new();
        let mut start: usize = 0;
        if n > 0 {
            let first = &self.segs[0];
            if first.as_str().unicode_len() == 1 && first.as_str().get_char(0) == '/' {
                proof {
                    assert(first@ =~= root_marker());
                }
                out.append(first.as_str());
                start = 1;
            }
        }
        let ghost rest: Seq<Seq<char>> = self@.skip(start as int);
        let ghost prefix: Seq<char> = out@;
        let mut i: usize = start;
        proof {
            assert(rest.take(0) =~= Seq::<Seq<char>>::empty());
            assert(out@ =~= prefix + join_spec(rest.take(0)));
        }
        while i < n
            invariant
                start <= i <= n,
                n == self@.len(),
                n == self.segs@.len(),
                rest == self@.skip(start as int),
                out@ == prefix + join_spec(rest.take(i - start as int)),
            decreases n - i,
        {
            if i > start {
                out.append("/");
                proof {
                    reveal_strlit("/");
                }
            }
            let seg = &self.segs[i];
            out.append(seg.as_str());
            proof {
                let k = i - start as int;
                assert(rest.take(k + 1).drop_last() =~= rest.take(k));
                assert(rest.take(k + 1).last() == seg@);
                if k == 0 {
                    assert(rest.take(1) =~= seq![seg@]);
                    assert(out@ =~= prefix + join_spec(rest.take(1)));
                } else {
                    assert(out@ =~= prefix + join_spec(rest.take(k + 1)));
                }
            }
            i += 1;
        }
        proof {
            assert(rest.take(n - start as int) =~= rest);
            if self@.len() > 0 && self@[0] == root_marker() && start == 1 {
                assert("/"@ =~= seq!['/']) by {
                    reveal_strlit("/");
                }
                assert(out@ =~= display_spec(self@));
            } else {
                assert(start == 0);
                assert(self@.skip(0) =~= self@);
                assert(!(self@.len() > 0 && self@[0] == root_marker()));
                assert(out@ =~= display_spec(self@));
            }
        }
        out
    }
}

/// Normalizes a raw rule string into an absolute path-or-glob: the string
/// must be rooted, `.` segments are dropped and `..` segments pop the
/// segment before them; a `..` that would pop past the root fails the
/// whole normalization, so every result is an absolute path.  The
/// filesystem is never consulted, so wildcards survive as literal
/// segments.
pub fn canonicalize(s: &str) -> (r: Option<SegPath>)
    ensures
        match r {
            Option::Some(p) => canon_spec(s@) == Option::Some(p@) && p@.len() > 0 && p@[0]
                == root_marker(),
            Option::None => canon_spec(s@) is None,
        },
{
    if s.is_empty() {
        return Option::None;
    }
    if s.get_char(0) != '/' {
        return Option::None;
    }
    let parsed = SegPath::parse(s);
    proof {
        assert(parsed.segs.deep_view() == components_spec(s@));
    }
    let comps = parsed.segs;
    let mut acc: Vec<String> = Vec::new();
    let n = comps.len();
    let mut i: usize = 0;
    proof {
        assert(comps.deep_view().take(0) =~= Seq::<Seq<char>>::empty());
        assert(resolve_spec(comps.deep_view().take(0)) == Option::Some(acc.deep_view()));
        assert(acc.deep_view() =~= Seq::<Seq<char>>::empty());
    }
    while i < n
        invariant
            i <= n,
            n == comps.deep_view().len(),
            n == comps@.len(),
            canon_spec(s@) == resolve_spec(comps.deep_view()),
            resolve_spec(comps.deep_view().take(i as int)) == Option::Some(acc.deep_view()),
        decreases n - i,
    {
        let p = &comps[i];
        proof {
            assert(comps.deep_view()[i as int] == p@);
            assert(comps.deep_view().take(i + 1 as int).drop_last() =~= comps.deep_view().take(
                i as int,
            ));
            assert(comps.deep_view().take(i + 1 as int).last() == p@);
        }
        let is_parent = p.as_str().unicode_len() == 2 && p.as_str().get_char(0) == '.'
            && p.as_str().get_char(1) == '.';
        proof {
            if p@.len() == 2 && p@[0] == '.' && p@[1] == '.' {
                assert(p@ =~= parent_marker());
            }
            if p@ == parent_marker() {
                assert(p@.len() == 2 && p@[0] == '.' && p@[1] == '.');
            }
            assert(is_parent == (p@ == parent_marker()));
        }
        if is_parent {
            if acc.len() == 0 {
                proof {
                    assert(acc.deep_view().len() == 0);
                    assert(resolve_spec(comps.deep_view().take(i + 1 as int)) is None);
                    lemma_resolve_none_extends(comps.deep_view(), i + 1 as int);
                }
                return Option::None;
            }
            let top = &acc[acc.len() - 1];
            let top_is_root = top.as_str().unicode_len() == 1 && top.as_str().get_char(0)
                == '/';
            proof {
                assert(acc.deep_view().last() == top@);
                if top@.len() == 1 && top@[0] == '/' {
                    assert(top@ =~= root_marker());
                }
                if top@ == root_marker() {
                    assert(top@.len() == 1 && top@[0] == '/');
                }
                assert(top_is_root == (acc.deep_view().last() == root_marker()));
            }
            if top_is_root {
                proof {
                    assert(resolve_spec(comps.deep_view().take(i + 1 as int)) is None);
                    lemma_resolve_none_extends(comps.deep_view(), i + 1 as int);
                }
                return Option::None;
            }
            let ghost old_acc = acc.deep_view();
            let _popped = acc.pop();
            proof {
                assert(acc.deep_view() =~~= old_acc.drop_last());
            }
        } else {
            let ghost old_acc = acc.deep_view();
            acc.push(p.clone());
            proof {
                assert(acc.deep_view() =~~= old_acc.push(p@));
            }
        }
        i += 1;
    }
    proof {
        assert(comps.deep_view().take(n as int) =~= comps.deep_view());
        assert(comps.deep_view()[0] == root_marker());
        lemma_resolve_keeps_root(comps.deep_view());
    }
    Option::Some(SegPath { segs: acc })
}

/// Once resolution has failed on a prefix of the components, it fails on
/// every longer prefix as well.
proof fn lemma_resolve_none_extends(comps: Seq<Seq<char>>, k: int)
    requires
        0 <= k <= comps.len(),
        resolve_spec(comps.take(k)) is None,
    ensures
        resolve_spec(comps) is None,
    decreases comps.len() - k,
{
    if k < comps.len() {
        assert(comps.take(k + 1).drop_last() =~= comps.take(k));
        lemma_resolve_none_extends(comps, k + 1);
    } else {
        assert(comps.take(k) =~= comps);
    }
}

/// A segment a normalized path may carry after its root marker: a
/// non-empty piece that is not `.` or `..` and holds no slash.
pub open spec fn plain_seg(seg: Seq<char>) -> bool {
    keep_seg(seg) && seg != parent_marker() && crate::text::seg_has_no(seg, '/')
}

/// Whether every segment after the first is plain.
pub open spec fn plain_tail(segs: Seq<Seq<char>>) -> bool {
    forall|i: int| 1 <= i < segs.len() ==> plain_seg(#[trigger] segs[i])
}

/// Keeping every piece is the identity.
proof fn lemma_filter_all_kept(s: Seq<Seq<char>>)
    requires
        forall|i: int| 0 <= i < s.len() ==> keep_seg(#[trigger] s[i]),
    ensures
        s.filter(|seg: Seq<char>| keep_seg(seg)) == s,
    decreases s.len(),
{
    reveal(Seq::filter);
    if s.len() == 0 {
        assert(s.filter(|seg: Seq<char>| keep_seg(seg)) =~= s);
    } else {
        let dl = s.drop_last();
        assert(forall|i: int| 0 <= i < dl.len() ==> dl[i] == s[i]);
        lemma_filter_all_kept(dl);
        assert(keep_seg(s[s.len() - 1]));
        assert(s.filter(|seg: Seq<char>| keep_seg(seg)) =~= s);
    }
}

/// Filtering keeps pieces free of the separator.
proof fn lemma_filter_keeps_free(s: Seq<Seq<char>>, i: int)
    requires
        forall|m: int| 0 <= m < s.len() ==> crate::text::seg_has_no(#[trigger] s[m], '/'),
        0 <= i < s.filter(|seg: Seq<char>| keep_seg(seg)).len(),
    ensures
        crate::text::seg_has_no(s.filter(|seg: Seq<char>| keep_seg(seg))[i], '/'),
    decreases s.len(),
{
    reveal(Seq::filter);
    if s.len() > 0 {
        let dl = s.drop_last();
        assert(forall|m: int| 0 <= m < dl.len() ==> dl[m] == s[m]);
        let f0 = dl.filter(|seg: Seq<char>| keep_seg(seg));
        let f = s.filter(|seg: Seq<char>| keep_seg(seg));
        if keep_seg(s.last()) && i == f.len() - 1 {
            assert(f[i] == s[s.len() - 1]);
        } else {
            assert(f[i] == f0[i]);
            lemma_filter_keeps_free(dl, i);
        }
    }
}

/// With no `..` segment there is nothing to resolve.
proof fn lemma_resolve_plain(comps: Seq<Seq<char>>)
    requires
        forall|i: int| 0 <= i < comps.len() ==> (#[trigger] comps[i]) != parent_marker(),
    ensures
        resolve_spec(comps) == Option::Some(comps),
    decreases comps.len(),
{
    if comps.len() == 0 {
        assert(comps =~= Seq::<Seq<char>>::empty());
    } else {
        let dl = comps.drop_last();
        assert(forall|i: int| 0 <= i < dl.len() ==> dl[i] == comps[i]);
        lemma_resolve_plain(dl);
        assert(comps[comps.len() - 1] != parent_marker());
        assert(dl.push(comps.last()) =~= comps);
    }
}

/// The segments a successful resolution leaves after the root marker are
/// plain: non-empty, slash-free, and neither `.` nor `..`.
proof fn lemma_resolve_plain_tail(comps: Seq<Seq<char>>)
    requires
        comps.len() > 0,
        comps[0] == root_marker(),
        forall|i: int|
            1 <= i < comps.len() ==> keep_seg(#[trigger] comps[i]) && crate::text::seg_has_no(
                comps[i],
                '/',
            ),
        resolve_spec(comps) is Some,
    ensures
        plain_tail(resolve_spec(comps)->0),
    decreases comps.len(),
{
    lemma_resolve_keeps_root(comps);
    if comps.len() == 1 {
        assert(comps.drop_last() =~= Seq::<Seq<char>>::empty());
    } else {
        let dl = comps.drop_last();
        assert(dl[0] == comps[0]);
        assert(forall|i: int| 0 <= i < dl.len() ==> dl[i] == comps[i]);
        lemma_resolve_plain_tail(dl);
        lemma_resolve_keeps_root(dl);
        let acc = resolve_spec(dl)->0;
        let r = resolve_spec(comps)->0;
        if comps.last() == parent_marker() {
            assert(r == acc.drop_last());
            assert forall|i: int| 1 <= i < r.len() implies plain_seg(#[trigger] r[i]) by {
                assert(r[i] == acc[i]);
            }
        } else {
            assert(r == acc.push(comps.last()));
            assert forall|i: int| 1 <= i < r.len() implies plain_seg(#[trigger] r[i]) by {
                if i < acc.len() {
                    assert(r[i] == acc[i]);
                } else {
                    assert(r[i] == comps[comps.len() - 1]);
                }
            }
        }
    }
}

/// Splitting a slash-joined list of slash-free segments gives the list
/// back.
proof fn lemma_split_join(segs: Seq<Seq<char>>)
    requires
        segs.len() >= 1,
        forall|i: int| 0 <= i < segs.len() ==> crate::text::seg_has_no(#[trigger] segs[i], '/'),
    ensures
        crate::text::split_spec(join_spec(segs), '/') == segs,
    decreases segs.len(),
{
    if segs.len() == 1 {
        crate::text::lemma_split_seg(segs[0], '/');
        assert(join_spec(segs) == segs[0]);
        assert(seq![segs[0]] =~= segs);
    } else {
        let dl = segs.drop_last();
        assert(forall|i: int| 0 <= i < dl.len() ==> dl[i] == segs[i]);
        lemma_split_join(dl);
        crate::text::lemma_split_concat(join_spec(dl), segs.last(), '/');
        crate::text::lemma_split_seg(segs.last(), '/');
        assert(crate::text::seg_has_no(segs[segs.len() - 1], '/'));
        assert(join_spec(segs) == join_spec(dl) + seq!['/'] + segs.last());
        assert(crate::text::split_spec(join_spec(segs), '/') == dl + seq![segs.last()]);
        assert(dl + seq![segs.last()] =~= segs);
    }
}

/// Normalization is idempotent: the display form of a normalized path
/// normalizes back to exactly the same path.  This is what lets stored
/// rules — kept in display form — be reloaded unchanged.
pub proof fn lemma_canonicalize_idempotent(s: Seq<char>)
    requires
        canon_spec(s) is Some,
    ensures
        canon_spec(display_spec(canon_spec(s)->0)) == canon_spec(s),
{
    let q = canon_spec(s)->0;
    let comps = components_spec(s);
    assert(rooted_spec(s));
    assert(comps[0] == root_marker());
    lemma_resolve_keeps_root(comps);
    let pieces = crate::text::split_spec(s, '/').filter(|seg: Seq<char>| keep_seg(seg));
    crate::text::lemma_split_pieces_free(s, '/');
    assert forall|i: int|
        1 <= i < comps.len() implies keep_seg(#[trigger] comps[i]) && crate::text::seg_has_no(
        comps[i],
        '/',
    ) by {
        assert(comps[i] == pieces[i - 1]);
        lemma_filter_keeps_free(crate::text::split_spec(s, '/'), i - 1);
        crate::text::split_spec(s, '/').lemma_filter_pred(
            |seg: Seq<char>| keep_seg(seg),
            i - 1,
        );
    }
    lemma_resolve_plain_tail(comps);
    let d = display_spec(q);
    let tail = q.skip(1);
    assert(q[0] == root_marker());
    assert(d == seq!['/'] + join_spec(tail));
    assert(d[0] == '/');
    assert(rooted_spec(d));
    if q.len() == 1 {
        assert(tail =~= Seq::<Seq<char>>::empty());
        assert(join_spec(tail) == Seq::<char>::empty());
        crate::text::lemma_split_concat(Seq::<char>::empty(), Seq::<char>::empty(), '/');
        assert(Seq::<char>::empty() + seq!['/'] + Seq::<char>::empty() =~= d);
        assert(crate::text::split_spec(d, '/') == seq![Seq::<char>::empty()] + seq![
            Seq::<char>::empty(),
        ]);
        assert(components_spec(d) =~= seq![root_marker()]) by {
            reveal_with_fuel(Seq::filter, 4);
            assert(seq![Seq::<char>::empty()] + seq![Seq::<char>::empty()] =~= seq![
                Seq::<char>::empty(),
                Seq::<char>::empty(),
            ]);
            let two = seq![Seq::<char>::empty(), Seq::<char>::empty()];
            assert(two.drop_last() =~= seq![Seq::<char>::empty()]);
            assert(seq![Seq::<char>::empty()].drop_last() =~= Seq::<Seq<char>>::empty());
            assert(two.filter(|seg: Seq<char>| keep_seg(seg)) =~= Seq::<Seq<char>>::empty());
        }
        lemma_resolve_plain(components_spec(d));
        assert(seq![root_marker()] =~= q);
        assert(canon_spec(d) == Option::Some(q));
    } else {
        assert(tail.len() >= 1);
        assert forall|i: int| 0 <= i < tail.len() implies keep_seg(#[trigger] tail[i])
            && crate::text::seg_has_no(tail[i], '/') && tail[i] != parent_marker() by {
            assert(tail[i] == q[i + 1]);
            assert(plain_seg(q[i + 1]));
        }
        lemma_split_join(tail);
        crate::text::lemma_split_concat(Seq::<char>::empty(), join_spec(tail), '/');
        assert(Seq::<char>::empty() + seq!['/'] + join_spec(tail) =~= d);
        assert(crate::text::split_spec(d, '/') == seq![Seq::<char>::empty()] + tail) by {
            assert(crate::text::split_spec(Seq::<char>::empty(), '/') == seq![
                Seq::<char>::empty(),
            ]);
        }
        Seq::filter_distributes_over_add(
            seq![Seq::<char>::empty()],
            tail,
            |seg: Seq<char>| keep_seg(seg),
        );
        assert(seq![Seq::<char>::empty()].filter(|seg: Seq<char>| keep_seg(seg))
            =~= Seq::<Seq<char>>::empty()) by {
            reveal_with_fuel(Seq::filter, 2);
            assert(seq![Seq::<char>::empty()].drop_last() =~= Seq::<Seq<char>>::empty());
        }
        lemma_filter_all_kept(tail);
        assert(components_spec(d) =~= seq![root_marker()] + tail);
        assert(seq![root_marker()] + tail =~= q);
        assert forall|i: int|
            0 <= i < components_spec(d).len() implies (#[trigger] components_spec(d)[i])
            != parent_marker() by {
            if i >= 1 {
                assert(components_spec(d)[i] == q[i]);
                assert(plain_seg(q[i]));
            }
        }
        lemma_resolve_plain(components_spec(d));
        assert(canon_spec(d) == Option::Some(q));
    }
}

/// Joins each raw rule string onto the working directory: already rooted
/// rules stand alone, the rest become `workdir/rule`.
pub fn prefix_workdir(workdir: &str, raw: &Vec<String>) -> (r: Vec<String>)
    ensures
        r.deep_view() == raw.deep_view().map_values(
            |x: Seq<char>| join_under_spec(workdir@, x),
        ),
{
    let n = raw.len();
    let w_len = workdir.unicode_len();
    let mut out: Vec<String> = Vec::new();
    let mut i: usize = 0;
    while i < n
        invariant
            i <= n,
            n == raw.deep_view().len(),
            n == raw@.len(),
            w_len == workdir@.len(),
            out.deep_view() == raw.deep_view().take(i as int).map_values(
                |x: Seq<char>| join_under_spec(workdir@, x),
            ),
        decreases n - i,
    {
        let r = &raw[i];
        proof {
            assert(raw.deep_view()[i as int] == r@);
        }
        let joined: String;
        if r.as_str().unicode_len() > 0 && r.as_str().get_char(0) == '/' {
            joined = r.clone();
        } else if w_len == 0 {
            joined = r.clone();
        } else if workdir.get_char(w_len - 1) == '/' {
            let mut j = workdir.to_owned();
            j.append(r.as_str());
            joined = j;
        } else {
            let mut j = workdir.to_owned();
            j.append("/");
            j.append(r.as_str());
            proof {
                reveal_strlit("/");
                assert(j@ =~= workdir@ + seq!['/'] + r@);
            }
            joined = j;
        }
        let ghost old_out = out.deep_view();
        out.push(joined);
        proof {
            assert(out.deep_view() =~~= old_out.push(join_under_spec(workdir@, r@)));
            assert(out.deep_view() =~~= raw.deep_view().take(i + 1 as int).map_values(
                |x: Seq<char>| join_under_spec(workdir@, x),
            ));
        }
        i += 1;
    }
    proof {
        assert(raw.deep_view().take(n as int) =~= raw.deep_view());
    }
    out
}

} // verus!
