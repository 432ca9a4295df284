use vstd::prelude::*;

verus! {

/// Splitting a character sequence at every occurrence of `sep`, defined by
/// recursion on the last character.  Splitting the empty sequence yields one
/// empty piece, matching the behaviour of splitting a string on a separator.
pub open spec fn split_spec(s: Seq<char>, sep: char) -> Seq<Seq<char>>
    decreases s.len(),
{
    if s.len() == 0 {
        seq![Seq::<char>::empty()]
    } else if s.last() == sep {
        split_spec(s.drop_last(), sep).push(Seq::<char>::empty())
    } else {
        let r = split_spec(s.drop_last(), sep);
        r.update(r.len() - 1, r.last().push(s.last()))
    }
}

pub proof fn lemma_split_spec_nonempty(s: Seq<char>, sep: char)
    ensures
        split_spec(s, sep).len() >= 1,
    decreases s.len(),
{
    if s.len() != 0 {
        lemma_split_spec_nonempty(s.drop_last(), sep);
    }
}

/// Whether a piece is free of the separator character.
pub open spec fn seg_has_no(seg: Seq<char>, sep: char) -> bool {
    forall|c: int| 0 <= c < seg.len() ==> seg[c] != sep
}

/// Every piece of a split is free of the separator.
pub proof fn lemma_split_pieces_free(s: Seq<char>, sep: char)
    ensures
        forall|i: int|
            0 <= i < split_spec(s, sep).len() ==> seg_has_no(
                #[trigger] split_spec(s, sep)[i],
                sep,
            ),
    decreases s.len(),
{
    if s.len() == 0 {
        assert(seg_has_no(Seq::<char>::empty(), sep));
    } else {
        lemma_split_pieces_free(s.drop_last(), sep);
        lemma_split_spec_nonempty(s.drop_last(), sep);
        let r = split_spec(s.drop_last(), sep);
        if s.last() == sep {
            assert forall|i: int| 0 <= i < split_spec(s, sep).len() implies seg_has_no(
                #[trigger] split_spec(s, sep)[i],
                sep,
            ) by {
                if i < r.len() {
                    assert(split_spec(s, sep)[i] == r[i]);
                } else {
                    assert(split_spec(s, sep)[i] =~= Seq::<char>::empty());
                }
            }
        } else {
            assert forall|i: int| 0 <= i < split_spec(s, sep).len() implies seg_has_no(
                #[trigger] split_spec(s, sep)[i],
                sep,
            ) by {
                if i < r.len() - 1 {
                    assert(split_spec(s, sep)[i] == r[i]);
                } else {
                    assert(split_spec(s, sep)[i] == r.last().push(s.last()));
                    assert(seg_has_no(r[r.len() - 1], sep));
                }
            }
        }
    }
}

/// Splitting around one separator splits each side on its own.
pub proof fn lemma_split_concat(u: Seq<char>, v: Seq<char>, sep: char)
    ensures
        split_spec(u + seq![sep] + v, sep) == split_spec(u, sep) + split_spec(v, sep),
    decreases v.len(),
{
    lemma_split_spec_nonempty(u, sep);
    let w = u + seq![sep] + v;
    if v.len() == 0 {
        assert(w.drop_last() =~= u);
        assert(w.last() == sep);
        assert(split_spec(v, sep) == seq![Seq::<char>::empty()]);
        assert(split_spec(w, sep) =~= split_spec(u, sep) + split_spec(v, sep));
    } else {
        lemma_split_concat(u, v.drop_last(), sep);
        lemma_split_spec_nonempty(v.drop_last(), sep);
        assert(w.drop_last() =~= u + seq![sep] + v.drop_last());
        assert(w.last() == v.last());
        let ru = split_spec(u, sep);
        let rd = split_spec(v.drop_last(), sep);
        if v.last() == sep {
            assert(split_spec(w, sep) == (ru + rd).push(Seq::<char>::empty()));
            assert(split_spec(v, sep) == rd.push(Seq::<char>::empty()));
            assert((ru + rd).push(Seq::<char>::empty()) =~= ru + rd.push(Seq::<char>::empty()));
        } else {
            let r = ru + rd;
            assert(split_spec(w, sep) == r.update(r.len() - 1, r.last().push(v.last())));
            assert(split_spec(v, sep) == rd.update(rd.len() - 1, rd.last().push(v.last())));
            assert(r.last() == rd.last());
            assert(r.update(r.len() - 1, r.last().push(v.last())) =~= ru + rd.update(
                rd.len() - 1,
                rd.last().push(v.last()),
            ));
        }
    }
}

/// A separator-free piece splits to itself alone.
pub proof fn lemma_split_seg(seg: Seq<char>, sep: char)
    requires
        seg_has_no(seg, sep),
    ensures
        split_spec(seg, sep) == seq![seg],
    decreases seg.len(),
{
    if seg.len() == 0 {
        assert(seg =~= Seq::<char>::empty());
        assert(split_spec(seg, sep) =~~= seq![seg]);
    } else {
        assert(seg_has_no(seg.drop_last(), sep)) by {
            assert(forall|c: int| 0 <= c < seg.len() - 1 ==> seg.drop_last()[c] == seg[c]);
        }
        lemma_split_seg(seg.drop_last(), sep);
        assert(seg[seg.len() - 1] != sep);
        let r = split_spec(seg.drop_last(), sep);
        assert(r == seq![seg.drop_last()]);
        assert(split_spec(seg, sep) == r.update(0, r.last().push(seg.last())));
        assert(seg.drop_last().push(seg.last()) =~= seg);
        assert(split_spec(seg, sep) =~~= seq![seg]);
    }
}

/// Splits `s` at every occurrence of `sep`, keeping empty pieces.
pub fn split_char(s: &str, sep: char) -> (r: Vec<String>)
    ensures
        r.deep_view() == split_spec(s@, sep),
{
    let n = s.unicode_len();
    let mut r: Vec<String> = Vec::new();
    let mut start: usize = 0;
    let mut i: usize = 0;
    proof {
        assert(s@.take(0) =~= Seq::<char>::empty());
        assert(r.deep_view().push(s@.subrange(0, 0)) =~~= split_spec(s@.take(0), sep));
    }
    while i < n
        invariant
            start <= i <= n,
            n == s@.len(),
            r.deep_view().push(s@.subrange(start as int, i as int)) == split_spec(
                s@.take(i as int),
                sep,
            ),
        decreases n - i,
    {
        let c = s.get_char(i);
        proof {
            assert(s@.take(i + 1 as int).drop_last() =~= s@.take(i as int));
            assert(s@.take(i + 1 as int).last() == s@[i as int]);
            lemma_split_spec_nonempty(s@.take(i as int), sep);
        }
        if c == sep {
            let piece = s.substring_char(start, i).to_owned();
            let ghost old_r = r.deep_view();
            r.push(piece);
            proof {
                assert(r.deep_view() =~~= old_r.push(s@.subrange(start as int, i as int)));
                assert(r.deep_view().push(s@.subrange(i + 1 as int, i + 1 as int))
                    =~~= split_spec(s@.take(i + 1 as int), sep));
            }
            start = i + 1;
        } else {
            proof {
                assert(s@.subrange(start as int, i as int).push(s@[i as int]) =~= s@.subrange(
                    start as int,
                    i + 1 as int,
                ));
                let rr = split_spec(s@.take(i as int), sep);
                assert(rr.update(rr.len() - 1, rr.last().push(s@[i as int])) =~~= r.deep_view().push(
                    s@.subrange(start as int, i + 1 as int),
                ));
            }
        }
        i += 1;
    }
    let piece = s.substring_char(start, n).to_owned();
    let ghost old_r = r.deep_view();
    r.push(piece);
    proof {
        assert(s@.take(n as int) =~= s@);
        assert(r.deep_view() =~~= old_r.push(s@.subrange(start as int, n as int)));
    }
    r
}

} // verus!
