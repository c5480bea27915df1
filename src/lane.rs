//! The one-dimensional model of a lane: its cells listed from the edge that
//! tiles move toward, inward.
use vstd::prelude::*;

verus! {

/// The occupied values of a lane, in order from the edge.
pub open spec fn tiles(l: Seq<Option<u8>>) -> Seq<u8>
    decreases l.len(),
{
    if l.len() == 0 {
        Seq::empty()
    } else {
        let rest = tiles(l.drop_first());
        match l[0] {
            Some(v) => seq![v] + rest,
            None => rest,
        }
    }
}

/// A lane of `n` cells holding `t` packed against the edge.
pub open spec fn fill(t: Seq<u8>, n: nat) -> Seq<Option<u8>> {
    Seq::new(n, |i: int| if i < t.len() { Some(t[i]) } else { None })
}

/// The lane with all its tiles slid toward the edge, order kept.
pub open spec fn compacted(l: Seq<Option<u8>>) -> Seq<Option<u8>> {
    fill(tiles(l), l.len())
}

/// The exponent of the tile formed by merging two tiles of exponent `v`;
/// it stays at the largest representable exponent instead of overflowing.
pub open spec fn raise(v: u8) -> u8 {
    if v < 255 {
        (v + 1) as u8
    } else {
        255
    }
}

/// Merges equal neighbours of a packed tile sequence, from the edge on:
/// each tile takes part in at most one merge, and a merged tile is not
/// merged again.
pub open spec fn combined(t: Seq<u8>) -> Seq<u8>
    decreases t.len(),
{
    if t.len() < 2 {
        t
    } else if t[0] == t[1] {
        seq![raise(t[0])] + combined(t.subrange(2, t.len() as int))
    } else {
        seq![t[0]] + combined(t.drop_first())
    }
}

/// The lane after a full move: slide, merge, slide.
pub open spec fn slid(l: Seq<Option<u8>>) -> Seq<Option<u8>> {
    fill(combined(tiles(l)), l.len())
}

/// No two neighbouring tiles of `t` are equal, so nothing can merge.
pub open spec fn no_merge(t: Seq<u8>) -> bool {
    forall|i: int| 0 <= i < t.len() - 1 ==> #[trigger] t[i] != t[i + 1]
}

/// Every tile of the lane has a positive exponent.
pub open spec fn positive(l: Seq<Option<u8>>) -> bool {
    forall|i: int| 0 <= i < l.len() && l[i] is Some ==> l[i]->0 >= 1
}

/// Moves the tile at `i + 1` into the empty cell `i`.
pub open spec fn slide_pair(l: Seq<Option<u8>>, i: int) -> Seq<Option<u8>> {
    if l[i] is None && l[i + 1] is Some {
        l.update(i, l[i + 1]).update(i + 1, None)
    } else {
        l
    }
}

/// Merges the equal tiles at `i` and `i + 1` into cell `i`.
pub open spec fn combine_pair(l: Seq<Option<u8>>, i: int) -> Seq<Option<u8>> {
    if l[i] is Some && l[i] == l[i + 1] {
        l.update(i, Some(raise(l[i]->0))).update(i + 1, None)
    } else {
        l
    }
}

/// One sliding pass over a four-cell lane, from the far pair to the edge.
pub open spec fn slide_pass(l: Seq<Option<u8>>) -> Seq<Option<u8>> {
    slide_pair(slide_pair(slide_pair(l, 2), 1), 0)
}

/// One merging pass over a four-cell lane, from the edge pair outward.
pub open spec fn combine_pass(l: Seq<Option<u8>>) -> Seq<Option<u8>> {
    combine_pair(combine_pair(combine_pair(l, 0), 1), 2)
}

pub proof fn lemma_tiles_len(l: Seq<Option<u8>>)
    ensures
        tiles(l).len() <= l.len(),
    decreases l.len(),
{
    if l.len() > 0 {
        lemma_tiles_len(l.drop_first());
    }
}

/// Three sliding passes pack a four-cell lane.
pub proof fn lemma_three_passes(l: Seq<Option<u8>>)
    requires
        l.len() == 4,
    ensures
        slide_pass(slide_pass(slide_pass(l))) == compacted(l),
{
    reveal_with_fuel(tiles, 5);
    assert(slide_pass(slide_pass(slide_pass(l))) =~= compacted(l));
}

proof fn lemma_merge_packed(t: Seq<u8>)
    requires
        t.len() <= 4,
    ensures
        compacted(combine_pass(fill(t, 4))) == fill(combined(t), 4),
{
    reveal_with_fuel(tiles, 5);
    reveal_with_fuel(combined, 5);
    let p = combine_pass(fill(t, 4));
    if t.len() >= 2 {
        assert(t.subrange(2, t.len() as int) =~= t.drop_first().drop_first());
    }
    if t.len() == 4 {
        if t[0] == t[1] {
            assert(t.subrange(2, 4).drop_first().len() == 1);
            assert(combined(t) =~= seq![raise(t[0])] + combined(t.subrange(2, 4)));
            if t[2] == t[3] {
                assert(combined(t) =~= seq![raise(t[0]), raise(t[2])]);
            } else {
                assert(combined(t) =~= seq![raise(t[0]), t[2], t[3]]);
            }
        } else if t[1] == t[2] {
            assert(combined(t) =~= seq![t[0], raise(t[1]), t[3]]);
        } else if t[2] == t[3] {
            assert(combined(t) =~= seq![t[0], t[1], raise(t[2])]);
        } else {
            assert(combined(t) =~= t);
        }
    } else if t.len() == 3 {
        if t[0] == t[1] {
            assert(combined(t) =~= seq![raise(t[0]), t[2]]);
        } else if t[1] == t[2] {
            assert(combined(t) =~= seq![t[0], raise(t[1])]);
        } else {
            assert(combined(t) =~= t);
        }
    }
    assert(compacted(p) =~= fill(combined(t), 4));
}

/// Merging a packed lane and packing it again is the full move.
pub proof fn lemma_merge_pass(l: Seq<Option<u8>>)
    requires
        l.len() == 4,
    ensures
        compacted(combine_pass(compacted(l))) == slid(l),
{
    lemma_tiles_len(l);
    lemma_merge_packed(tiles(l));
}

proof fn lemma_tiles_fill(t: Seq<u8>, n: nat)
    requires
        t.len() <= n,
    ensures
        tiles(fill(t, n)) == t,
    decreases n,
{
    if n > 0 {
        let f = fill(t, n);
        if t.len() > 0 {
            assert(f.drop_first() =~= fill(t.drop_first(), (n - 1) as nat));
            lemma_tiles_fill(t.drop_first(), (n - 1) as nat);
            assert(t =~= seq![t[0]] + t.drop_first());
        } else {
            assert(f.drop_first() =~= fill(t, (n - 1) as nat));
            lemma_tiles_fill(t, (n - 1) as nat);
        }
    } else {
        assert(t =~= Seq::<u8>::empty());
    }
}

/// Packing keeps the tiles of a lane, in their order.
pub proof fn lemma_compacted_tiles(l: Seq<Option<u8>>)
    ensures
        tiles(compacted(l)) == tiles(l),
        compacted(l).len() == l.len(),
{
    lemma_tiles_len(l);
    lemma_tiles_fill(tiles(l), l.len());
}

/// Packing a packed lane changes nothing.
pub proof fn lemma_compacted_idempotent(l: Seq<Option<u8>>)
    ensures
        compacted(compacted(l)) == compacted(l),
{
    lemma_compacted_tiles(l);
}

/// Where no neighbours are equal, merging leaves the tiles as they are.
pub proof fn lemma_combined_no_merge(t: Seq<u8>)
    requires
        no_merge(t),
    ensures
        combined(t) == t,
    decreases t.len(),
{
    if t.len() >= 2 {
        let r = t.drop_first();
        assert(t[0] != t[1]);
        assert forall|i: int| 0 <= i < r.len() - 1 implies #[trigger] r[i] != r[i + 1] by {
            assert(t[i + 1] != t[i + 2]);
        }
        lemma_combined_no_merge(r);
        assert(t =~= seq![t[0]] + r);
    }
}

/// The tiles of a lane all hold a positive exponent.
pub open spec fn positive_tiles(t: Seq<u8>) -> bool {
    forall|i: int| 0 <= i < t.len() ==> #[trigger] t[i] >= 1
}

proof fn lemma_tiles_positive(l: Seq<Option<u8>>)
    requires
        positive(l),
    ensures
        positive_tiles(tiles(l)),
    decreases l.len(),
{
    if l.len() > 0 {
        let r = l.drop_first();
        assert forall|i: int| 0 <= i < r.len() && r[i] is Some implies r[i]->0 >= 1 by {
            assert(r[i] == l[i + 1]);
        }
        lemma_tiles_positive(r);
        let t = tiles(l);
        let rt = tiles(r);
        if l[0] is Some {
            assert forall|i: int| 0 <= i < t.len() implies #[trigger] t[i] >= 1 by {
                if i > 0 {
                    assert(t[i] == rt[i - 1]);
                }
            }
        }
    }
}

proof fn lemma_combined_positive(t: Seq<u8>)
    requires
        positive_tiles(t),
    ensures
        positive_tiles(combined(t)),
    decreases t.len(),
{
    if t.len() >= 2 {
        let c = combined(t);
        if t[0] == t[1] {
            let r = t.subrange(2, t.len() as int);
            assert forall|i: int| 0 <= i < r.len() implies #[trigger] r[i] >= 1 by {
                assert(r[i] == t[i + 2]);
            }
            lemma_combined_positive(r);
            assert forall|i: int| 0 <= i < c.len() implies #[trigger] c[i] >= 1 by {
                if i > 0 {
                    assert(c[i] == combined(r)[i - 1]);
                }
            }
        } else {
            let r = t.drop_first();
            assert forall|i: int| 0 <= i < r.len() implies #[trigger] r[i] >= 1 by {
                assert(r[i] == t[i + 1]);
            }
            lemma_combined_positive(r);
            assert forall|i: int| 0 <= i < c.len() implies #[trigger] c[i] >= 1 by {
                if i > 0 {
                    assert(c[i] == combined(r)[i - 1]);
                }
            }
        }
    }
}

/// Sliding and merging never produce an empty exponent.
pub proof fn lemma_positive_kept(l: Seq<Option<u8>>)
    requires
        positive(l),
    ensures
        positive(compacted(l)),
        positive(slid(l)),
{
    lemma_tiles_positive(l);
    lemma_combined_positive(tiles(l));
}

/// On a lane where no two neighbouring tiles are equal, a move is a plain
/// compaction, and it keeps the tiles of the lane, in their order (so also
/// their multiset).
pub proof fn law_no_merge_conserves(l: Seq<Option<u8>>)
    requires
        no_merge(tiles(l)),
    ensures
        slid(l) == compacted(l),
        tiles(compacted(l)) == tiles(l),
        tiles(slid(l)) == tiles(l),
        tiles(slid(l)).to_multiset() == tiles(l).to_multiset(),
{
    lemma_combined_no_merge(tiles(l));
    lemma_compacted_tiles(l);
}

} // verus!
