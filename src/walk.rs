use vstd::prelude::*;
use crate::grid::{lemma_index_in_bounds, lemma_index_injective, lemma_neighbors_adjacent};
use crate::point::{Point, adjacent, manhattan};
use crate::search::{Board, WordPoints, paths_from, paths_over, place_all, step};
use crate::tile::{TileData, claim};

verus! {

/// The letter a cell carries, if any.
pub open spec fn letter_of(t: TileData) -> Option<char> {
    match t {
        TileData::Fixed(c) => Some(c),
        TileData::OneWord(c, _) => Some(c),
        TileData::TwoWords(c, _, _) => Some(c),
        TileData::NoWords => None,
    }
}

/// `path` walks from cell to four-adjacent cell of `r`, ends at `dest`, and
/// its cells carry the letters of `word` from letter `k` on.
pub open spec fn spells(r: Board, word: Seq<char>, path: Seq<Point>, k: int, dest: Point) -> bool {
    &&& path.len() == word.len() - k
    &&& path.len() > 0
    &&& path.last() == dest
    &&& forall|i: int| 0 <= i < path.len() ==> r.valid(#[trigger] path[i]) && letter_of(r.at(path[i])) == Some(word[k + i])
    &&& forall|i: int| 0 <= i < path.len() - 1 ==> adjacent(#[trigger] path[i], path[i + 1])
}

pub open spec fn spells_from(r: Board, word: Seq<char>, k: int, from: Point, dest: Point) -> bool {
    exists|path: Seq<Point>| path[0] == from && #[trigger] spells(r, word, path, k, dest)
}

pub open spec fn spells_after(r: Board, word: Seq<char>, k: int, prev: Point, dest: Point) -> bool {
    exists|path: Seq<Point>| adjacent(prev, path[0]) && #[trigger] spells(r, word, path, k, dest)
}

/// `r` keeps the shape of `g` and every letter that `g` carries.
pub open spec fn keeps_letters(g: Board, r: Board) -> bool {
    &&& r.same_shape(g)
    &&& r.cells.len() == g.cells.len()
    &&& forall|j: int| 0 <= j < g.cells.len() && (#[trigger] letter_of(g.cells[j])) is Some ==> letter_of(r.cells[j]) == letter_of(g.cells[j])
}

proof fn lemma_claim_letter<'a>(t: TileData<'a>, word: &'a [char], c: char)
    requires
        claim(t, word, c) is Some,
    ensures
        letter_of(claim(t, word, c)->Some_0) == Some(c),
        letter_of(t) is Some ==> letter_of(claim(t, word, c)->Some_0) == letter_of(t),
{
}

/// One claim at a valid point keeps the letters of the board and gives the
/// point the claimed letter.
proof fn lemma_update_keeps<'a>(g: Board<'a>, cur: Point, word: &'a [char], c: char)
    requires
        g.wf(),
        g.valid(cur),
        claim(g.at(cur), word, c) is Some,
    ensures
        keeps_letters(g, g.update(cur, claim(g.at(cur), word, c)->Some_0)),
        letter_of(g.update(cur, claim(g.at(cur), word, c)->Some_0).at(cur)) == Some(c),
{
    lemma_index_in_bounds(g, cur);
    lemma_claim_letter(g.at(cur), word, c);
}

proof fn lemma_keeps_trans(a: Board, b: Board, c: Board)
    requires
        keeps_letters(a, b),
        keeps_letters(b, c),
    ensures
        keeps_letters(a, c),
{
    assert forall|j: int| 0 <= j < a.cells.len() && (#[trigger] letter_of(a.cells[j])) is Some implies letter_of(c.cells[j]) == letter_of(a.cells[j]) by {
        assert(letter_of(b.cells[j]) == letter_of(a.cells[j]));
    }
}

/// Every accepted grid keeps the shape and the letters of the grid the
/// search started from.
proof fn lemma_paths_keep_letters<'a>(g: Board<'a>, word: &'a [char], cur: Point, dest: Point, k: int)
    requires
        g.wf(),
    ensures
        forall|i: int| 0 <= i < paths_from(g, word, cur, dest, k).len() ==> keeps_letters(g, #[trigger] paths_from(g, word, cur, dest, k)[i]),
    decreases word@.len() - k, 0int,
{
    let rem = word@.len() - k - 1;
    if cur == dest && rem == 0 {
        assert(keeps_letters(g, g));
    } else if manhattan(cur, dest) > rem {
    } else if !g.valid(cur) || k < 0 {
    } else {
        match claim(g.at(cur), word, word@[k]) {
            None => {},
            Some(t) => {
                lemma_update_keeps(g, cur, word, word@[k]);
                let g2 = g.update(cur, t);
                lemma_index_in_bounds(g, cur);
                lemma_over_keep_letters(g2, word, g2.neighbors(cur), dest, k + 1);
                let s = paths_from(g, word, cur, dest, k);
                let o = paths_over(g2, word, g2.neighbors(cur), dest, k + 1);
                assert(s == o);
                assert forall|i: int| 0 <= i < s.len() implies keeps_letters(g, #[trigger] s[i]) by {
                    assert(keeps_letters(g2, o[i]));
                    lemma_keeps_trans(g, g2, s[i]);
                }
            },
        }
    }
}

proof fn lemma_over_keep_letters<'a>(g: Board<'a>, word: &'a [char], nbrs: Seq<Point>, dest: Point, k: int)
    requires
        g.wf(),
    ensures
        forall|i: int| 0 <= i < paths_over(g, word, nbrs, dest, k).len() ==> keeps_letters(g, #[trigger] paths_over(g, word, nbrs, dest, k)[i]),
    decreases word@.len() - k, nbrs.len(),
{
    if nbrs.len() > 0 {
        lemma_over_keep_letters(g, word, nbrs.drop_last(), dest, k);
        lemma_paths_keep_letters(g, word, nbrs.last(), dest, k);
        let a = paths_over(g, word, nbrs.drop_last(), dest, k);
        let b = paths_from(g, word, nbrs.last(), dest, k);
        assert forall|i: int| 0 <= i < (a + b).len() implies keeps_letters(g, #[trigger] (a + b)[i]) by {
            if i < a.len() {
                assert((a + b)[i] == a[i]);
            } else {
                assert((a + b)[i] == b[i - a.len()]);
            }
        }
    }
}

/// A walk that spells the word from letter `k + 1` on, preceded by a
/// neighbouring cell that carries letter `k`, spells it from letter `k` on.
proof fn lemma_prepend(r: Board, word: Seq<char>, cur: Point, dest: Point, k: int, rest: Seq<Point>)
    requires
        0 <= k,
        adjacent(cur, rest[0]),
        spells(r, word, rest, k + 1, dest),
        r.valid(cur),
        letter_of(r.at(cur)) == Some(word[k]),
    ensures
        spells(r, word, seq![cur] + rest, k, dest),
{
    let path = seq![cur] + rest;
    assert forall|m: int| 0 <= m < path.len() implies r.valid(#[trigger] path[m]) && letter_of(r.at(path[m])) == Some(word[k + m]) by {
        if m > 0 {
            assert(path[m] == rest[m - 1]);
            assert(r.valid(rest[m - 1]));
        }
    }
    assert forall|m: int| 0 <= m < path.len() - 1 implies adjacent(#[trigger] path[m], path[m + 1]) by {
        if m > 0 {
            assert(path[m] == rest[m - 1]);
            assert(path[m + 1] == rest[m]);
            assert(adjacent(rest[m - 1], rest[m - 1 + 1]));
        }
    }
    assert(path.last() == rest.last());
}

/// The grids reached from `cur` with letter `k` next each come with a walk
/// from `cur` to `dest` that spells the rest of the word.
proof fn lemma_paths_spell<'a>(g: Board<'a>, word: &'a [char], cur: Point, dest: Point, k: int)
    requires
        g.wf(),
        g.valid(dest),
        word@.len() > 0,
        letter_of(g.at(dest)) == Some(word@.last()),
    ensures
        forall|i: int| 0 <= i < paths_from(g, word, cur, dest, k).len() ==> spells_from(#[trigger] paths_from(g, word, cur, dest, k)[i], word@, k, cur, dest),
    decreases word@.len() - k, 0int,
{
    let rem = word@.len() - k - 1;
    if cur == dest && rem == 0 {
        let path = seq![cur];
        assert(spells(g, word@, path, k, dest));
        assert(paths_from(g, word, cur, dest, k)[0] == g);
    } else if manhattan(cur, dest) > rem {
    } else if !g.valid(cur) || k < 0 {
    } else {
        match claim(g.at(cur), word, word@[k]) {
            None => {},
            Some(t) => {
                crate::point::lemma_manhattan_nonneg(cur, dest);
                assert(rem >= 1);
                lemma_update_keeps(g, cur, word, word@[k]);
                let g2 = g.update(cur, t);
                lemma_index_in_bounds(g, cur);
                lemma_index_in_bounds(g, dest);
                if g.index(cur) == g.index(dest) {
                    lemma_index_injective(g, cur, dest);
                }
                assert(letter_of(g2.at(dest)) == Some(word@.last())) by {
                    assert(letter_of(g.cells[g.index(dest)]) is Some);
                }
                let nbrs = g2.neighbors(cur);
                lemma_neighbors_adjacent(g2, cur);
                lemma_over_spell(g2, word, cur, nbrs, dest, k + 1);
                lemma_over_keep_letters(g2, word, nbrs, dest, k + 1);
                let s = paths_from(g, word, cur, dest, k);
                assert(s == paths_over(g2, word, nbrs, dest, k + 1));
                assert forall|i: int| 0 <= i < s.len() implies spells_from(#[trigger] s[i], word@, k, cur, dest) by {
                    let r = s[i];
                    assert(spells_after(r, word@, k + 1, cur, dest));
                    let rest = choose|rest: Seq<Point>| adjacent(cur, rest[0]) && #[trigger] spells(r, word@, rest, k + 1, dest);
                    assert(keeps_letters(g2, r));
                    assert(letter_of(g2.cells[g2.index(cur)]) is Some);
                    assert(r.index(cur) == g2.index(cur));
                    lemma_prepend(r, word@, cur, dest, k, rest);
                    assert(spells(r, word@, seq![cur] + rest, k, dest));
                }
            },
        }
    }
}

proof fn lemma_over_spell<'a>(g: Board<'a>, word: &'a [char], prev: Point, nbrs: Seq<Point>, dest: Point, k: int)
    requires
        g.wf(),
        g.valid(dest),
        word@.len() > 0,
        letter_of(g.at(dest)) == Some(word@.last()),
        forall|j: int| 0 <= j < nbrs.len() ==> adjacent(prev, #[trigger] nbrs[j]),
    ensures
        forall|i: int| 0 <= i < paths_over(g, word, nbrs, dest, k).len() ==> spells_after(#[trigger] paths_over(g, word, nbrs, dest, k)[i], word@, k, prev, dest),
    decreases word@.len() - k, nbrs.len(),
{
    if nbrs.len() > 0 {
        let pre = nbrs.drop_last();
        let q = nbrs.last();
        assert(adjacent(prev, nbrs[nbrs.len() - 1]));
        lemma_over_spell(g, word, prev, pre, dest, k);
        lemma_paths_spell(g, word, q, dest, k);
        let a = paths_over(g, word, pre, dest, k);
        let b = paths_from(g, word, q, dest, k);
        assert forall|i: int| 0 <= i < (a + b).len() implies spells_after(#[trigger] (a + b)[i], word@, k, prev, dest) by {
            if i < a.len() {
                assert((a + b)[i] == a[i]);
            } else {
                assert((a + b)[i] == b[i - a.len()]);
                assert(spells_from(b[i - a.len()], word@, k, q, dest));
                let p = choose|p: Seq<Point>| p[0] == q && #[trigger] spells(b[i - a.len()], word@, p, k, dest);
                assert(adjacent(prev, p[0]));
            }
        }
    }
}

/// Every grid accepted for a word whose last letter sits at `dest` comes
/// with a walk that proves it: as many cells as the word has letters, from
/// `start` to `dest`, each four-adjacent to the next, spelling the word.
pub proof fn lemma_accepted_paths_spell_word<'a>(g: Board<'a>, word: &'a [char], start: Point, dest: Point)
    requires
        g.wf(),
        g.valid(dest),
        word@.len() > 0,
        letter_of(g.at(dest)) == Some(word@.last()),
    ensures
        forall|i: int| 0 <= i < paths_from(g, word, start, dest, 0).len() ==> spells_from(#[trigger] paths_from(g, word, start, dest, 0)[i], word@, 0, start, dest),
{
    lemma_paths_spell(g, word, start, dest, 0);
}

/// Some board of `cands` whose letters `r` all keeps.
pub open spec fn derived_from(cands: Seq<Board>, r: Board) -> bool {
    exists|j: int| 0 <= j < cands.len() && keeps_letters(#[trigger] cands[j], r)
}

proof fn lemma_place_all_derived<'a>(cands: Seq<Board<'a>>, wp: WordPoints<'a>)
    requires
        forall|j: int| 0 <= j < cands.len() ==> (#[trigger] cands[j]).wf(),
    ensures
        forall|i: int| 0 <= i < place_all(cands, wp).len() ==> derived_from(cands, #[trigger] place_all(cands, wp)[i]),
    decreases cands.len(),
{
    if cands.len() > 0 {
        let pre = cands.drop_last();
        let last = cands.last();
        assert(cands[cands.len() - 1].wf());
        lemma_place_all_derived(pre, wp);
        lemma_paths_keep_letters(last, wp.0, wp.1.0, wp.1.1, 0);
        let a = place_all(pre, wp);
        let b = paths_from(last, wp.0, wp.1.0, wp.1.1, 0);
        assert forall|i: int| 0 <= i < (a + b).len() implies derived_from(cands, #[trigger] (a + b)[i]) by {
            if i < a.len() {
                assert((a + b)[i] == a[i]);
                assert(derived_from(pre, a[i]));
                let j = choose|j: int| 0 <= j < pre.len() && keeps_letters(#[trigger] pre[j], a[i]);
                assert(cands[j] == pre[j]);
            } else {
                assert((a + b)[i] == b[i - a.len()]);
                assert(keeps_letters(cands[cands.len() - 1], b[i - a.len()]));
            }
        }
    }
}

/// Placing a word either fails everywhere and leaves the candidate set
/// exactly as it was, or replaces it by the union of the placements, each of
/// which extends one earlier candidate: same shape, every letter kept.
pub proof fn lemma_step_union_or_skip<'a>(cands: Seq<Board<'a>>, wp: WordPoints<'a>)
    requires
        forall|j: int| 0 <= j < cands.len() ==> (#[trigger] cands[j]).wf(),
    ensures
        place_all(cands, wp).len() == 0 ==> step(cands, wp) == cands,
        place_all(cands, wp).len() > 0 ==> step(cands, wp) == place_all(cands, wp),
        place_all(cands, wp).len() > 0 ==> forall|i: int|
            0 <= i < step(cands, wp).len() ==> derived_from(cands, #[trigger] step(cands, wp)[i]),
{
    lemma_place_all_derived(cands, wp);
}

} // verus!
