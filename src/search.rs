use vstd::prelude::*;
use crate::grid::{Grid, GridView, lemma_index_in_bounds};
use crate::point::{Point, manhattan};
use crate::tile::{TileData, claim, claim_tile, tile_ok};

verus! {

/// The mathematical content of a crossword grid.
pub type Board<'a> = GridView<TileData<'a>>;

/// The contents of a sequence of grids.
pub open spec fn views<'a>(s: Seq<Grid<TileData<'a>>>) -> Seq<Board<'a>> {
    s.map_values(|g: Grid<TileData<'a>>| g@)
}

/// A well-formed board on which no cell names one word twice.
pub open spec fn board_ok(g: Board) -> bool {
    &&& g.wf()
    &&& forall|i: int| 0 <= i < g.cells.len() ==> tile_ok(#[trigger] g.cells[i])
}

/// Every grid the search accepts when the word's letter `k` is to be placed
/// at `cur`, heading for `dest`, in enumeration order.
pub open spec fn paths_from<'a>(g: Board<'a>, word: &'a [char], cur: Point, dest: Point, k: int) -> Seq<Board<'a>>
    decreases word@.len() - k, 0int,
{
    let rem = word@.len() - k - 1;
    if cur == dest && rem == 0 {
        seq![g]
    } else if manhattan(cur, dest) > rem {
        seq![]
    } else if !g.valid(cur) || k < 0 {
        seq![]
    } else {
        match claim(g.at(cur), word, word@[k]) {
            None => seq![],
            Some(t) => {
                let g2 = g.update(cur, t);
                paths_over(g2, word, g2.neighbors(cur), dest, k + 1)
            },
        }
    }
}

/// The accepted grids from each point of `nbrs` in turn, concatenated.
pub open spec fn paths_over<'a>(g: Board<'a>, word: &'a [char], nbrs: Seq<Point>, dest: Point, k: int) -> Seq<Board<'a>>
    decreases word@.len() - k, nbrs.len(),
{
    if nbrs.len() == 0 {
        seq![]
    } else {
        paths_over(g, word, nbrs.drop_last(), dest, k) + paths_from(g, word, nbrs.last(), dest, k)
    }
}

/// Appending a grid appends its contents.
pub proof fn lemma_views_push<'a>(s: Seq<Grid<TileData<'a>>>, g: Grid<TileData<'a>>)
    ensures
        views(s.push(g)) == views(s).push(g@),
{
    assert(views(s.push(g)) =~= views(s).push(g@));
}

/// Enumerates the placements of the rest of `word`, from its letter `k`
/// at `start` to its last letter at `dest`, appending one grid per path.
pub fn allpaths<'a>(
    grid: &Grid<TileData<'a>>,
    word: &'a [char],
    start: Point,
    dest: Point,
    k: usize,
    accum: &mut Vec<Grid<TileData<'a>>>,
)
    requires
        grid@.wf(),
        grid@.valid(dest),
        k <= word.len(),
    ensures
        views(final(accum)@) == views(old(accum)@) + paths_from(grid@, word, start, dest, k as int),
    decreases word.len() - k, 1int,
{
    if k == word.len() {
        assert(views(accum@) =~= views(accum@) + paths_from(grid@, word, start, dest, k as int));
        return;
    }
    let len: u64 = (word.len() - k - 1) as u64;
    if start == dest && len == 0 {
        proof {
            lemma_views_push(accum@, *grid);
        }
        accum.push(copy_grid(grid));
        return;
    }
    if !grid.is_valid(start) {
        assert(views(accum@) =~= views(accum@) + paths_from(grid@, word, start, dest, k as int));
        return;
    }
    if start.dist(dest) > len {
        assert(views(accum@) =~= views(accum@) + paths_from(grid@, word, start, dest, k as int));
        return;
    }
    match grid.get_ref(start) {
        None => {
            assert(views(accum@) =~= views(accum@) + paths_from(grid@, word, start, dest, k as int));
        },
        Some(tile) => {
            match claim_tile(*tile, word, word[k]) {
                None => {
                    assert(views(accum@) =~= views(accum@) + paths_from(grid@, word, start, dest, k as int));
                },
                Some(newtile) => {
                    let newgrid = grid.replace(start, newtile);
                    proof {
                        lemma_index_in_bounds(grid@, start);
                    }
                    allpaths2(&newgrid, word, start, dest, k, accum);
                },
            }
        },
    }
}

/// Continues the search from every neighbour of `start` with the letter
/// after `k`.
pub fn allpaths2<'a>(
    grid: &Grid<TileData<'a>>,
    word: &'a [char],
    start: Point,
    dest: Point,
    k: usize,
    accum: &mut Vec<Grid<TileData<'a>>>,
)
    requires
        grid@.wf(),
        grid@.valid(start),
        grid@.valid(dest),
        k < word.len(),
    ensures
        views(final(accum)@) == views(old(accum)@) + paths_over(
            grid@,
            word,
            grid@.neighbors(start),
            dest,
            k + 1,
        ),
    decreases word.len() - k, 0int,
{
    let neighbors = grid.neighbors(start);
    let ghost before = views(accum@);
    let mut i: usize = 0;
    while i < neighbors.len()
        invariant
            grid@.wf(),
            grid@.valid(dest),
            k < word.len(),
            i <= neighbors@.len(),
            neighbors@ == grid@.neighbors(start),
            forall|j: int| 0 <= j < neighbors@.len() ==> grid@.valid(#[trigger] neighbors@[j]),
            views(accum@) == before + paths_over(grid@, word, neighbors@.take(i as int), dest, k + 1),
        decreases neighbors.len() - i,
    {
        let p = neighbors[i];
        allpaths(grid, word, p, dest, k + 1, accum);
        proof {
            let pre = neighbors@.take(i as int);
            let nxt = neighbors@.take(i as int + 1);
            assert(nxt.drop_last() =~= pre);
            assert(nxt.last() == p);
        }
        i = i + 1;
    }
    assert(neighbors@.take(neighbors@.len() as int) =~= neighbors@);
}

/// Every board of `s` is well formed, has the shape of `g`, and lets no
/// word claim a cell twice.
pub open spec fn all_ok_like<'a>(s: Seq<Board<'a>>, g: Board<'a>) -> bool {
    forall|i: int| 0 <= i < s.len() ==> board_ok(#[trigger] s[i]) && s[i].same_shape(g)
}

proof fn lemma_concat_ok_like<'a>(a: Seq<Board<'a>>, b: Seq<Board<'a>>, g: Board<'a>)
    requires
        all_ok_like(a, g),
        all_ok_like(b, g),
    ensures
        all_ok_like(a + b, g),
{
    assert forall|i: int| 0 <= i < (a + b).len() implies board_ok(#[trigger] (a + b)[i]) && (a + b)[i].same_shape(g) by {
        if i < a.len() {
            assert((a + b)[i] == a[i]);
        } else {
            assert((a + b)[i] == b[i - a.len()]);
        }
    }
}

/// Every grid that the search accepts keeps the shape of the grid it started
/// from, and on each of its cells at most two distinct words are named: a
/// word never crosses itself.
pub proof fn lemma_paths_keep_ok<'a>(g: Board<'a>, word: &'a [char], cur: Point, dest: Point, k: int)
    requires
        board_ok(g),
    ensures
        all_ok_like(paths_from(g, word, cur, dest, k), g),
    decreases word@.len() - k, 0int,
{
    let rem = word@.len() - k - 1;
    if cur == dest && rem == 0 {
    } else if manhattan(cur, dest) > rem {
    } else if !g.valid(cur) || k < 0 {
    } else {
        match claim(g.at(cur), word, word@[k]) {
            None => {},
            Some(t) => {
                lemma_index_in_bounds(g, cur);
                let g2 = g.update(cur, t);
                assert(tile_ok(t));
                assert(board_ok(g2));
                lemma_over_keep_ok(g2, word, g2.neighbors(cur), dest, k + 1);
            },
        }
    }
}

proof fn lemma_over_keep_ok<'a>(g: Board<'a>, word: &'a [char], nbrs: Seq<Point>, dest: Point, k: int)
    requires
        board_ok(g),
    ensures
        all_ok_like(paths_over(g, word, nbrs, dest, k), g),
    decreases word@.len() - k, nbrs.len(),
{
    if nbrs.len() > 0 {
        lemma_over_keep_ok(g, word, nbrs.drop_last(), dest, k);
        lemma_paths_keep_ok(g, word, nbrs.last(), dest, k);
        lemma_concat_ok_like(
            paths_over(g, word, nbrs.drop_last(), dest, k),
            paths_from(g, word, nbrs.last(), dest, k),
            g,
        );
    }
}

/// The distance prune is sound: when the two anchors lie further apart than
/// the letters left can walk, no placement is accepted.
pub proof fn lemma_prune_sound<'a>(g: Board<'a>, word: &'a [char], cur: Point, dest: Point, k: int)
    requires
        manhattan(cur, dest) > word@.len() - k - 1,
    ensures
        paths_from(g, word, cur, dest, k) == Seq::<Board<'a>>::empty(),
{
    crate::point::lemma_manhattan_nonneg(cur, dest);
}

/// A word to place, with the points of its first and last letter.
pub type WordPoints<'a> = (&'a [char], (Point, Point));

/// All boards of a candidate set are sound and share one shape.
pub open spec fn uniform(s: Seq<Board>) -> bool {
    forall|i: int, j: int| 0 <= i < s.len() && 0 <= j < s.len() ==> board_ok(#[trigger] s[i]) && s[i].same_shape(#[trigger] s[j])
}

/// The end anchor of `wp` lies on every board of `s`.
pub open spec fn anchors_on(s: Seq<Board>, wp: WordPoints) -> bool {
    forall|i: int| 0 <= i < s.len() ==> (#[trigger] s[i]).valid(wp.1.1)
}

/// Every placement of the word over each candidate in turn, concatenated.
pub open spec fn place_all<'a>(cands: Seq<Board<'a>>, wp: WordPoints<'a>) -> Seq<Board<'a>>
    decreases cands.len(),
{
    if cands.len() == 0 {
        seq![]
    } else {
        place_all(cands.drop_last(), wp) + paths_from(cands.last(), wp.0, wp.1.0, wp.1.1, 0)
    }
}

/// The candidate set after one word: its placements when there are any,
/// else the set unchanged (the word is skipped).
pub open spec fn step<'a>(cands: Seq<Board<'a>>, wp: WordPoints<'a>) -> Seq<Board<'a>> {
    let u = place_all(cands, wp);
    if u.len() == 0 { cands } else { u }
}

/// The candidate set after the words of `wps`, taken left to right.
pub open spec fn fold_words<'a>(cands: Seq<Board<'a>>, wps: Seq<WordPoints<'a>>) -> Seq<Board<'a>>
    decreases wps.len(),
{
    if wps.len() == 0 {
        cands
    } else {
        step(fold_words(cands, wps.drop_last()), wps.last())
    }
}

/// Whether word `i` of `wps` found a placement when its turn came.
pub open spec fn placed_at<'a>(cands: Seq<Board<'a>>, wps: Seq<WordPoints<'a>>, i: int) -> bool {
    place_all(fold_words(cands, wps.take(i)), wps[i]).len() > 0
}

proof fn lemma_place_all_ok<'a>(cands: Seq<Board<'a>>, wp: WordPoints<'a>, shape: Board<'a>)
    requires
        all_ok_like(cands, shape),
    ensures
        all_ok_like(place_all(cands, wp), shape),
    decreases cands.len(),
{
    if cands.len() > 0 {
        lemma_place_all_ok(cands.drop_last(), wp, shape);
        let last = cands.last();
        assert(board_ok(cands[cands.len() - 1]));
        lemma_paths_keep_ok(last, wp.0, wp.1.0, wp.1.1, 0);
        lemma_concat_ok_like(
            place_all(cands.drop_last(), wp),
            paths_from(last, wp.0, wp.1.0, wp.1.1, 0),
            shape,
        );
    }
}

/// Placing the words keeps the candidate set sound: all its grids share one
/// shape, and no cell of any of them is claimed by more than two words or
/// twice by the same word.
pub proof fn lemma_fold_uniform<'a>(cands: Seq<Board<'a>>, wps: Seq<WordPoints<'a>>)
    requires
        uniform(cands),
    ensures
        uniform(fold_words(cands, wps)),
    decreases wps.len(),
{
    if wps.len() > 0 {
        lemma_fold_uniform(cands, wps.drop_last());
        let c = fold_words(cands, wps.drop_last());
        let wp = wps.last();
        if c.len() > 0 {
            let shape = c[0];
            assert forall|j: int| 0 <= j < c.len() implies board_ok(#[trigger] c[j]) && c[j].same_shape(shape) by {
                assert(board_ok(c[j]) && c[j].same_shape(c[0]));
            }
            lemma_place_all_ok(c, wp, shape);
            let u = place_all(c, wp);
            assert forall|a: int, b: int| 0 <= a < u.len() && 0 <= b < u.len() implies board_ok(#[trigger] u[a]) && u[a].same_shape(#[trigger] u[b]) by {
                assert(board_ok(u[a]) && u[a].same_shape(shape));
                assert(u[b].same_shape(shape));
            }
        } else {
            assert(place_all(c, wp).len() == 0);
        }
    }
}

/// Places one word on every candidate. Either the word was placed and the
/// new set is exactly the union of its placements, or it could not be placed
/// anywhere and the set comes back unchanged.
pub fn insert_word<'a>(accum: Vec<Grid<TileData<'a>>>, wp: WordPoints<'a>) -> (r: (Vec<Grid<TileData<'a>>>, bool))
    requires
        uniform(views(accum@)),
        anchors_on(views(accum@), wp),
    ensures
        r.1 == (place_all(views(accum@), wp).len() > 0),
        r.1 ==> views(r.0@) == place_all(views(accum@), wp),
        !r.1 ==> r.0@ == accum@,
        views(r.0@) == step(views(accum@), wp),
        uniform(views(r.0@)),
        accum@.len() > 0 ==> r.0@.len() > 0 && views(r.0@)[0].same_shape(views(accum@)[0]),
{
    let (word, (start, end)) = wp;
    let mut out: Vec<Grid<TileData<'a>>> = Vec::new();
    let ghost cands = views(accum@);
    let mut i: usize = 0;
    while i < accum.len()
        invariant
            i <= accum@.len(),
            cands == views(accum@),
            uniform(cands),
            anchors_on(cands, wp),
            wp == (word, (start, end)),
            views(out@) == place_all(cands.take(i as int), wp),
        decreases accum.len() - i,
    {
        proof {
            assert(cands[i as int] == accum@[i as int]@);
            assert(board_ok(cands[i as int]) && cands[i as int].same_shape(cands[i as int]));
            assert(cands[i as int].valid(end));
        }
        allpaths(&accum[i], word, start, end, 0, &mut out);
        proof {
            let nxt = cands.take(i as int + 1);
            assert(nxt.drop_last() =~= cands.take(i as int));
            assert(nxt.last() == cands[i as int]);
        }
        i = i + 1;
    }
    proof {
        assert(cands.take(accum@.len() as int) =~= cands);
        if cands.len() > 0 {
            let shape = cands[0];
            assert forall|j: int| 0 <= j < cands.len() implies board_ok(#[trigger] cands[j]) && cands[j].same_shape(shape) by {
                assert(board_ok(cands[j]) && cands[j].same_shape(cands[0]));
            }
            lemma_place_all_ok(cands, wp, shape);
        } else {
            assert(place_all(cands, wp).len() == 0);
        }
    }
    if out.len() > 0 {
        proof {
            let u = views(out@);
            assert(u.len() == out@.len());
            assert forall|a: int, b: int| 0 <= a < u.len() && 0 <= b < u.len() implies board_ok(#[trigger] u[a]) && u[a].same_shape(#[trigger] u[b]) by {
                assert(cands.len() > 0);
            }
        }
        (out, true)
    } else {
        (accum, false)
    }
}

/// Places the words left to right, threading the candidate set through them.
/// Also reports, for each word, whether it was placed or skipped.
pub fn add_word<'a>(accum: Vec<Grid<TileData<'a>>>, wordpt: &[WordPoints<'a>]) -> (r: (Vec<Grid<TileData<'a>>>, Vec<bool>))
    requires
        uniform(views(accum@)),
        forall|k: int| 0 <= k < wordpt@.len() ==> anchors_on(views(accum@), #[trigger] wordpt@[k]),
    ensures
        views(r.0@) == fold_words(views(accum@), wordpt@),
        uniform(views(r.0@)),
        r.1@.len() == wordpt@.len(),
        forall|k: int| 0 <= k < wordpt@.len() ==> r.1@[k] == placed_at(views(accum@), wordpt@, k),
{
    let ghost start = views(accum@);
    let mut cur = accum;
    let mut placed: Vec<bool> = Vec::new();
    let mut i: usize = 0;
    while i < wordpt.len()
        invariant
            i <= wordpt@.len(),
            uniform(views(cur@)),
            views(cur@) == fold_words(start, wordpt@.take(i as int)),
            start.len() > 0 ==> cur@.len() > 0 && views(cur@)[0].same_shape(start[0]),
            start.len() == 0 ==> cur@.len() == 0,
            forall|k: int| 0 <= k < wordpt@.len() ==> anchors_on(start, #[trigger] wordpt@[k]),
            placed@.len() == i,
            forall|k: int| 0 <= k < i ==> placed@[k] == placed_at(start, wordpt@, k),
        decreases wordpt.len() - i,
    {
        let wp = wordpt[i];
        proof {
            assert(anchors_on(start, wordpt@[i as int]));
            assert forall|j: int| 0 <= j < views(cur@).len() implies (#[trigger] views(cur@)[j]).valid(wp.1.1) by {
                assert(views(cur@)[j].same_shape(views(cur@)[0]));
                assert(start[0].valid(wp.1.1));
            }
        }
        let (next, ok) = insert_word(cur, wp);
        proof {
            let nxt = wordpt@.take(i as int + 1);
            assert(nxt.drop_last() =~= wordpt@.take(i as int));
            assert(nxt.last() == wp);
        }
        cur = next;
        placed.push(ok);
        i = i + 1;
    }
    assert(wordpt@.take(wordpt@.len() as int) =~= wordpt@);
    (cur, placed)
}

/// Runs the whole search from one starting grid: the final candidate set,
/// and for each word whether it was placed.
pub fn solve<'a>(grid: &Grid<TileData<'a>>, wordpt: &[WordPoints<'a>]) -> (r: (Vec<Grid<TileData<'a>>>, Vec<bool>))
    requires
        board_ok(grid@),
        forall|k: int| 0 <= k < wordpt@.len() ==> grid@.valid((#[trigger] wordpt@[k]).1.1),
    ensures
        views(r.0@) == fold_words(seq![grid@], wordpt@),
        uniform(views(r.0@)),
        r.1@.len() == wordpt@.len(),
        forall|k: int| 0 <= k < wordpt@.len() ==> r.1@[k] == placed_at(seq![grid@], wordpt@, k),
{
    let mut start: Vec<Grid<TileData<'a>>> = Vec::new();
    start.push(copy_grid(grid));
    proof {
        let s = views(start@);
        assert(s =~= seq![grid@]);
        assert forall|k: int| 0 <= k < wordpt@.len() implies anchors_on(s, #[trigger] wordpt@[k]) by {
            assert(grid@.valid(wordpt@[k].1.1));
        }
    }
    add_word(start, wordpt)
}

/// A deep copy of a grid.
fn copy_grid<'a>(grid: &Grid<TileData<'a>>) -> (r: Grid<TileData<'a>>)
    ensures
        r@ == grid@,
{
    let mut copy: Vec<TileData<'a>> = Vec::new();
    let mut i: usize = 0;
    while i < grid.tiles.len()
        invariant
            i <= grid.tiles.len(),
            copy@ == grid.tiles@.take(i as int),
        decreases grid.tiles.len() - i,
    {
        copy.push(grid.tiles[i]);
        i = i + 1;
        assert(copy@ =~= grid.tiles@.take(i as int));
    }
    assert(copy@ =~= grid.tiles@);
    Grid { width: grid.width, height: grid.height, tiles: copy }
}

} // verus!
