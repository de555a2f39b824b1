use vstd::prelude::*;
use crate::grid::{Grid, GridView};
use crate::search::{Board, views, lemma_views_push};
use crate::tile::{TileData, default_char, default_char_of, mask_of, mask_tile};

verus! {

/// The characters a board shows, cell by cell.
pub open spec fn project(g: Board) -> GridView<char> {
    GridView { width: g.width, height: g.height, cells: g.cells.map_values(|t: TileData| default_char_of(t)) }
}

/// All boards of `gs` are well formed and share one shape.
pub open spec fn shaped(gs: Seq<Board>) -> bool {
    forall|i: int, j: int| 0 <= i < gs.len() && 0 <= j < gs.len() ==> (#[trigger] gs[i]).wf() && gs[i].same_shape(#[trigger] gs[j])
}

/// Whether every board of `gs` shows character `c` at cell `i`.
pub open spec fn all_show(gs: Seq<Board>, i: int, c: char) -> bool {
    forall|j: int| 0 <= j < gs.len() ==> default_char_of(#[trigger] gs[j].cells[i]) == c
}

/// Cell `i` of the merged view: the character all boards agree on, else a
/// blank.
pub open spec fn flat_cell(gs: Seq<Board>, i: int) -> char {
    let c = default_char_of(gs[0].cells[i]);
    if all_show(gs, i, c) { c } else { ' ' }
}

/// The merged view of a non-empty candidate set.
pub open spec fn flat(gs: Seq<Board>) -> GridView<char> {
    GridView {
        width: gs[0].width,
        height: gs[0].height,
        cells: Seq::new(gs[0].cells.len(), |i: int| flat_cell(gs, i)),
    }
}

/// Each board of `gs` as seen from `word` alone.
pub open spec fn masked<'a>(gs: Seq<Board<'a>>, word: Seq<char>) -> Seq<Board<'a>> {
    gs.map_values(
        |g: Board<'a>|
            GridView { width: g.width, height: g.height, cells: g.cells.map_values(|t: TileData<'a>| mask_of(t, word)) },
    )
}

/// Merging a single board gives exactly what that board shows.
pub proof fn lemma_flat_single(g: Board)
    requires
        g.wf(),
    ensures
        flat(seq![g]) == project(g),
{
    let gs = seq![g];
    assert forall|i: int| 0 <= i < g.cells.len() implies flat_cell(gs, i) == default_char_of(g.cells[i]) by {
        assert(gs[0] == g);
    }
    assert(flat(gs).cells =~= project(g).cells);
}

/// Merging does not depend on the order of the candidate set: any
/// rearrangement of the same boards merges to the same view.
pub proof fn lemma_flat_order_free(gs1: Seq<Board>, gs2: Seq<Board>)
    requires
        gs1.len() > 0,
        shaped(gs1),
        gs1.to_multiset() == gs2.to_multiset(),
    ensures
        flat(gs1) == flat(gs2),
{
    gs1.to_multiset_ensures();
    gs2.to_multiset_ensures();
    assert(gs2.len() == gs1.to_multiset().len());
    assert(gs2.contains(gs2[0]));
    assert(gs2.to_multiset().count(gs2[0]) > 0);
    assert(gs1.to_multiset().count(gs2[0]) > 0);
    let k = choose|k: int| 0 <= k < gs1.len() && gs1[k] == gs2[0];
    assert(gs1[k].wf() && gs1[k].same_shape(gs1[0]));
    assert forall|i: int| 0 <= i < gs1[0].cells.len() implies flat_cell(gs1, i) == flat_cell(gs2, i) by {
        let c1 = default_char_of(gs1[0].cells[i]);
        let c2 = default_char_of(gs2[0].cells[i]);
        if all_show(gs1, i, c1) {
            assert forall|j: int| 0 <= j < gs2.len() implies default_char_of(#[trigger] gs2[j].cells[i]) == c2 by {
                assert(gs2.contains(gs2[j]));
                assert(gs2.to_multiset().count(gs2[j]) > 0);
                assert(gs1.to_multiset().count(gs2[j]) > 0);
                let m = choose|m: int| 0 <= m < gs1.len() && gs1[m] == gs2[j];
                assert(default_char_of(gs1[m].cells[i]) == c1);
                assert(default_char_of(gs1[k].cells[i]) == c1);
            }
        } else if all_show(gs2, i, c2) {
            assert forall|j: int| 0 <= j < gs1.len() implies default_char_of(#[trigger] gs1[j].cells[i]) == c1 by {
                assert(gs1.contains(gs1[j]));
                assert(gs1.to_multiset().count(gs1[j]) > 0);
                assert(gs2.to_multiset().count(gs1[j]) > 0);
                let m = choose|m: int| 0 <= m < gs2.len() && gs2[m] == gs1[j];
                assert(default_char_of(gs2[m].cells[i]) == c2);
                assert(gs1.contains(gs1[0]));
                assert(gs1.to_multiset().count(gs1[0]) > 0);
                assert(gs2.to_multiset().count(gs1[0]) > 0);
                let m0 = choose|m: int| 0 <= m < gs2.len() && gs2[m] == gs1[0];
                assert(default_char_of(gs2[m0].cells[i]) == c2);
            }
        }
    }
    assert(flat(gs1).cells =~= flat(gs2).cells);
}

impl<'a> Grid<TileData<'a>> {
    /// The characters the grid shows.
    pub fn to_strgrid(&self) -> (r: Grid<char>)
        requires
            self@.wf(),
        ensures
            r@ == project(self@),
    {
        let r = self.map(default_char);
        assert(r@.cells =~= project(self@).cells);
        r
    }
}

/// The text of the first `h` rows of a `w`-wide character grid, one line
/// per row, joined by newlines.
pub open spec fn text_rows(cells: Seq<char>, w: int, h: int) -> Seq<char>
    decreases h,
{
    if h <= 0 {
        seq![]
    } else if h == 1 {
        cells.subrange(0, w)
    } else {
        text_rows(cells, w, h - 1) + seq!['\n'] + cells.subrange(w * (h - 1), w * h)
    }
}

impl Grid<char> {
    /// The grid as text: its rows joined by newlines.
    pub fn to_text(&self) -> (r: Vec<char>)
        requires
            self@.wf(),
        ensures
            r@ == text_rows(self@.cells, self@.width, self@.height),
    {
        let w = self.width;
        let h = self.height;
        let mut out: Vec<char> = Vec::new();
        let mut y: usize = 0;
        while y < h
            invariant
                self@.wf(),
                w == self@.width,
                h == self@.height,
                y <= h,
                out@ == text_rows(self@.cells, w as int, y as int),
            decreases h - y,
        {
            proof {
                assert(w * y + w == w * (y + 1)) by (nonlinear_arith);
                assert(w * (y + 1) <= w * h) by (nonlinear_arith)
                    requires y + 1 <= h, w >= 0;
                assert(0 <= w * y) by (nonlinear_arith)
                    requires w >= 0, y >= 0;
                assert(w * h == self.tiles@.len());
                assert(w * y + w <= self.tiles.len());
            }
            let ghost before = out@;
            if y > 0 {
                out.push('\n');
            }
            let base = w * y;
            let mut x: usize = 0;
            while x < w
                invariant
                    self@.wf(),
                    w == self@.width,
                    base == w * y,
                    base + w <= self.tiles.len(),
                    self@.cells == self.tiles@,
                    x <= w,
                    out@ == (if y > 0 { before + seq!['\n'] } else { before }) + self@.cells.subrange(base as int, base + x),
                decreases w - x,
            {
                out.push(self.tiles[base + x]);
                x = x + 1;
                assert(out@ =~= (if y > 0 { before + seq!['\n'] } else { before }) + self@.cells.subrange(base as int, base + x));
            }
            proof {
                if y == 0 {
                    assert(out@ =~= text_rows(self@.cells, w as int, 1));
                } else {
                    assert(w * (y + 1 - 1) == base);
                    assert(out@ =~= text_rows(self@.cells, w as int, y + 1));
                }
            }
            y = y + 1;
        }
        out
    }
}

/// Folds one more board into the merged characters: a cell keeps its
/// character where the board shows the same one, else becomes blank.
fn merge_into(accum: &Vec<char>, next: &Grid<TileData>) -> (r: Vec<char>)
    requires
        accum@.len() == next.tiles@.len(),
    ensures
        r@.len() == accum@.len(),
        forall|i: int| 0 <= i < accum@.len() ==> #[trigger] r@[i] == (if accum@[i] == default_char_of(next.tiles@[i]) {
            accum@[i]
        } else {
            ' '
        }),
{
    let mut out: Vec<char> = Vec::new();
    let mut i: usize = 0;
    while i < accum.len()
        invariant
            i <= accum@.len(),
            accum@.len() == next.tiles@.len(),
            out@.len() == i,
            forall|j: int| 0 <= j < i ==> #[trigger] out@[j] == (if accum@[j] == default_char_of(next.tiles@[j]) {
                accum@[j]
            } else {
                ' '
            }),
        decreases accum.len() - i,
    {
        let a = accum[i];
        let b = default_char(&next.tiles[i]);
        if a == b {
            out.push(a);
        } else {
            out.push(' ');
        }
        i = i + 1;
    }
    out
}

/// Merges a non-empty candidate set into one view: each cell shows the
/// character all grids agree on, or a blank where they differ.
pub fn flatten(grids: &Vec<Grid<TileData>>) -> (r: Grid<char>)
    requires
        grids@.len() > 0,
        shaped(views(grids@)),
    ensures
        r@ == flat(views(grids@)),
{
    let ghost gs = views(grids@);
    proof {
        assert(gs[0].wf() && gs[0].same_shape(gs[0]));
    }
    let first = grids[0].to_strgrid();
    let mut folded: Vec<char> = first.tiles;
    let n = grids[0].tiles.len();
    let mut k: usize = 1;
    while k < grids.len()
        invariant
            1 <= k <= grids@.len(),
            gs == views(grids@),
            shaped(gs),
            n == gs[0].cells.len(),
            folded@.len() == n,
            forall|i: int| 0 <= i < n ==> #[trigger] folded@[i] == flat_cell(gs.take(k as int), i),
        decreases grids.len() - k,
    {
        proof {
            assert(gs[k as int].wf() && gs[k as int].same_shape(gs[0]));
            assert(gs[0].wf() && gs[0].same_shape(gs[0]));
            assert(gs[k as int] == grids@[k as int]@);
        }
        let next = merge_into(&folded, &grids[k]);
        proof {
            let pre = gs.take(k as int);
            let nxt = gs.take(k as int + 1);
            assert forall|i: int| 0 <= i < n implies #[trigger] next@[i] == flat_cell(nxt, i) by {
                let c = default_char_of(gs[0].cells[i]);
                let b = default_char_of(gs[k as int].cells[i]);
                assert(nxt[0] == gs[0]);
                assert(pre[0] == gs[0]);
                assert(nxt[k as int] == gs[k as int]);
                if all_show(pre, i, c) {
                    if b == c {
                        assert forall|j: int| 0 <= j < nxt.len() implies default_char_of(#[trigger] nxt[j].cells[i]) == c by {
                            if j < k {
                                assert(nxt[j] == pre[j]);
                            }
                        }
                    } else {
                        assert(!all_show(nxt, i, c));
                    }
                } else {
                    let j0 = choose|j: int| 0 <= j < pre.len() && default_char_of(#[trigger] pre[j].cells[i]) != c;
                    assert(nxt[j0] == pre[j0]);
                    assert(!all_show(nxt, i, c));
                }
            }
        }
        folded = next;
        k = k + 1;
    }
    proof {
        assert(gs.take(grids@.len() as int) =~= gs);
        assert(folded@ =~= flat(gs).cells);
    }
    Grid { width: grids[0].width, height: grids[0].height, tiles: folded }
}

/// The view of one word: every grid is first reduced to its fixed letters
/// and the cells that name `word`, then the candidate set is merged.
pub fn flatten_word<'a>(grids: &Vec<Grid<TileData<'a>>>, word: &[char]) -> (r: Grid<char>)
    requires
        grids@.len() > 0,
        shaped(views(grids@)),
    ensures
        r@ == flat(masked(views(grids@), word@)),
{
    let ghost gs = views(grids@);
    let mut mapped: Vec<Grid<TileData<'a>>> = Vec::new();
    let mut k: usize = 0;
    while k < grids.len()
        invariant
            k <= grids@.len(),
            gs == views(grids@),
            shaped(gs),
            views(mapped@) == masked(gs, word@).take(k as int),
        decreases grids.len() - k,
    {
        proof {
            assert(gs[k as int].wf() && gs[k as int].same_shape(gs[k as int]));
            assert(gs[k as int] == grids@[k as int]@);
        }
        let g = grids[k].map(|t: &TileData<'a>| -> (r: TileData<'a>)
            ensures
                r == mask_of(*t, word@),
            { mask_tile(t, word) });
        proof {
            assert(g@.cells =~= gs[k as int].cells.map_values(|t: TileData<'a>| mask_of(t, word@)));
            assert(g@ == masked(gs, word@)[k as int]);
            lemma_views_push(mapped@, g);
            assert(views(mapped@.push(g)) =~= masked(gs, word@).take(k as int + 1));
        }
        mapped.push(g);
        k = k + 1;
    }
    proof {
        let ms = masked(gs, word@);
        assert(ms.take(grids@.len() as int) =~= ms);
        assert forall|a: int, b: int| 0 <= a < ms.len() && 0 <= b < ms.len() implies (#[trigger] ms[a]).wf() && ms[a].same_shape(#[trigger] ms[b]) by {
            assert(gs[a].wf() && gs[a].same_shape(gs[b]));
        }
    }
    flatten(&mapped)
}

} // verus!
