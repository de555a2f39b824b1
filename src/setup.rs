use vstd::prelude::*;
use crate::grid::{Grid, lemma_index_injective, lemma_index_in_bounds};
use crate::point::Point;
use crate::search::{Board, WordPoints};
use crate::input::{length_order, sorted_order};
use crate::tile::TileData;

verus! {

/// A configuration problem found before the search runs.
#[derive(Clone, Copy, PartialEq, Eq, Structural, Debug)]
pub enum SetupError {
    /// A fixed letter occurs on more than one cell.
    DuplicateLetter(char),
    /// A word's first or last letter is on no cell.
    MissingAnchor(char),
    /// A word without letters has no anchors.
    EmptyWord,
}

/// The letter of a fixed cell.
pub open spec fn fixed_letter(t: TileData) -> Option<char> {
    match t {
        TileData::Fixed(c) => Some(c),
        _ => None,
    }
}

/// Two different cells hold the fixed letter `c`.
pub open spec fn duplicated(g: Board, c: char) -> bool {
    exists|a: int, b: int|
        0 <= a < g.cells.len() && 0 <= b < g.cells.len() && a != b
            && fixed_letter(#[trigger] g.cells[a]) == Some(c) && fixed_letter(#[trigger] g.cells[b]) == Some(c)
}

/// No fixed letter occurs twice.
pub open spec fn duplicate_free(g: Board) -> bool {
    forall|c: char| !duplicated(g, c)
}

/// The point of each fixed letter of a grid.
pub struct LetterMap {
    pub entries: Vec<(char, Point)>,
}

impl LetterMap {
    /// Each letter has at most one entry.
    pub open spec fn wf(&self) -> bool {
        forall|i: int, j: int|
            0 <= i < self.entries@.len() && 0 <= j < self.entries@.len() && i != j
                ==> (#[trigger] self.entries@[i]).0 != (#[trigger] self.entries@[j]).0
    }

    pub open spec fn has(&self, c: char) -> bool {
        exists|i: int| 0 <= i < self.entries@.len() && (#[trigger] self.entries@[i]).0 == c
    }

    pub open spec fn maps(&self, c: char, p: Point) -> bool {
        exists|i: int| 0 <= i < self.entries@.len() && #[trigger] self.entries@[i] == (c, p)
    }

    /// The point of letter `c`, if the map has one.
    pub fn get(&self, c: char) -> (r: Option<Point>)
        ensures
            r is Some <==> self.has(c),
            r matches Some(p) ==> self.maps(c, p),
    {
        let mut i: usize = 0;
        while i < self.entries.len()
            invariant
                i <= self.entries@.len(),
                forall|j: int| 0 <= j < i ==> (#[trigger] self.entries@[j]).0 != c,
            decreases self.entries.len() - i,
        {
            let (d, p) = self.entries[i];
            if d == c {
                assert(self.entries@[i as int] == (c, p));
                return Some(p);
            }
            i = i + 1;
        }
        None
    }
}

/// Builds the letter map of a grid, refusing a grid in which some fixed
/// letter occurs twice.
pub fn hashgrid(grid: &Grid<TileData>) -> (r: Result<LetterMap, SetupError>)
    requires
        grid@.wf(),
    ensures
        r is Ok <==> duplicate_free(grid@),
        r is Err ==> (r matches Err(SetupError::DuplicateLetter(c)) && duplicated(grid@, c)),
        r matches Ok(m) ==> m.wf() && forall|c: char, p: Point|
            #[trigger] m.maps(c, p) <==> grid@.valid(p) && fixed_letter(grid@.at(p)) == Some(c),
{
    let ghost g = grid@;
    let mut map = LetterMap { entries: Vec::new() };
    let mut i: usize = 0;
    let mut x: usize = 0;
    let mut y: usize = 0;
    while i < grid.tiles.len()
        invariant
            g == grid@,
            g.wf(),
            i <= g.cells.len(),
            i == g.width * y + x,
            i < g.cells.len() ==> x < g.width && y < g.height,
            map.wf(),
            forall|c: char, p: Point|
                #[trigger] map.maps(c, p) <==> g.valid(p) && g.index(p) < i && fixed_letter(g.at(p)) == Some(c),
            forall|j: int| 0 <= j < i && (#[trigger] fixed_letter(g.cells[j])) is Some ==> map.has(fixed_letter(g.cells[j])->Some_0),
            forall|a: int, b: int|
                0 <= a < i && 0 <= b < i && a != b && (#[trigger] fixed_letter(g.cells[a])) is Some
                    ==> fixed_letter(g.cells[a]) != #[trigger] fixed_letter(g.cells[b]),
        decreases grid.tiles.len() - i,
    {
        let p = Point { x: x as i64, y: y as i64 };
        assert(g.valid(p) && g.index(p) == i);
        match grid.tiles[i] {
            TileData::Fixed(c) => {
                match map.get(c) {
                    Some(q) => {
                        proof {
                            let k = g.index(q);
                            assert(map.maps(c, q));
                            assert(g.valid(q) && k < i && fixed_letter(g.at(q)) == Some(c));
                            assert(fixed_letter(g.cells[k]) == Some(c));
                            assert(fixed_letter(g.cells[i as int]) == Some(c));
                            assert(duplicated(g, c));
                        }
                        return Err(SetupError::DuplicateLetter(c));
                    },
                    None => {
                        let ghost old_map = map;
                        map.entries.push((c, p));
                        proof {
                            assert(map.entries@[old_map.entries@.len() as int] == (c, p));
                            assert forall|d: char| old_map.has(d) implies map.has(d) by {
                                let j = choose|j: int| 0 <= j < old_map.entries@.len() && (#[trigger] old_map.entries@[j]).0 == d;
                                assert(map.entries@[j] == old_map.entries@[j]);
                            }
                            assert(map.has(c));
                            assert forall|d: char, q: Point| #[trigger] map.maps(d, q) <==> g.valid(q) && g.index(q) < i + 1 && fixed_letter(g.at(q)) == Some(d) by {
                                if map.maps(d, q) {
                                    let j = choose|j: int| 0 <= j < map.entries@.len() && #[trigger] map.entries@[j] == (d, q);
                                    if j < old_map.entries@.len() {
                                        assert(old_map.entries@[j] == (d, q));
                                        assert(old_map.maps(d, q));
                                    }
                                }
                                if g.valid(q) && g.index(q) < i + 1 && fixed_letter(g.at(q)) == Some(d) {
                                    if g.index(q) == i {
                                        lemma_index_injective(g, p, q);
                                    } else {
                                        assert(old_map.maps(d, q));
                                        let j = choose|j: int| 0 <= j < old_map.entries@.len() && #[trigger] old_map.entries@[j] == (d, q);
                                        assert(map.entries@[j] == (d, q));
                                    }
                                }
                            }
                            assert forall|a: int, b: int| 0 <= a < i + 1 && 0 <= b < i + 1 && a != b && (#[trigger] fixed_letter(g.cells[a])) is Some implies fixed_letter(g.cells[a]) != #[trigger] fixed_letter(g.cells[b]) by {
                                if a == i && b < i {
                                    if fixed_letter(g.cells[b]) == Some(c) {
                                        assert(old_map.has(c));
                                    }
                                } else if b == i && a < i {
                                    if fixed_letter(g.cells[a]) == Some(c) {
                                        assert(old_map.has(c));
                                    }
                                }
                            }
                        }
                    },
                }
            },
            _ => {},
        }
        i = i + 1;
        if x + 1 < grid.width {
            x = x + 1;
        } else {
            x = 0;
            y = y + 1;
            proof {
                assert(g.width * y == g.width * (y - 1) + g.width) by (nonlinear_arith)
                    requires y >= 1;
                if i < g.cells.len() {
                    if y >= g.height {
                        assert(g.width * y >= g.width * g.height) by (nonlinear_arith)
                            requires y >= g.height, g.width >= 0;
                    }
                }
            }
        }
    }
    proof {
        assert forall|c: char, p: Point| #[trigger] map.maps(c, p) <==> g.valid(p) && fixed_letter(g.at(p)) == Some(c) by {
            if g.valid(p) {
                lemma_index_in_bounds(g, p);
            }
        }
        assert forall|c: char| !duplicated(g, c) by {
            if duplicated(g, c) {
                let (a, b) = choose|a: int, b: int|
                    0 <= a < g.cells.len() && 0 <= b < g.cells.len() && a != b
                        && fixed_letter(#[trigger] g.cells[a]) == Some(c) && fixed_letter(#[trigger] g.cells[b]) == Some(c);
                assert(fixed_letter(g.cells[a]) != fixed_letter(g.cells[b]));
            }
        }
    }
    Ok(map)
}

/// The anchors of a word: the points of its first and last letter.
pub fn word_to_path(gridmap: &LetterMap, word: &[char]) -> (r: Result<(Point, Point), SetupError>)
    ensures
        word@.len() == 0 ==> r == Err::<(Point, Point), SetupError>(SetupError::EmptyWord),
        word@.len() > 0 && !gridmap.has(word@[0]) ==> r == Err::<(Point, Point), SetupError>(
            SetupError::MissingAnchor(word@[0]),
        ),
        word@.len() > 0 && gridmap.has(word@[0]) && !gridmap.has(word@.last()) ==> r == Err::<
            (Point, Point),
            SetupError,
        >(SetupError::MissingAnchor(word@.last())),
        r is Ok <==> word@.len() > 0 && gridmap.has(word@[0]) && gridmap.has(word@.last()),
        r matches Ok(pq) ==> gridmap.maps(word@[0], pq.0) && gridmap.maps(word@.last(), pq.1),
{
    if word.len() == 0 {
        return Err(SetupError::EmptyWord);
    }
    let first = word[0];
    let last = word[word.len() - 1];
    let start = match gridmap.get(first) {
        Some(p) => p,
        None => {
            return Err(SetupError::MissingAnchor(first));
        },
    };
    let end = match gridmap.get(last) {
        Some(p) => p,
        None => {
            return Err(SetupError::MissingAnchor(last));
        },
    };
    Ok((start, end))
}

/// Some cell holds the fixed letter `c`.
pub open spec fn has_fixed(g: Board, c: char) -> bool {
    exists|p: Point| g.valid(p) && #[trigger] fixed_letter(g.at(p)) == Some(c)
}

/// `p` is the cell of the fixed letter `c`.
pub open spec fn anchor_of(g: Board, c: char, p: Point) -> bool {
    g.valid(p) && fixed_letter(g.at(p)) == Some(c)
}

/// The word has letters, and its first and last letter are on the grid.
pub open spec fn anchored(g: Board, w: Seq<char>) -> bool {
    w.len() > 0 && has_fixed(g, w[0]) && has_fixed(g, w.last())
}

/// Checks the grid and the word list against each other before any search,
/// and gives the words, shortest first, with their anchors.
pub fn prepare<'a>(grid: &Grid<TileData>, words: &'a Vec<Vec<char>>) -> (r: Result<Vec<WordPoints<'a>>, SetupError>)
    requires
        grid@.wf(),
    ensures
        !duplicate_free(grid@) ==> (r matches Err(SetupError::DuplicateLetter(c)) && duplicated(grid@, c)),
        duplicate_free(grid@) ==> (r is Ok <==> forall|i: int| 0 <= i < words@.len() ==> anchored(grid@, #[trigger] words@[i]@)),
        r matches Err(SetupError::MissingAnchor(c)) ==> exists|i: int|
            0 <= i < words@.len() && (#[trigger] words@[i])@.len() > 0 && (c == words@[i]@[0] || c == words@[i]@.last()) && !has_fixed(grid@, c),
        r matches Err(SetupError::EmptyWord) ==> exists|i: int| 0 <= i < words@.len() && (#[trigger] words@[i])@.len() == 0,
        r matches Ok(v) ==> exists|ord: Seq<usize>|
            sorted_order(words@, ord) && v@.len() == ord.len() && forall|k: int|
                0 <= k < v@.len() ==> (#[trigger] v@[k]).0@ == words@[ord[k] as int]@ && anchor_of(grid@, v@[k].0@[0], v@[k].1.0)
                    && anchor_of(grid@, v@[k].0@.last(), v@[k].1.1),
{
    let map = match hashgrid(grid) {
        Ok(m) => m,
        Err(e) => {
            return Err(e);
        },
    };
    proof {
        assert forall|c: char| map.has(c) <==> has_fixed(grid@, c) by {
            if map.has(c) {
                let i = choose|i: int| 0 <= i < map.entries@.len() && (#[trigger] map.entries@[i]).0 == c;
                let p = map.entries@[i].1;
                assert(map.maps(c, p));
            }
            if has_fixed(grid@, c) {
                let p = choose|p: Point| grid@.valid(p) && #[trigger] fixed_letter(grid@.at(p)) == Some(c);
                assert(map.maps(c, p));
            }
        }
    }
    let order = length_order(words);
    let mut out: Vec<WordPoints<'a>> = Vec::new();
    let mut k: usize = 0;
    while k < order.len()
        invariant
            duplicate_free(grid@),
            grid@.wf(),
            forall|c: char, p: Point| #[trigger] map.maps(c, p) <==> grid@.valid(p) && fixed_letter(grid@.at(p)) == Some(c),
            forall|c: char| map.has(c) <==> has_fixed(grid@, c),
            sorted_order(words@, order@),
            k <= order@.len(),
            out@.len() == k,
            forall|j: int| 0 <= j < k ==> anchored(grid@, #[trigger] words@[order@[j] as int]@),
            forall|j: int|
                0 <= j < k ==> (#[trigger] out@[j]).0@ == words@[order@[j] as int]@ && anchor_of(grid@, out@[j].0@[0], out@[j].1.0)
                    && anchor_of(grid@, out@[j].0@.last(), out@[j].1.1),
        decreases order.len() - k,
    {
        let i = order[k];
        let w: &'a Vec<char> = &words[i];
        let ws: &'a [char] = w.as_slice();
        match word_to_path(&map, ws) {
            Ok(pq) => {
                proof {
                    assert(map.maps(ws@[0], pq.0));
                    assert(map.maps(ws@.last(), pq.1));
                }
                out.push((ws, pq));
            },
            Err(e) => {
                proof {
                    assert(words@[i as int]@ == ws@);
                }
                return Err(e);
            },
        }
        k = k + 1;
    }
    proof {
        assert forall|i: int| 0 <= i < words@.len() implies anchored(grid@, #[trigger] words@[i]@) by {
            assert(order@.contains(i as usize));
            let j = choose|j: int| 0 <= j < order@.len() && order@[j] == i as usize;
            assert(anchored(grid@, words@[order@[j] as int]@));
        }
    }
    Ok(out)
}

} // verus!
