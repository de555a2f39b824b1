use vstd::prelude::*;
use crate::grid::Grid;
use crate::point::Point;
use crate::tile::{TileData, lower_of, to_lower, tile_ok};
use crate::search::board_ok;

verus! {

/// The length of the longest row.
pub open spec fn max_len(rows: Seq<Vec<char>>) -> int
    decreases rows.len(),
{
    if rows.len() == 0 {
        0
    } else {
        let m = max_len(rows.drop_last());
        if rows.last()@.len() > m { rows.last()@.len() as int } else { m }
    }
}

/// The cell a grid character stands for: a blank is unclaimed, any other
/// character is a fixed letter, in lower case.
pub open spec fn tile_of<'a>(c: char) -> TileData<'a> {
    if c == ' ' { TileData::NoWords } else { TileData::Fixed(lower_of(c)) }
}

/// The cell at column `x` of row `y`; a row shorter than the grid is padded
/// with unclaimed cells.
pub open spec fn read_cell<'a>(rows: Seq<Vec<char>>, x: int, y: int) -> TileData<'a> {
    if x < rows[y]@.len() { tile_of(rows[y]@[x]) } else { TileData::NoWords }
}

/// A word in lower case.
pub open spec fn lower_word(w: Seq<char>) -> Seq<char> {
    w.map_values(|c: char| lower_of(c))
}

proof fn lemma_max_len(rows: Seq<Vec<char>>)
    ensures
        max_len(rows) >= 0,
        forall|y: int| 0 <= y < rows.len() ==> (#[trigger] rows[y])@.len() <= max_len(rows),
        rows.len() > 0 ==> exists|y: int| 0 <= y < rows.len() && (#[trigger] rows[y])@.len() == max_len(rows),
    decreases rows.len(),
{
    if rows.len() > 0 {
        let pre = rows.drop_last();
        lemma_max_len(pre);
        assert forall|y: int| 0 <= y < rows.len() implies (#[trigger] rows[y])@.len() <= max_len(rows) by {
            if y < pre.len() {
                assert(rows[y] == pre[y]);
            }
        }
        if rows.last()@.len() > max_len(pre) {
            assert(rows[rows.len() - 1]@.len() == max_len(rows));
        } else if pre.len() > 0 {
            let y = choose|y: int| 0 <= y < pre.len() && (#[trigger] pre[y])@.len() == max_len(pre);
            assert(rows[y] == pre[y]);
        } else {
            assert(rows[0]@.len() == max_len(rows));
        }
    }
}

/// Builds the starting grid from its rows of text. The grid is as wide as
/// the longest row; blanks become unclaimed cells and every other character
/// a fixed letter, folded to lower case.
pub fn readgrid<'a>(lines: &Vec<Vec<char>>) -> (r: Grid<TileData<'a>>)
    requires
        lines@.len() <= i64::MAX,
        forall|y: int| 0 <= y < lines@.len() ==> (#[trigger] lines@[y])@.len() * lines@.len() <= i64::MAX,
    ensures
        r@.wf(),
        r@.width == max_len(lines@),
        r@.height == lines@.len(),
        board_ok(r@),
        forall|p: Point| r@.valid(p) ==> #[trigger] r@.at(p) == read_cell(lines@, p.x as int, p.y as int),
{
    let mut longest: usize = 0;
    let mut i: usize = 0;
    while i < lines.len()
        invariant
            i <= lines@.len(),
            longest == max_len(lines@.take(i as int)),
        decreases lines.len() - i,
    {
        proof {
            let nxt = lines@.take(i as int + 1);
            assert(nxt.drop_last() =~= lines@.take(i as int));
        }
        if lines[i].len() > longest {
            longest = lines[i].len();
        }
        i = i + 1;
    }
    let h = lines.len();
    let w = longest;
    proof {
        assert(lines@.take(h as int) =~= lines@);
        lemma_max_len(lines@);
        if h > 0 {
            let y = choose|y: int| 0 <= y < lines@.len() && (#[trigger] lines@[y])@.len() == max_len(lines@);
            assert(lines@[y]@.len() * h <= i64::MAX);
            assert(w <= w * h) by (nonlinear_arith)
                requires h >= 1, w >= 0;
        } else {
            assert(w * h == 0) by (nonlinear_arith)
                requires h == 0;
        }
    }
    let ghost rows = lines@;
    let mut tiles: Vec<TileData<'a>> = Vec::new();
    let mut y: usize = 0;
    while y < h
        invariant
            h == rows.len(),
            rows == lines@,
            w == max_len(rows),
            w * h <= i64::MAX,
            y <= h,
            tiles@.len() == w * y,
            forall|j: int| 0 <= j < tiles@.len() ==> tile_ok(#[trigger] tiles@[j]),
            forall|y0: int| 0 <= y0 < rows.len() ==> (#[trigger] rows[y0])@.len() <= w,
            forall|p: Point|
                0 <= p.x < w && 0 <= p.y < y ==> #[trigger] tiles@[w * p.y + p.x] == read_cell(rows, p.x as int, p.y as int),
        decreases h - y,
    {
        let row = &lines[y];
        proof {
            assert(w * y + w == w * (y + 1)) by (nonlinear_arith);
            assert(w * (y + 1) <= w * h) by (nonlinear_arith)
                requires y + 1 <= h, w >= 0;
        }
        let mut x: usize = 0;
        while x < w
            invariant
                h == rows.len(),
                rows == lines@,
                y < h,
                *row == rows[y as int],
                x <= w,
                w * y + w <= w * h,
                w * h <= i64::MAX,
                tiles@.len() == w * y + x,
                forall|j: int| 0 <= j < tiles@.len() ==> tile_ok(#[trigger] tiles@[j]),
                forall|p: Point|
                    (0 <= p.x < w && 0 <= p.y < y) || (0 <= p.x < x && p.y == y) ==> #[trigger] tiles@[w * p.y + p.x]
                        == read_cell(rows, p.x as int, p.y as int),
            decreases w - x,
        {
            let t = if x < row.len() {
                let c = row[x];
                if c == ' ' {
                    TileData::NoWords
                } else {
                    TileData::Fixed(to_lower(c))
                }
            } else {
                TileData::NoWords
            };
            let ghost before = tiles@;
            tiles.push(t);
            proof {
                assert(tile_ok(tiles@[before.len() as int]));
                assert forall|p: Point|
                    (0 <= p.x < w && 0 <= p.y < y) || (0 <= p.x < x + 1 && p.y == y) implies #[trigger] tiles@[w * p.y + p.x]
                        == read_cell(rows, p.x as int, p.y as int) by {
                    if p.y == y && p.x == x {
                        assert(w * p.y + p.x == before.len());
                    } else {
                        if p.y < y {
                            assert(w * p.y + p.x < w * y) by (nonlinear_arith)
                                requires p.y + 1 <= y, p.x < w, w >= 0;
                        }
                        assert(w * p.y + p.x < before.len());
                        assert(tiles@[w * p.y + p.x] == before[w * p.y + p.x]);
                    }
                }
            }
            x = x + 1;
        }
        y = y + 1;
    }
    let r = Grid { width: w, height: h, tiles };
    proof {
        assert forall|p: Point| r@.valid(p) implies #[trigger] r@.at(p) == read_cell(lines@, p.x as int, p.y as int) by {
            assert(r@.index(p) == w * p.y + p.x);
        }
    }
    r
}

/// The words of a word list, folded to lower case.
pub fn readwords(lines: &Vec<Vec<char>>) -> (r: Vec<Vec<char>>)
    ensures
        r@.len() == lines@.len(),
        forall|i: int| 0 <= i < lines@.len() ==> (#[trigger] r@[i])@ == lower_word(lines@[i]@),
{
    let mut out: Vec<Vec<char>> = Vec::new();
    let mut i: usize = 0;
    while i < lines.len()
        invariant
            i <= lines@.len(),
            out@.len() == i,
            forall|j: int| 0 <= j < i ==> (#[trigger] out@[j])@ == lower_word(lines@[j]@),
        decreases lines.len() - i,
    {
        let line = &lines[i];
        let mut word: Vec<char> = Vec::new();
        let mut k: usize = 0;
        while k < line.len()
            invariant
                k <= line@.len(),
                word@ == lower_word(line@.take(k as int)),
            decreases line.len() - k,
        {
            word.push(to_lower(line[k]));
            k = k + 1;
            assert(word@ =~= lower_word(line@.take(k as int)));
        }
        assert(line@.take(line@.len() as int) =~= line@);
        out.push(word);
        i = i + 1;
    }
    out
}

/// Word `a` comes before word `b`: it is shorter, or as long and earlier.
pub open spec fn key_lt(ws: Seq<Vec<char>>, a: int, b: int) -> bool {
    ws[a]@.len() < ws[b]@.len() || (ws[a]@.len() == ws[b]@.len() && a < b)
}

/// `ord` lists every index of `ws` once, shortest word first, words of equal
/// length in list order.
pub open spec fn sorted_order(ws: Seq<Vec<char>>, ord: Seq<usize>) -> bool {
    &&& ord.len() == ws.len()
    &&& forall|a: int| 0 <= a < ord.len() ==> #[trigger] ord[a] < ws.len()
    &&& forall|a: int, b: int| 0 <= a < b < ord.len() ==> key_lt(ws, #[trigger] ord[a] as int, #[trigger] ord[b] as int)
    &&& forall|i: usize| (i as int) < ws.len() ==> #[trigger] ord.contains(i)
}

/// The order in which the words are placed: shortest first, ties kept in
/// list order.
pub fn length_order(words: &Vec<Vec<char>>) -> (r: Vec<usize>)
    ensures
        sorted_order(words@, r@),
{
    let ghost ws = words@;
    let n = words.len();
    let mut longest: usize = 0;
    let mut i: usize = 0;
    while i < n
        invariant
            n == ws.len(),
            ws == words@,
            i <= n,
            forall|j: int| 0 <= j < i ==> (#[trigger] ws[j])@.len() <= longest,
        decreases n - i,
    {
        if words[i].len() > longest {
            longest = words[i].len();
        }
        i = i + 1;
    }
    let mut out: Vec<usize> = Vec::new();
    let mut len: usize = 0;
    while len <= longest
        invariant_except_break
            forall|a: int| 0 <= a < out@.len() ==> #[trigger] out@[a] < n && ws[out@[a] as int]@.len() < len,
            forall|j: usize| j < n && ws[j as int]@.len() < len ==> #[trigger] out@.contains(j),
        invariant
            n == ws.len(),
            ws == words@,
            forall|j: int| 0 <= j < n ==> (#[trigger] ws[j])@.len() <= longest,
            forall|a: int, b: int| 0 <= a < b < out@.len() ==> key_lt(ws, #[trigger] out@[a] as int, #[trigger] out@[b] as int),
            forall|a: int| 0 <= a < out@.len() ==> #[trigger] out@[a] < n,
        ensures
            forall|a: int| 0 <= a < out@.len() ==> #[trigger] out@[a] < n,
            forall|a: int, b: int| 0 <= a < b < out@.len() ==> key_lt(ws, #[trigger] out@[a] as int, #[trigger] out@[b] as int),
            forall|j: usize| j < n ==> #[trigger] out@.contains(j),
        decreases longest - len + 1,
    {
        let mut j: usize = 0;
        while j < n
            invariant
                n == ws.len(),
                ws == words@,
                j <= n,
                len <= longest,
                forall|a: int| 0 <= a < out@.len() ==> #[trigger] out@[a] < n && (ws[out@[a] as int]@.len() < len || (ws[out@[a] as int]@.len() == len && out@[a] < j)),
                forall|a: int, b: int| 0 <= a < b < out@.len() ==> key_lt(ws, #[trigger] out@[a] as int, #[trigger] out@[b] as int),
                forall|k: usize| k < n && (ws[k as int]@.len() < len || (ws[k as int]@.len() == len && k < j)) ==> #[trigger] out@.contains(k),
            decreases n - j,
        {
            if words[j].len() == len {
                let ghost before = out@;
                out.push(j);
                proof {
                    assert(out@[before.len() as int] == j);
                    assert forall|k: usize| k < n && (ws[k as int]@.len() < len || (ws[k as int]@.len() == len && k < j + 1)) implies #[trigger] out@.contains(k) by {
                        if k == j {
                            assert(out@[before.len() as int] == k);
                        } else {
                            assert(before.contains(k));
                            let a = choose|a: int| 0 <= a < before.len() && before[a] == k;
                            assert(out@[a] == k);
                        }
                    }
                    assert forall|a: int, b: int| 0 <= a < b < out@.len() implies key_lt(ws, #[trigger] out@[a] as int, #[trigger] out@[b] as int) by {
                        if b < before.len() {
                            assert(out@[a] == before[a] && out@[b] == before[b]);
                        } else {
                            assert(out@[a] == before[a]);
                        }
                    }
                }
            }
            j = j + 1;
        }
        if len == longest {
            assert forall|j: usize| j < n implies #[trigger] out@.contains(j) by {
                assert(ws[j as int]@.len() <= longest);
            }
            break;
        }
        len = len + 1;
    }
    proof {
        assert(ws.len() == words.len());
        lemma_distinct_bounded(ws, out@);
    }
    out
}

/// A list of indices of `ws` in strictly increasing key order is no longer
/// than `ws`, and exactly as long when it holds every index.
proof fn lemma_distinct_bounded(ws: Seq<Vec<char>>, ord: Seq<usize>)
    requires
        ws.len() <= usize::MAX,
        forall|a: int| 0 <= a < ord.len() ==> #[trigger] ord[a] < ws.len(),
        forall|a: int, b: int| 0 <= a < b < ord.len() ==> key_lt(ws, #[trigger] ord[a] as int, #[trigger] ord[b] as int),
    ensures
        ord.len() <= ws.len(),
        (forall|i: usize| (i as int) < ws.len() ==> #[trigger] ord.contains(i)) ==> ord.len() == ws.len(),
{
    let s = ord.to_set();
    assert forall|a: int, b: int| 0 <= a < ord.len() && 0 <= b < ord.len() && a != b implies ord[a] != ord[b] by {
        if a < b {
            assert(key_lt(ws, ord[a] as int, ord[b] as int));
        } else {
            assert(key_lt(ws, ord[b] as int, ord[a] as int));
        }
    }
    assert(ord.no_duplicates());
    ord.unique_seq_to_set();
    let full = Set::new(|i: usize| (i as int) < ws.len());
    assert(s.subset_of(full));
    lemma_index_set_len(ws.len());
    vstd::set_lib::lemma_len_subset(s, full);
    if forall|i: usize| (i as int) < ws.len() ==> #[trigger] ord.contains(i) {
        assert(full.subset_of(s));
        vstd::set_lib::lemma_len_subset(full, s);
    }
}

proof fn lemma_index_set_len(n: nat)
    requires
        n <= usize::MAX,
    ensures
        Set::new(|i: usize| (i as int) < n).finite(),
        Set::new(|i: usize| (i as int) < n).len() == n,
    decreases n,
{
    if n == 0 {
        assert(Set::new(|i: usize| (i as int) < 0) =~= Set::<usize>::empty());
    } else {
        lemma_index_set_len((n - 1) as nat);
        let small = Set::new(|i: usize| (i as int) < n - 1);
        assert(Set::new(|i: usize| (i as int) < n) =~= small.insert((n - 1) as usize));
    }
}

} // verus!
