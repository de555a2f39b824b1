use crossword::grid::Grid;
use crossword::input::{length_order, readgrid, readwords};
use crossword::point::Point;
use crossword::render::{flatten, flatten_word};
use crossword::search::{allpaths, allpaths2, insert_word, solve, WordPoints};
use crossword::setup::{hashgrid, prepare, word_to_path, SetupError};
use crossword::tile::{claim_tile, default_char, mask_tile, same_word, to_lower, to_upper, TileData};

fn chars(s: &str) -> Vec<char> {
    s.chars().collect()
}

fn lines(rows: &[&str]) -> Vec<Vec<char>> {
    rows.iter().map(|r| chars(r)).collect()
}

fn text(g: &Grid<char>) -> String {
    g.to_text().into_iter().collect()
}

fn shown(g: &Grid<TileData>) -> String {
    text(&g.to_strgrid())
}

fn pt(x: i64, y: i64) -> Point {
    Point { x, y }
}

#[test]
fn point_dist_and_offset() {
    assert_eq!(pt(1, 2).dist(pt(4, 0)), 5);
    assert_eq!(pt(-3, -3).dist(pt(-3, -3)), 0);
    assert_eq!(pt(1, 2).offset(1, -1), pt(0, 3));
}

#[test]
fn grid_validity_and_neighbors() {
    let g = readgrid(&lines(&["abc", "def", "ghi"]));
    assert!(g.is_valid(pt(2, 2)));
    assert!(!g.is_valid(pt(3, 0)));
    assert!(!g.is_valid(pt(0, -1)));
    assert_eq!(g.get_point(pt(1, 1)), Some(pt(1, 1)));
    assert_eq!(g.get_point(pt(1, 3)), None);
    assert_eq!(g.neighbors(pt(1, 1)), vec![pt(0, 1), pt(2, 1), pt(1, 0), pt(1, 2)]);
    assert_eq!(g.neighbors(pt(0, 0)), vec![pt(1, 0), pt(0, 1)]);
}

#[test]
fn grid_is_row_major_on_a_non_square_grid() {
    let g = readgrid(&lines(&["abcd", "efgh"]));
    assert_eq!(g.width, 4);
    assert_eq!(g.height, 2);
    match g.get_ref(pt(3, 1)) {
        Some(TileData::Fixed(c)) => assert_eq!(*c, 'h'),
        _ => panic!("expected a fixed letter"),
    }
    assert!(g.get_ref(pt(4, 0)).is_none());
}

#[test]
fn set_replace_and_get_mut_ref() {
    let mut g = readgrid(&lines(&["ab", "  "]));
    let word = chars("xy");
    let r = g.replace(pt(0, 1), TileData::OneWord('x', &word));
    assert_eq!(shown(&r), "AB\nx ");
    assert_eq!(shown(&g), "AB\n  ");
    g.set(pt(1, 1), TileData::Fixed('q'));
    assert_eq!(shown(&g), "AB\n Q");
    if let Some(t) = g.get_mut_ref(pt(0, 0)) {
        *t = TileData::NoWords;
    }
    assert!(g.get_mut_ref(pt(5, 5)).is_none());
    assert_eq!(shown(&g), " B\n Q");
}

#[test]
fn map_keeps_shape() {
    let g = readgrid(&lines(&["ab", "c"]));
    let m = g.map(|t: &TileData| default_char(t));
    assert_eq!((m.width, m.height), (2, 2));
    assert_eq!(text(&m), "AB\nC ");
}

#[test]
fn case_and_default_char() {
    assert_eq!(to_upper('q'), 'Q');
    assert_eq!(to_upper('Q'), 'Q');
    assert_eq!(to_lower('Q'), 'q');
    assert_eq!(to_lower('7'), '7');
    let w = chars("ab");
    assert_eq!(default_char(&TileData::Fixed('a')), 'A');
    assert_eq!(default_char(&TileData::OneWord('a', &w)), 'a');
    assert_eq!(default_char(&TileData::TwoWords('b', &w, &w)), 'b');
    assert_eq!(default_char(&TileData::NoWords), ' ');
}

#[test]
fn claim_table() {
    let a = chars("cat");
    let b = chars("cot");
    let a2 = chars("cat");
    assert!(matches!(claim_tile(TileData::Fixed('c'), &a, 'c'), Some(TileData::Fixed('c'))));
    assert!(claim_tile(TileData::Fixed('c'), &a, 'd').is_none());
    assert!(matches!(claim_tile(TileData::NoWords, &a, 'x'), Some(TileData::OneWord('x', _))));
    assert!(matches!(claim_tile(TileData::OneWord('t', &a), &b, 't'), Some(TileData::TwoWords('t', _, _))));
    assert!(claim_tile(TileData::OneWord('t', &a), &b, 'u').is_none());
    // a word may not cross itself, even through another copy of its text
    assert!(claim_tile(TileData::OneWord('t', &a), &a2, 't').is_none());
    assert!(claim_tile(TileData::TwoWords('t', &a, &b), &chars("tot"), 't').is_none());
}

#[test]
fn readgrid_pads_and_folds_case() {
    let g = readgrid(&lines(&["AbC", "d"]));
    assert_eq!((g.width, g.height), (3, 2));
    assert_eq!(shown(&g), "ABC\nD  ");
    assert!(matches!(g.get_ref(pt(0, 0)), Some(TileData::Fixed('a'))));
    assert!(matches!(g.get_ref(pt(2, 1)), Some(TileData::NoWords)));
}

#[test]
fn readwords_folds_case() {
    let w = readwords(&lines(&["HeLLo", "ok"]));
    assert_eq!(w, vec![chars("hello"), chars("ok")]);
}

#[test]
fn length_order_is_stable() {
    let w = lines(&["ccc", "a", "bb", "d", ""]);
    assert_eq!(length_order(&w), vec![4, 1, 3, 2, 0]);
}

#[test]
fn duplicate_fixed_letter_is_refused() {
    let g = readgrid(&lines(&["ab", "ca"]));
    assert!(matches!(hashgrid(&g), Err(SetupError::DuplicateLetter('a'))));
    let words = vec![chars("ab")];
    assert!(matches!(prepare(&g, &words), Err(SetupError::DuplicateLetter('a'))));
}

#[test]
fn letter_map_finds_each_letter() {
    let g = readgrid(&lines(&["ab", " c"]));
    let m = hashgrid(&g).unwrap();
    assert_eq!(m.get('a'), Some(pt(0, 0)));
    assert_eq!(m.get('c'), Some(pt(1, 1)));
    assert_eq!(m.get('z'), None);
    assert_eq!(word_to_path(&m, &chars("abc")), Ok((pt(0, 0), pt(1, 1))));
}

#[test]
fn missing_anchor_is_refused() {
    let g = readgrid(&lines(&["ab", "  "]));
    let m = hashgrid(&g).unwrap();
    assert_eq!(word_to_path(&m, &chars("az")), Err(SetupError::MissingAnchor('z')));
    assert_eq!(word_to_path(&m, &chars("zb")), Err(SetupError::MissingAnchor('z')));
    assert_eq!(word_to_path(&m, &chars("")), Err(SetupError::EmptyWord));
    let words = vec![chars("ab"), chars("qb")];
    assert!(matches!(prepare(&g, &words), Err(SetupError::MissingAnchor('q'))));
}

#[test]
fn prepare_orders_shortest_first() {
    let g = readgrid(&lines(&["a b", "c d"]));
    let words = vec![chars("axyb"), chars("ab"), chars("cd")];
    let wps = prepare(&g, &words).unwrap();
    let order: Vec<String> = wps.iter().map(|w| w.0.iter().collect()).collect();
    assert_eq!(order, vec!["ab".to_string(), "cd".to_string(), "axyb".to_string()]);
    assert_eq!(wps[2].1, (pt(0, 0), pt(2, 0)));
}

#[test]
fn two_letter_words_on_small_grid() {
    let g = readgrid(&lines(&["abc", "d e"]));
    let words = vec![chars("ad"), chars("be")];
    let wps = prepare(&g, &words).unwrap();
    let (grids, placed) = solve(&g, &wps);
    // "ad" is already adjacent; "be" is two steps apart and cannot fit in two letters
    assert_eq!(placed, vec![true, false]);
    assert_eq!(grids.len(), 1);
    assert_eq!(text(&flatten(&grids)), "ABC\nD E");
    assert_eq!(text(&flatten_word(&grids, &chars("ad"))), "ABC\nD E");
}

#[test]
fn word_through_blank_cell() {
    let g = readgrid(&lines(&["a b", "   "]));
    let words = vec![chars("axb")];
    let wps = prepare(&g, &words).unwrap();
    let (grids, placed) = solve(&g, &wps);
    assert_eq!(placed, vec![true]);
    assert_eq!(grids.len(), 1);
    assert_eq!(text(&flatten(&grids)), "AxB\n   ");
}

#[test]
fn two_words_cross() {
    let g = readgrid(&lines(&[" a ", "c d", " b "]));
    let words = vec![chars("axb"), chars("cxd")];
    let wps = prepare(&g, &words).unwrap();
    let (grids, placed) = solve(&g, &wps);
    assert_eq!(placed, vec![true, true]);
    assert_eq!(grids.len(), 1);
    assert!(matches!(grids[0].get_ref(pt(1, 1)), Some(TileData::TwoWords('x', _, _))));
    assert_eq!(text(&flatten(&grids)), " A \nCxD\n B ");
    assert_eq!(text(&flatten_word(&grids, &chars("axb"))), " A \nCxD\n B ");
}

#[test]
fn third_word_cannot_cross_a_full_cell() {
    let g = readgrid(&lines(&["eag", "c d", "hbf"]));
    let words = vec![chars("axb"), chars("cxd"), chars("axd")];
    let wps = prepare(&g, &words).unwrap();
    let (grids, placed) = solve(&g, &wps);
    // "axd" can only pass through the middle cell, which two words already hold
    assert_eq!(placed, vec![true, true, false]);
    assert_eq!(grids.len(), 1);
    assert_eq!(text(&flatten(&grids)), "EAG\nCxD\nHBF");
}

#[test]
fn crossing_letters_must_agree() {
    let g = readgrid(&lines(&[" a ", "c d", " b "]));
    let words = vec![chars("axb"), chars("cyd")];
    let wps = prepare(&g, &words).unwrap();
    let (grids, placed) = solve(&g, &wps);
    assert_eq!(placed, vec![true, false]);
    assert_eq!(text(&flatten(&grids)), " A \nCxD\n B ");
    assert_eq!(text(&flatten_word(&grids, &chars("cyd"))), " A \nC D\n B ");
}

#[test]
fn single_letter_word_is_placed_in_place() {
    let g = readgrid(&lines(&["a "]));
    let words = vec![chars("a")];
    let wps = prepare(&g, &words).unwrap();
    let (grids, placed) = solve(&g, &wps);
    assert_eq!(placed, vec![true]);
    assert_eq!(text(&flatten(&grids)), "A ");
}

#[test]
fn all_paths_are_enumerated_and_merged() {
    let g = readgrid(&lines(&["a  ", "   ", "  b"]));
    let words = vec![chars("axyzb")];
    let wps = prepare(&g, &words).unwrap();
    let (grids, placed) = solve(&g, &wps);
    assert_eq!(placed, vec![true]);
    // every shortest lattice path: six of them
    assert_eq!(grids.len(), 6);
    assert_eq!(text(&flatten(&grids)), "A  \n   \n  B");
    let first = shown(&grids[0]);
    assert_eq!(text(&flatten(&vec![readgrid(&lines(&["a  ", "   ", "  b"]))])), "A  \n   \n  B");
    assert_eq!(first.chars().filter(|c| c.is_lowercase()).count(), 3);
}

#[test]
fn distance_prune_rejects_short_words() {
    let g = readgrid(&lines(&["a  ", "   ", "  b"]));
    let words = vec![chars("axb")];
    let wps = prepare(&g, &words).unwrap();
    let (grids, placed) = solve(&g, &wps);
    assert_eq!(placed, vec![false]);
    assert_eq!(grids.len(), 1);
}

#[test]
fn flatten_single_is_projection() {
    let g = readgrid(&lines(&["ab", " c"]));
    let w = chars("zz");
    let g2 = g.replace(pt(0, 1), TileData::OneWord('z', &w));
    let expect = shown(&g2);
    assert_eq!(text(&flatten(&vec![g2])), expect);
}

#[test]
fn flatten_ignores_order() {
    let g = readgrid(&lines(&["a  ", "   ", "  b"]));
    let words = vec![chars("axyzb")];
    let wps = prepare(&g, &words).unwrap();
    let (mut grids, _) = solve(&g, &wps);
    let w = chars("axyzb");
    // keep two grids that agree on some claimed cells and not on others
    grids.truncate(2);
    let forward = text(&flatten(&grids));
    let forward_word = text(&flatten_word(&grids, &w));
    grids.reverse();
    assert_eq!(text(&flatten(&grids)), forward);
    assert_eq!(text(&flatten_word(&grids, &w)), forward_word);
}

#[test]
fn insert_word_skips_or_replaces() {
    let g = readgrid(&lines(&["a b", "   "]));
    let w1 = chars("axb");
    let w2 = chars("ab");
    let wp1: WordPoints = (&w1, (pt(0, 0), pt(2, 0)));
    let wp2: WordPoints = (&w2, (pt(0, 0), pt(2, 0)));
    let (after, ok) = insert_word(vec![g], wp1);
    assert!(ok);
    assert_eq!(after.len(), 1);
    assert_eq!(shown(&after[0]), "AxB\n   ");
    let (again, ok2) = insert_word(after, wp2);
    assert!(!ok2);
    assert_eq!(again.len(), 1);
    assert_eq!(shown(&again[0]), "AxB\n   ");
}

#[test]
fn per_word_view_masks_other_words() {
    let g = readgrid(&lines(&["a b", "   ", "c d"]));
    let words = vec![chars("axb"), chars("cyd")];
    let wps = prepare(&g, &words).unwrap();
    let (grids, placed) = solve(&g, &wps);
    assert_eq!(placed, vec![true, true]);
    assert_eq!(text(&flatten(&grids)), "AxB\n   \nCyD");
    assert_eq!(text(&flatten_word(&grids, &chars("axb"))), "AxB\n   \nC D");
    assert_eq!(text(&flatten_word(&grids, &chars("cyd"))), "A B\n   \nCyD");
}

#[test]
fn text_of_grid() {
    let g = readgrid(&lines(&["ab", "cd", "ef"]));
    assert_eq!(text(&g.to_strgrid()), "AB\nCD\nEF");
    let empty = readgrid(&lines(&[]));
    assert_eq!(text(&empty.to_strgrid()), "");
}

#[test]
fn allpaths_appends_each_placement() {
    let g = readgrid(&lines(&["a  ", "   ", "  b"]));
    let w = chars("axyzb");
    let mut out = Vec::new();
    allpaths(&g, &w, pt(0, 0), pt(2, 2), 0, &mut out);
    assert_eq!(out.len(), 6);
    allpaths(&g, &w, pt(0, 0), pt(2, 2), 0, &mut out);
    assert_eq!(out.len(), 12);
    // from an off-grid point nothing is found
    allpaths(&g, &w, pt(-1, 0), pt(2, 2), 0, &mut out);
    assert_eq!(out.len(), 12);
    // the start cell must carry the first letter
    let q = chars("qxyzb");
    let mut none = Vec::new();
    allpaths(&g, &q, pt(0, 0), pt(2, 2), 0, &mut none);
    assert!(none.is_empty());
}

#[test]
fn allpaths2_continues_from_neighbours() {
    let g = readgrid(&lines(&["a b", "   "]));
    let w = chars("axb");
    let mut out = Vec::new();
    allpaths2(&g, &w, pt(0, 0), pt(2, 0), 0, &mut out);
    assert_eq!(out.len(), 1);
    assert_eq!(shown(&out[0]), "AxB\n   ");
}

#[test]
fn fixed_letters_along_the_way_are_reused() {
    let g = readgrid(&lines(&["amb"]));
    let words = vec![chars("amb")];
    let wps = prepare(&g, &words).unwrap();
    let (grids, placed) = solve(&g, &wps);
    assert_eq!(placed, vec![true]);
    assert_eq!(text(&flatten(&grids)), "AMB");
}

#[test]
fn masking_and_word_identity() {
    let a = chars("cat");
    let b = chars("cot");
    assert!(same_word(&a, &chars("cat")));
    assert!(!same_word(&a, &b));
    assert!(!same_word(&a, &chars("ca")));
    assert!(matches!(mask_tile(&TileData::OneWord('t', &a), &b), TileData::NoWords));
    assert!(matches!(mask_tile(&TileData::OneWord('t', &a), &a), TileData::OneWord('t', _)));
    assert!(matches!(mask_tile(&TileData::TwoWords('t', &a, &b), &b), TileData::TwoWords('t', _, _)));
    assert!(matches!(mask_tile(&TileData::Fixed('q'), &b), TileData::Fixed('q')));
}
