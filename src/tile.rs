use vstd::prelude::*;

verus! {

/// The state of one grid cell. A word is identified by its text.
#[derive(Clone, Copy)]
pub enum TileData<'a> {
    /// An immutable terrain letter.
    Fixed(char),
    /// An unclaimed cell.
    NoWords,
    /// A cell claimed by one word.
    OneWord(char, &'a [char]),
    /// A cell claimed by two different words; no further claim can succeed.
    TwoWords(char, &'a [char], &'a [char]),
}

/// Outcome of one word asking for a cell with a given letter: the new state
/// of the cell, or `None` when the branch dies.
pub open spec fn claim<'a>(t: TileData<'a>, word: &'a [char], c: char) -> Option<TileData<'a>> {
    match t {
        TileData::Fixed(f) => if f == c { Some(t) } else { None },
        TileData::NoWords => Some(TileData::OneWord(c, word)),
        TileData::OneWord(f, w) => if f == c && w@ != word@ {
            Some(TileData::TwoWords(f, w, word))
        } else {
            None
        },
        TileData::TwoWords(..) => None,
    }
}

/// A cell names two distinct words whenever it names two.
pub open spec fn tile_ok(t: TileData) -> bool {
    match t {
        TileData::TwoWords(_, a, b) => a@ != b@,
        _ => true,
    }
}

pub open spec fn is_lower(c: char) -> bool {
    'a' <= c <= 'z'
}

pub open spec fn is_upper(c: char) -> bool {
    'A' <= c <= 'Z'
}

/// ASCII upper case of `c`; other characters are unchanged.
pub open spec fn upper_of(c: char) -> char {
    if is_lower(c) { ((c as u32) - 32) as char } else { c }
}

/// ASCII lower case of `c`; other characters are unchanged.
pub open spec fn lower_of(c: char) -> char {
    if is_upper(c) { ((c as u32) + 32) as char } else { c }
}

/// The character a cell shows on its own.
pub open spec fn default_char_of(t: TileData) -> char {
    match t {
        TileData::Fixed(c) => upper_of(c),
        TileData::OneWord(c, _) => lower_of(c),
        TileData::TwoWords(c, _, _) => lower_of(c),
        TileData::NoWords => ' ',
    }
}

/// Whether a cell names `word` among its claimants.
pub open spec fn names(t: TileData, word: Seq<char>) -> bool {
    match t {
        TileData::OneWord(_, w) => w@ == word,
        TileData::TwoWords(_, a, b) => a@ == word || b@ == word,
        _ => false,
    }
}

/// A cell seen from one word: fixed letters and that word's claims stay,
/// every other cell reads as unclaimed.
pub open spec fn mask_of<'a>(t: TileData<'a>, word: Seq<char>) -> TileData<'a> {
    match t {
        TileData::Fixed(_) => t,
        _ => if names(t, word) { t } else { TileData::NoWords },
    }
}

pub fn to_upper(c: char) -> (r: char)
    ensures
        r == upper_of(c),
{
    if 'a' <= c && c <= 'z' {
        let b = (c as u32 - 32) as u8;
        b as char
    } else {
        c
    }
}

pub fn to_lower(c: char) -> (r: char)
    ensures
        r == lower_of(c),
{
    if 'A' <= c && c <= 'Z' {
        let b = (c as u32 + 32) as u8;
        b as char
    } else {
        c
    }
}

/// Whether two words have the same text.
pub fn same_word(a: &[char], b: &[char]) -> (r: bool)
    ensures
        r == (a@ == b@),
{
    if a.len() != b.len() {
        return false;
    }
    let mut i: usize = 0;
    while i < a.len()
        invariant
            a@.len() == b@.len(),
            i <= a@.len(),
            forall|j: int| 0 <= j < i ==> a@[j] == b@[j],
        decreases a.len() - i,
    {
        if a[i] != b[i] {
            return false;
        }
        i = i + 1;
    }
    assert(a@ =~= b@);
    true
}

/// Applies the claim rules of a word needing letter `c` to a cell.
pub fn claim_tile<'a>(t: TileData<'a>, word: &'a [char], c: char) -> (r: Option<TileData<'a>>)
    ensures
        r == claim(t, word, c),
{
    match t {
        TileData::Fixed(f) => if f == c {
            Some(t)
        } else {
            None
        },
        TileData::NoWords => Some(TileData::OneWord(c, word)),
        TileData::OneWord(f, w) => if f == c && !same_word(w, word) {
            Some(TileData::TwoWords(f, w, word))
        } else {
            None
        },
        TileData::TwoWords(..) => None,
    }
}

/// The character a cell shows on its own: fixed letters in upper case,
/// claimed letters in lower case, a blank for an unclaimed cell.
pub fn default_char(tile: &TileData) -> (r: char)
    ensures
        r == default_char_of(*tile),
{
    match *tile {
        TileData::Fixed(c) => to_upper(c),
        TileData::OneWord(c, _) => to_lower(c),
        TileData::TwoWords(c, _, _) => to_lower(c),
        TileData::NoWords => ' ',
    }
}

/// A cell as seen from `word` alone.
pub fn mask_tile<'a>(tile: &TileData<'a>, word: &[char]) -> (r: TileData<'a>)
    ensures
        r == mask_of(*tile, word@),
{
    match *tile {
        TileData::Fixed(_) => *tile,
        TileData::OneWord(_, w) => if same_word(w, word) {
            *tile
        } else {
            TileData::NoWords
        },
        TileData::TwoWords(_, a, b) => if same_word(a, word) || same_word(b, word) {
            *tile
        } else {
            TileData::NoWords
        },
        TileData::NoWords => TileData::NoWords,
    }
}

} // verus!
