use vstd::prelude::*;
use crate::input::KeyMap;

verus! {

/// When the pinyin of a passage is shown.
#[derive(PartialEq, Eq, Structural, Debug, Clone, Copy)]
pub enum ToneType {
    /// Above every syllable.
    Always,
    /// Above the syllable being typed.
    Live,
    /// Never.
    Off,
}

broadcast use vstd::array::group_array_axioms;

/// Rows kept free above the passage.
pub const PADDING_TOP: u16 = 2;
/// Base margin at the sides of the passage.
pub const PADDING_ASIDE: u16 = 10;
/// The widest the passage box gets.
pub const MAX_WIDTH: u16 = 120;

/// A box on the terminal, in cells.
#[derive(PartialEq, Eq, Structural, Debug, Clone, Copy)]
pub struct Rect {
    pub width: u16,
    pub height: u16,
    pub left: u16,
    pub top: u16,
}

/// `a - b`, or zero when `b` is larger.
pub open spec fn sat_sub(a: int, b: int) -> int {
    if a >= b { a - b } else { 0 }
}

/// Height of the passage box on a terminal of `rows` rows: half the
/// terminal less the top padding on tall terminals, else all of it less
/// twice the padding.
pub open spec fn passage_height(rows: u16) -> int {
    if rows > 27 {
        rows / 2 - PADDING_TOP
    } else {
        sat_sub(rows as int, 2 * PADDING_TOP)
    }
}

/// Left margin of the passage box on a terminal of `cols` columns: it
/// centres the widest box on wide terminals.
pub open spec fn passage_left(cols: u16) -> int {
    if cols > MAX_WIDTH + 8 {
        (cols - MAX_WIDTH) / 2
    } else if cols > PADDING_ASIDE * 4 {
        cols / MAX_WIDTH * PADDING_ASIDE + 4
    } else {
        4
    }
}

/// Width of the passage box: the widest box on wide terminals, else what
/// the two margins leave.
pub open spec fn passage_width(cols: u16) -> int {
    if cols > MAX_WIDTH + 8 {
        MAX_WIDTH as int
    } else {
        sat_sub(cols as int, 2 * passage_left(cols))
    }
}

/// Where the passage goes on a terminal of `cols` × `rows` cells.
pub fn calc_passage_rect(cols: u16, rows: u16) -> (r: Rect)
    ensures
        r.width == passage_width(cols),
        r.height == passage_height(rows),
        r.left == passage_left(cols),
        r.top == PADDING_TOP,
{
    let max_height = if rows > 27 {
        rows / 2 - PADDING_TOP
    } else {
        rows.saturating_sub(PADDING_TOP * 2)
    };
    let mut max_width = cols;
    let scaled_aside;
    if max_width > MAX_WIDTH + 8 {
        scaled_aside = (max_width - MAX_WIDTH) / 2;
        max_width = MAX_WIDTH;
    } else if max_width > PADDING_ASIDE * 4 {
        scaled_aside = max_width / MAX_WIDTH * PADDING_ASIDE + 4;
        max_width = max_width.saturating_sub(scaled_aside * 2);
    } else {
        scaled_aside = 4;
        max_width = max_width.saturating_sub(scaled_aside * 2);
    }
    Rect { width: max_width, height: max_height, top: PADDING_TOP, left: scaled_aside }
}

/// The layout of the screen: where the passage box is.
pub struct Render {
    pub passage_rect: Rect,
}

impl Render {
    pub fn new(cols: u16, rows: u16) -> (r: Render)
        ensures
            r.passage_rect == calc_passage_rect_spec(cols, rows),
    {
        Render { passage_rect: calc_passage_rect(cols, rows) }
    }

    /// Lays the screen out again for a terminal of `cols` × `rows` cells.
    pub fn update_passage_rect(&mut self, cols: u16, rows: u16)
        ensures
            final(self).passage_rect == calc_passage_rect_spec(cols, rows),
    {
        self.passage_rect = calc_passage_rect(cols, rows);
    }
}

/// The passage box of a terminal of `cols` × `rows` cells.
pub open spec fn calc_passage_rect_spec(cols: u16, rows: u16) -> Rect {
    Rect {
        width: passage_width(cols) as u16,
        height: passage_height(rows) as u16,
        left: passage_left(cols) as u16,
        top: PADDING_TOP,
    }
}

/// Shape of the top edge of a key on the drawn keyboard.
#[derive(PartialEq, Eq, Structural, Debug, Clone, Copy)]
pub enum BorderTop {
    NW,
    N,
    NE,
    CT,
    W,
    E,
}

/// Shape of the bottom edge of a key on the drawn keyboard.
#[derive(PartialEq, Eq, Structural, Debug, Clone, Copy)]
pub enum BorderBottom {
    SW,
    S,
    SE,
    CT,
    W,
    E,
}

/// The top edge of key `x` of row `y`, the row holding `row_len` keys.
pub open spec fn top_border(x: int, y: int, row_len: int) -> BorderTop {
    let right = row_len - 1;
    if y == 0 && x == right {
        BorderTop::NE
    } else if y == 0 && x == 0 {
        BorderTop::NW
    } else if y == 0 {
        BorderTop::N
    } else if x == right {
        BorderTop::E
    } else if x == 0 {
        BorderTop::W
    } else {
        BorderTop::CT
    }
}

/// The bottom edge of key `x` of row `y` of `rows` rows; the row holds
/// `row_len` keys and the row below it `below_len`.
pub open spec fn bottom_border(x: int, y: int, rows: int, row_len: int, below_len: int) -> BorderBottom {
    let right = row_len - 1;
    let bottom = rows - 1;
    if (y == bottom && x == right) || (y != bottom && x > below_len) {
        BorderBottom::SE
    } else if y == bottom && x == 0 {
        BorderBottom::SW
    } else if y == bottom {
        BorderBottom::S
    } else if x == right {
        BorderBottom::E
    } else if x == 0 {
        BorderBottom::W
    } else {
        BorderBottom::CT
    }
}

/// The phonemes, in table order, that key `k` types.
pub open spec fn phonemes_with(e: Seq<(String, Vec<char>)>, k: char) -> Seq<Seq<char>>
    decreases e.len(),
{
    if e.len() == 0 {
        Seq::empty()
    } else if e.last().1@.contains(k) {
        phonemes_with(e.drop_last(), k).push(e.last().0@)
    } else {
        phonemes_with(e.drop_last(), k)
    }
}

/// The texts of some strings.
pub open spec fn texts(v: Seq<String>) -> Seq<Seq<char>> {
    v.map_values(|s: String| s@)
}

/// One key of the drawn keyboard.
#[derive(Debug)]
pub struct Key {
    pub top: BorderTop,
    pub bottom: BorderBottom,
    pub name: char,
    /// The phonemes it types.
    pub phonemes: Vec<String>,
    /// Column and row.
    pub position: (usize, usize),
}

impl Key {
    pub fn new(top: BorderTop, bottom: BorderBottom, name: char, phonemes: Vec<String>, position: (usize, usize)) -> (r: Key)
        ensures
            r == (Key { top, bottom, name, phonemes, position }),
    {
        Key { top, bottom, name, phonemes, position }
    }
}

/// Index of the first key of row `y`.
pub open spec fn row_start(layout: Seq<Vec<char>>, y: int) -> int
    decreases y,
{
    if y <= 0 {
        0
    } else {
        row_start(layout, y - 1) + layout[y - 1]@.len()
    }
}

proof fn lemma_row_start_mono(layout: Seq<Vec<char>>, a: int, b: int)
    requires
        0 <= a < b,
    ensures
        row_start(layout, a) + layout[a]@.len() <= row_start(layout, b),
    decreases b - a,
{
    if a + 1 < b {
        lemma_row_start_mono(layout, a + 1, b);
    }
}

proof fn lemma_row_start_nonneg(layout: Seq<Vec<char>>, y: int)
    ensures
        row_start(layout, y) >= 0,
    decreases y,
{
    if y > 0 {
        lemma_row_start_nonneg(layout, y - 1);
    }
}

/// The key at row `y`, column `x` of a keyboard of layout `layout` is drawn
/// as `key` for key map `km`.
pub open spec fn key_drawn(key: Key, km: KeyMap, layout: Seq<Vec<char>>, y: int, x: int) -> bool {
    let row = layout[y]@;
    let below = if y + 1 < layout.len() { layout[y + 1]@.len() as int } else { 0 };
    &&& key.name == row[x]
    &&& key.position == (x as usize, y as usize)
    &&& key.top == top_border(x, y, row.len() as int)
    &&& key.bottom == bottom_border(x, y, layout.len() as int, row.len() as int, below)
    &&& texts(key.phonemes@) == phonemes_with(km.map@, row[x])
}

/// The keys of a keyboard, with the phonemes each types.
pub struct Keyboard {
    /// The keys, row by row.
    pub key_map: Vec<Key>,
    pub layout: [Vec<char>; 3],
}

/// The phonemes of `km` that key `k` types.
fn phonemes_of(km: &KeyMap, k: char) -> (r: Vec<String>)
    ensures
        texts(r@) == phonemes_with(km.map@, k),
{
    let mut r: Vec<String> = Vec::new();
    let mut i: usize = 0;
    while i < km.map.len()
        invariant
            i <= km.map@.len(),
            texts(r@) == phonemes_with(km.map@.take(i as int), k),
        decreases km.map@.len() - i,
    {
        proof {
            assert(km.map@.take(i + 1).drop_last() =~= km.map@.take(i as int));
        }
        if crate::input::has_key(km.map[i].1.as_slice(), k) {
            let ph = km.map[i].0.clone();
            proof {
                assert(texts(r@.push(ph)) =~= texts(r@).push(ph@));
            }
            r.push(ph);
        }
        i = i + 1;
    }
    proof {
        assert(km.map@.take(km.map@.len() as int) =~= km.map@);
    }
    r
}

impl Keyboard {
    /// A keyboard of `layout` for key map `key_map`.
    pub fn new(key_map: &KeyMap, layout: [Vec<char>; 3]) -> (r: Keyboard)
        ensures
            r.layout@ == layout@,
            r.key_map@.len() == row_start(layout@, 3),
            forall|y: int, x: int|
                0 <= y < 3 && 0 <= x < layout@[y]@.len() ==> key_drawn(
                    #[trigger] r.key_map@[row_start(layout@, y) + x],
                    *key_map,
                    layout@,
                    y,
                    x,
                ),
    {
        let keys = Keyboard::reverse_mapping(key_map, &layout);
        Keyboard { key_map: keys, layout }
    }

    /// A keyboard of the usual three letter rows for key map `key_map`.
    pub fn default(key_map: &KeyMap) -> (r: Keyboard)
        ensures
            r.layout@[0]@ == seq!['q', 'w', 'e', 'r', 't', 'y', 'u', 'i', 'o', 'p'],
            r.layout@[1]@ == seq!['a', 's', 'd', 'f', 'g', 'h', 'j', 'k', 'l', ';'],
            r.layout@[2]@ == seq!['z', 'x', 'c', 'v', 'b', 'n', 'm'],
            r.key_map@.len() == row_start(r.layout@, 3),
            forall|y: int, x: int|
                0 <= y < 3 && 0 <= x < r.layout@[y]@.len() ==> key_drawn(
                    #[trigger] r.key_map@[row_start(r.layout@, y) + x],
                    *key_map,
                    r.layout@,
                    y,
                    x,
                ),
    {
        let layout = [
            vec!['q', 'w', 'e', 'r', 't', 'y', 'u', 'i', 'o', 'p'],
            vec!['a', 's', 'd', 'f', 'g', 'h', 'j', 'k', 'l', ';'],
            vec!['z', 'x', 'c', 'v', 'b', 'n', 'm'],
        ];
        Keyboard::new(key_map, layout)
    }

    /// The keys of `layout`, row by row, each with its edges and the phonemes
    /// of `key_map` that it types.
    fn reverse_mapping(key_map: &KeyMap, layout: &[Vec<char>; 3]) -> (r: Vec<Key>)
        ensures
            r@.len() == row_start(layout@, 3),
            forall|y: int, x: int|
                0 <= y < 3 && 0 <= x < layout@[y]@.len() ==> key_drawn(
                    #[trigger] r@[row_start(layout@, y) + x],
                    *key_map,
                    layout@,
                    y,
                    x,
                ),
    {
        proof {
            assert(layout@.len() == 3);
        }
        let mut result: Vec<Key> = Vec::new();
        let bottom: usize = 2;
        let mut y: usize = 0;
        while y < 3
            invariant
                y <= 3,
                bottom == 2,
                layout@.len() == 3,
                result@.len() == row_start(layout@, y as int),
                forall|yy: int, x: int|
                    0 <= yy < y && 0 <= x < layout@[yy]@.len() ==> key_drawn(
                        #[trigger] result@[row_start(layout@, yy) + x],
                        *key_map,
                        layout@,
                        yy,
                        x,
                    ),
            decreases 3 - y,
        {
            let row = &layout[y];
            let below: usize = if y < bottom {
                layout[y + 1].len()
            } else {
                0
            };
            let mut x: usize = 0;
            while x < row.len()
                invariant
                    y < 3,
                    bottom == 2,
                    layout@.len() == 3,
                    *row == layout@[y as int],
                    below == if y + 1 < 3 { layout@[y + 1]@.len() as int } else { 0 },
                    x <= row@.len(),
                    result@.len() == row_start(layout@, y as int) + x,
                    forall|yy: int, xx: int|
                        ((0 <= yy < y && 0 <= xx < layout@[yy]@.len()) || (yy == y && 0 <= xx < x))
                            ==> key_drawn(
                            #[trigger] result@[row_start(layout@, yy) + xx],
                            *key_map,
                            layout@,
                            yy,
                            xx,
                        ),
                decreases row@.len() - x,
            {
                let right = row.len() - 1;
                let top = if y == 0 && x == right {
                    BorderTop::NE
                } else if y == 0 && x == 0 {
                    BorderTop::NW
                } else if y == 0 {
                    BorderTop::N
                } else if x == right {
                    BorderTop::E
                } else if x == 0 {
                    BorderTop::W
                } else {
                    BorderTop::CT
                };
                let edge = if (y == bottom && x == right) || (y != bottom && x > below) {
                    BorderBottom::SE
                } else if y == bottom && x == 0 {
                    BorderBottom::SW
                } else if y == bottom {
                    BorderBottom::S
                } else if x == right {
                    BorderBottom::E
                } else if x == 0 {
                    BorderBottom::W
                } else {
                    BorderBottom::CT
                };
                let key = row[x];
                let phonemes = phonemes_of(key_map, key);
                let ghost before = result@;
                result.push(Key::new(top, edge, key, phonemes, (x, y)));
                proof {
                    assert forall|yy: int, xx: int|
                        ((0 <= yy < y && 0 <= xx < layout@[yy]@.len()) || (yy == y && 0 <= xx < x + 1))
                            implies key_drawn(
                            #[trigger] result@[row_start(layout@, yy) + xx],
                            *key_map,
                            layout@,
                            yy,
                            xx,
                        ) by {
                        lemma_row_start_nonneg(layout@, yy);
                        if yy < y {
                            lemma_row_start_mono(layout@, yy, y as int);
                            assert(result@[row_start(layout@, yy) + xx] == before[row_start(layout@, yy) + xx]);
                        } else if xx < x {
                            assert(result@[row_start(layout@, yy) + xx] == before[row_start(layout@, yy) + xx]);
                        }
                    }
                }
                x = x + 1;
            }
            y = y + 1;
        }
        result
    }
}

} // verus!
