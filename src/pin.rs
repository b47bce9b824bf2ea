use vstd::prelude::*;
use vstd::string::StrSliceExecFns;
use vstd::slice::slice_subrange;
use crate::text::to_chars;
use pinyin::ToPinyin;
use rand::Rng;
use unicode_width::UnicodeWidthChar;

verus! {

/// The characters that open the final part of a syllable.
pub open spec fn is_vowel(c: char) -> bool {
    c == 'a' || c == 'e' || c == 'i' || c == 'o' || c == 'u' || c == 'v' || c == 'ü'
}

/// Position of the first vowel of `s`, or `s.len()` when it has none.
pub open spec fn first_vowel(s: Seq<char>) -> nat
    decreases s.len(),
{
    if s.len() == 0 {
        0
    } else if is_vowel(s[0]) {
        0
    } else {
        1 + first_vowel(s.drop_first())
    }
}

/// The initial of a plain spelling: everything before its first vowel.
pub open spec fn initial_of(s: Seq<char>) -> Seq<char> {
    s.take(first_vowel(s) as int)
}

/// The final of a plain spelling: its first vowel and everything after it.
pub open spec fn final_of(s: Seq<char>) -> Seq<char> {
    s.skip(first_vowel(s) as int)
}

proof fn lemma_first_vowel(s: Seq<char>)
    ensures
        first_vowel(s) <= s.len(),
        forall|j: int| 0 <= j < first_vowel(s) ==> !is_vowel(#[trigger] s[j]),
        first_vowel(s) < s.len() ==> is_vowel(s[first_vowel(s) as int]),
    decreases s.len(),
{
    if s.len() > 0 && !is_vowel(s[0]) {
        lemma_first_vowel(s.drop_first());
        assert forall|j: int| 0 <= j < first_vowel(s) implies !is_vowel(#[trigger] s[j]) by {
            if j > 0 {
                assert(s[j] == s.drop_first()[j - 1]);
            }
        }
    }
}

proof fn lemma_first_vowel_at(s: Seq<char>, k: int)
    requires
        0 <= k <= s.len(),
        forall|j: int| 0 <= j < k ==> !is_vowel(#[trigger] s[j]),
        k < s.len() ==> is_vowel(s[k]),
    ensures
        first_vowel(s) == k,
    decreases s.len(),
{
    if k > 0 {
        assert(!is_vowel(s[0]));
        assert forall|j: int| 0 <= j < k - 1 implies !is_vowel(#[trigger] s.drop_first()[j]) by {
            assert(s.drop_first()[j] == s[j + 1]);
        }
        lemma_first_vowel_at(s.drop_first(), k - 1);
    }
}

/// Segmentation loses nothing: the initial followed by the final is the
/// spelling it was cut from.
pub proof fn lemma_split_concat(plain: Seq<char>)
    ensures
        initial_of(plain) + final_of(plain) == plain,
{
    lemma_first_vowel(plain);
    assert(initial_of(plain) + final_of(plain) =~= plain);
}

fn vowel(c: char) -> (r: bool)
    ensures
        r == is_vowel(c),
{
    c == 'a' || c == 'e' || c == 'i' || c == 'o' || c == 'u' || c == 'v' || c == 'ü'
}

/// Cuts a plain spelling before its first vowel, giving (initial, final).
pub fn split(pinyin: &str) -> (r: (String, String))
    ensures
        r.0@ == initial_of(pinyin@),
        r.1@ == final_of(pinyin@),
{
    let n = pinyin.unicode_len();
    let mut k: usize = 0;
    while k < n && !vowel(pinyin.get_char(k))
        invariant
            n == pinyin@.len(),
            k <= n,
            forall|j: int| 0 <= j < k ==> !is_vowel(#[trigger] pinyin@[j]),
        decreases n - k,
    {
        k = k + 1;
    }
    proof {
        lemma_first_vowel_at(pinyin@, k as int);
    }
    let consonant = pinyin.substring_char(0, k).to_owned();
    let vowel = pinyin.substring_char(k, n).to_owned();
    (consonant, vowel)
}


/// Whether the pinyin tables hold a reading of a character.
pub uninterp spec fn has_reading(c: char) -> bool;

/// The reading of a character, spelled without tone marks.
pub uninterp spec fn plain_reading(c: char) -> Seq<char>;

/// The reading of a character, spelled with tone marks.
pub uninterp spec fn toned_reading(c: char) -> Seq<char>;

/// Display columns of a character in a CJK context (`None` for control characters).
pub uninterp spec fn cjk_width_of(c: char) -> Option<usize>;

/// Relies on pinyin's `ToPinyin for char` (`None` where the tables have no
/// reading), `Pinyin::plain` and `Pinyin::with_tone`: each depends on the
/// character alone.
#[verifier::external_body]
fn reading(c: char) -> (r: Option<(String, String)>)
    ensures
        r.is_some() == has_reading(c),
        r matches Some(p) ==> p.0@ == plain_reading(c) && p.1@ == toned_reading(c),
{
    match c.to_pinyin() {
        Some(p) => Some((p.plain().to_string(), p.with_tone().to_string())),
        None => None,
    }
}

/// Relies on unicode_width's `UnicodeWidthChar::width_cjk`.
#[verifier::external_body]
fn cjk_width(c: char) -> (r: Option<usize>)
    ensures
        r == cjk_width_of(c),
{
    c.width_cjk()
}

/// Relies on rand's `thread_rng().gen_range(0..n)`: a value of the range,
/// which must not be empty.
#[verifier::external_body]
fn random_below(n: usize) -> (r: usize)
    requires
        n > 0,
    ensures
        r < n,
{
    rand::thread_rng().gen_range(0..n)
}

/// The phonetic annotation of one syllable.
#[derive(Debug)]
pub struct Pin {
    /// Display spelling, with tone marks.
    pub pinyin_with_tone: String,
    /// Spelling without tone marks.
    pub pinyin: String,
    /// The initial part of `pinyin` (possibly empty).
    pub consonant: String,
    /// The final part of `pinyin`.
    pub vowel: String,
}

impl Pin {
    /// The two parts are the segmentation of the plain spelling.
    pub open spec fn wf(&self) -> bool {
        &&& self.consonant@ == initial_of(self.pinyin@)
        &&& self.vowel@ == final_of(self.pinyin@)
    }

    pub fn new(with_tone: &str, plain: &str) -> (r: Pin)
        ensures
            r.pinyin_with_tone@ == with_tone@,
            r.pinyin@ == plain@,
            r.wf(),
    {
        let (consonant, vowel) = split(plain);
        Pin { pinyin_with_tone: with_tone.to_owned(), pinyin: plain.to_owned(), consonant, vowel }
    }
}

/// Progress of one unit of a passage.
#[derive(Debug, Clone, Copy, PartialEq, Eq, Structural)]
pub enum CharStatus {
    Passed,
    /// Active, its initial is awaited.
    Typing,
    /// Active, initial accepted, its final is awaited.
    TypingHalf,
    /// Active, a wrong key was pressed for the initial.
    ErrorConsonant,
    /// Active, a wrong key was pressed for the final.
    ErrorVowel,
    Future,
}

/// One position of a passage: a glyph and, unless it is a mark, its pinyin.
#[derive(Debug)]
pub struct Character {
    pub char: char,
    pub pinyin: Option<Pin>,
    pub is_mark: bool,
    pub status: CharStatus,
}

impl Character {
    pub open spec fn wf(&self) -> bool {
        &&& self.is_mark == self.pinyin.is_none()
        &&& self.pinyin matches Some(p) ==> p.wf()
    }

    pub fn new(char: char, pinyin: Option<Pin>) -> (r: Character)
        ensures
            r.char == char,
            r.pinyin == pinyin,
            r.is_mark == pinyin.is_none(),
            r.status == CharStatus::Future,
    {
        Character { is_mark: pinyin.is_none(), char, pinyin, status: CharStatus::Future }
    }

    pub fn set_status(&mut self, status: CharStatus)
        ensures
            final(self).status == status,
            final(self).char == old(self).char,
            final(self).pinyin == old(self).pinyin,
            final(self).is_mark == old(self).is_mark,
    {
        self.status = status;
    }
}

/// `p` is what the pinyin tables give for `c`.
pub open spec fn is_reading_of(p: Option<Pin>, c: char) -> bool {
    &&& p.is_some() == has_reading(c)
    &&& p matches Some(q) ==> {
        &&& q.pinyin@ == plain_reading(c)
        &&& q.pinyin_with_tone@ == toned_reading(c)
        &&& q.wf()
    }
}

/// Display columns of a glyph; one where the width tables give none.
pub open spec fn glyph_width(c: char) -> int {
    match cjk_width_of(c) {
        Some(w) => w as int,
        None => 1,
    }
}

/// Columns a unit takes; with annotations shown, a syllable also needs room
/// for its spelling and one space.
pub open spec fn unit_width(c: Character, annotated: bool) -> int {
    if annotated && c.pinyin is Some {
        let p = c.pinyin->0.pinyin@.len() as int + 1;
        if glyph_width(c.char) >= p { glyph_width(c.char) } else { p }
    } else {
        glyph_width(c.char)
    }
}

/// Total columns of a run of units.
pub open spec fn line_width(s: Seq<Character>, annotated: bool) -> int
    decreases s.len(),
{
    if s.len() == 0 {
        0
    } else {
        line_width(s.drop_last(), annotated) + unit_width(s.last(), annotated)
    }
}

/// `lines` is the greedy layout of `chars` in lines of at most `max`
/// columns: joined they give `chars` back, none is empty (but the only line
/// of an empty passage), each fits unless it is a single unit, and none
/// could take the first unit of the next.
pub open spec fn wraps(chars: Seq<Character>, max: int, annotated: bool, lines: Seq<Seq<Character>>) -> bool {
    &&& lines.len() >= 1
    &&& joined(lines) == chars
    &&& forall|i: int| 0 <= i < lines.len() - 1 ==> (#[trigger] lines[i]).len() > 0
    &&& chars.len() > 0 ==> lines.last().len() > 0
    &&& forall|i: int| 0 <= i < lines.len() ==> line_width(#[trigger] lines[i], annotated) <= max || lines[i].len() == 1
    &&& forall|i: int|
        0 <= i < lines.len() - 1 ==> line_width(#[trigger] lines[i], annotated) + unit_width(lines[i + 1][0], annotated) > max
}

/// The lines, joined in order.
pub open spec fn joined(lines: Seq<Seq<Character>>) -> Seq<Character>
    decreases lines.len(),
{
    if lines.len() == 0 {
        Seq::empty()
    } else {
        joined(lines.drop_last()) + lines.last()
    }
}
/// The spelling's length plus one fits in a machine word.
pub open spec fn spelling_fits(c: Character) -> bool {
    c.pinyin matches Some(p) ==> p.pinyin@.len() < usize::MAX
}

/// Columns that `c` takes (see `unit_width`).
fn unit_cols(c: &Character, annotated: bool) -> (r: usize)
    requires
        spelling_fits(*c),
    ensures
        r == unit_width(*c, annotated),
{
    let g = match cjk_width(c.char) {
        Some(w) => w,
        None => 1,
    };
    if annotated {
        match &c.pinyin {
            Some(p) => {
                let l = p.pinyin.as_str().unicode_len();
                if g >= l + 1 {
                    g
                } else {
                    l + 1
                }
            },
            None => g,
        }
    } else {
        g
    }
}

/// Total of a run of widths.
pub open spec fn width_sum(ws: Seq<usize>) -> int
    decreases ws.len(),
{
    if ws.len() == 0 {
        0
    } else {
        width_sum(ws.drop_last()) + ws.last()
    }
}

proof fn lemma_width_sum_extend(ws: Seq<usize>, lo: int, hi: int)
    requires
        0 <= lo <= hi < ws.len(),
    ensures
        width_sum(ws.subrange(lo, hi + 1)) == width_sum(ws.subrange(lo, hi)) + ws[hi],
{
    assert(ws.subrange(lo, hi + 1).drop_last() =~= ws.subrange(lo, hi));
}

proof fn lemma_widths_match(chars: Seq<Character>, ws: Seq<usize>, lo: int, hi: int, annotated: bool)
    requires
        0 <= lo <= hi <= chars.len(),
        ws.len() == chars.len(),
        forall|j: int| 0 <= j < ws.len() ==> #[trigger] ws[j] == unit_width(chars[j], annotated),
    ensures
        line_width(chars.subrange(lo, hi), annotated) == width_sum(ws.subrange(lo, hi)),
    decreases hi - lo,
{
    if hi > lo {
        lemma_widths_match(chars, ws, lo, hi - 1, annotated);
        assert(chars.subrange(lo, hi).drop_last() =~= chars.subrange(lo, hi - 1));
        assert(ws.subrange(lo, hi).drop_last() =~= ws.subrange(lo, hi - 1));
    } else {
        assert(chars.subrange(lo, hi) =~= Seq::<Character>::empty());
        assert(ws.subrange(lo, hi) =~= Seq::<usize>::empty());
    }
}

proof fn lemma_wrap(
    chars: Seq<Character>,
    ws: Seq<usize>,
    ranges: Seq<(usize, usize)>,
    lines: Seq<Seq<Character>>,
    max: int,
    annotated: bool,
)
    requires
        ws.len() == chars.len(),
        forall|j: int| 0 <= j < ws.len() ==> #[trigger] ws[j] == unit_width(chars[j], annotated),
        breaks_lines(ws, max, ranges),
        lines.len() == ranges.len(),
        joined(lines) == chars,
        forall|j: int| 0 <= j < lines.len() ==> #[trigger] lines[j] == chars.subrange(ranges[j].0 as int, ranges[j].1 as int),
    ensures
        wraps(chars, max, annotated, lines),
{
    assert forall|j: int| 0 <= j < lines.len() implies line_width(#[trigger] lines[j], annotated)
        == width_sum(ws.subrange(ranges[j].0 as int, ranges[j].1 as int)) && ranges[j].1 <= chars.len() by {
        lemma_ranges_bounded(ranges, j, chars.len() as int);
        lemma_widths_match(chars, ws, ranges[j].0 as int, ranges[j].1 as int, annotated);
    }
    assert forall|j: int| 0 <= j < lines.len() - 1 implies lines[j + 1][0] == chars[ranges[j].1 as int] by {
        assert(ranges[j + 1].0 == ranges[j].1);
        assert(ranges[j + 1].1 <= chars.len()) by {
            lemma_ranges_bounded(ranges, j + 1, chars.len() as int);
        }
    }
}

/// `r` lays out units of widths `ws` in lines of at most `max` columns,
/// greedily: each line is the bounds (start, end) of a run of units; the
/// lines follow one another from the first unit to the last, none is empty
/// (but the only line of no units), each fits unless it is one unit, and
/// none could take the first unit of the next.
pub open spec fn breaks_lines(ws: Seq<usize>, max: int, r: Seq<(usize, usize)>) -> bool {
    &&& r.len() >= 1
    &&& r[0].0 == 0
    &&& r.last().1 == ws.len()
    &&& forall|i: int| 0 <= i < r.len() - 1 ==> (#[trigger] r[i]).1 == r[i + 1].0
    &&& forall|i: int| 0 <= i < r.len() ==> (#[trigger] r[i]).0 <= r[i].1
    &&& forall|i: int| 0 <= i < r.len() - 1 ==> (#[trigger] r[i]).0 < r[i].1
    &&& ws.len() > 0 ==> r.last().0 < r.last().1
    &&& forall|i: int|
        0 <= i < r.len() ==> width_sum(ws.subrange((#[trigger] r[i]).0 as int, r[i].1 as int)) <= max
            || r[i].1 == r[i].0 + 1
    &&& forall|i: int|
        0 <= i < r.len() - 1 ==> width_sum(ws.subrange((#[trigger] r[i]).0 as int, r[i].1 as int))
            + ws[r[i].1 as int] > max
}

/// The runs of `all` that `ranges` bounds, in order; the ranges follow one
/// another from the start of `all` to its end.
fn slices_of<'a>(all: &'a [Character], ranges: &Vec<(usize, usize)>) -> (r: Vec<&'a [Character]>)
    requires
        ranges@.len() >= 1,
        ranges@[0].0 == 0,
        ranges@.last().1 == all@.len(),
        forall|i: int| 0 <= i < ranges@.len() - 1 ==> (#[trigger] ranges@[i]).1 == ranges@[i + 1].0,
        forall|i: int| 0 <= i < ranges@.len() ==> (#[trigger] ranges@[i]).0 <= ranges@[i].1,
    ensures
        r@.len() == ranges@.len(),
        joined(line_views(r@)) == all@,
        forall|j: int|
            0 <= j < r@.len() ==> (#[trigger] r@[j])@ == all@.subrange(ranges@[j].0 as int, ranges@[j].1 as int),
{
    let ghost chars = all@;
    let mut result: Vec<&[Character]> = Vec::new();
    let mut k: usize = 0;
    while k < ranges.len()
        invariant
            chars == all@,
            ranges@.len() >= 1,
            ranges@[0].0 == 0,
            ranges@.last().1 == chars.len(),
            forall|i: int| 0 <= i < ranges@.len() - 1 ==> (#[trigger] ranges@[i]).1 == ranges@[i + 1].0,
            forall|i: int| 0 <= i < ranges@.len() ==> (#[trigger] ranges@[i]).0 <= ranges@[i].1,
            k <= ranges@.len(),
            result@.len() == k,
            k < ranges@.len() ==> joined(line_views(result@)) == chars.take(ranges@[k as int].0 as int),
            k == ranges@.len() ==> joined(line_views(result@)) == chars,
            forall|j: int|
                0 <= j < k ==> (#[trigger] result@[j])@ == chars.subrange(ranges@[j].0 as int, ranges@[j].1 as int),
        decreases ranges@.len() - k,
    {
        let (lo, hi) = ranges[k];
        proof {
            lemma_ranges_bounded(ranges@, k as int, chars.len() as int);
        }
        let line = slice_subrange(all, lo, hi);
        proof {
            lemma_joined_push(line_views(result@), line@);
            assert(line_views(result@.push(line)) =~= line_views(result@).push(line@));
            assert(chars.take(lo as int) + line@ =~= chars.take(hi as int));
            assert(chars.take(chars.len() as int) =~= chars);
            if k == 0 {
                assert(chars.take(0) =~= Seq::<Character>::empty());
                assert(line_views(result@) =~= Seq::<Seq<Character>>::empty());
            }
        }
        result.push(line);
        k = k + 1;
    }
    result
}

proof fn lemma_ranges_bounded(r: Seq<(usize, usize)>, k: int, n: int)
    requires
        0 <= k < r.len(),
        r.last().1 == n,
        forall|i: int| 0 <= i < r.len() - 1 ==> (#[trigger] r[i]).1 == r[i + 1].0,
        forall|i: int| 0 <= i < r.len() ==> (#[trigger] r[i]).0 <= r[i].1,
    ensures
        r[k].1 <= n,
    decreases r.len() - k,
{
    if k < r.len() - 1 {
        lemma_ranges_bounded(r, k + 1, n);
    }
}

/// Breaks units of widths `ws` into lines of at most `max_width` columns
/// (see `breaks_lines`).
pub fn break_lines(ws: &[usize], max_width: u16) -> (r: Vec<(usize, usize)>)
    ensures
        breaks_lines(ws@, max_width as int, r@),
{
    let max: usize = max_width as usize;
    let n = ws.len();
    let mut result: Vec<(usize, usize)> = Vec::new();
    let mut width: usize = 0;
    let mut slow: usize = 0;
    let mut fast: usize = 0;
    while fast < n
        invariant
            n == ws@.len(),
            max == max_width as usize,
            slow <= fast <= n,
            fast > 0 ==> slow < fast,
            width == width_sum(ws@.subrange(slow as int, fast as int)),
            slow + 1 < fast ==> width <= max,
            result@.len() == 0 ==> slow == 0,
            result@.len() > 0 ==> result@[0].0 == 0 && result@.last().1 == slow,
            forall|i: int| 0 <= i < result@.len() - 1 ==> (#[trigger] result@[i]).1 == result@[i + 1].0,
            forall|i: int| 0 <= i < result@.len() ==> (#[trigger] result@[i]).0 < result@[i].1,
            forall|i: int|
                0 <= i < result@.len() ==> width_sum(ws@.subrange((#[trigger] result@[i]).0 as int, result@[i].1 as int))
                    <= max_width || result@[i].1 == result@[i].0 + 1,
            forall|i: int|
                0 <= i < result@.len() - 1 ==> width_sum(ws@.subrange((#[trigger] result@[i]).0 as int, result@[i].1 as int))
                    + ws@[result@[i].1 as int] > max_width,
            result@.len() > 0 ==> slow < n && width_sum(ws@.subrange(result@.last().0 as int, result@.last().1 as int))
                + ws@[slow as int] > max_width,
        decreases n - fast,
    {
        let cw = ws[fast];
        proof {
            lemma_width_sum_extend(ws@, slow as int, fast as int);
        }
        if fast > slow && (width > max || cw > max - width) {
            proof {
                lemma_width_sum_extend(ws@, fast as int, fast as int);
                assert(ws@.subrange(fast as int, fast as int) =~= Seq::<usize>::empty());
            }
            result.push((slow, fast));
            slow = fast;
            width = cw;
        } else {
            width = width + cw;
        }
        fast = fast + 1;
    }
    result.push((slow, n));
    result
}

proof fn lemma_joined_push(lines: Seq<Seq<Character>>, line: Seq<Character>)
    ensures
        joined(lines.push(line)) == joined(lines) + line,
{
    assert(lines.push(line).drop_last() =~= lines);
}

/// The contents of each line of a layout.
pub open spec fn line_views(lines: Seq<&[Character]>) -> Seq<Seq<Character>> {
    lines.map_values(|l: &[Character]| l@)
}

/// `p` is the passage of text `s`: a leading blank mark, then one unit per
/// character with its reading, all `Future`.
pub open spec fn built_from(p: Passage, s: Seq<char>) -> bool {
    &&& p.wf()
    &&& p.chars@.len() == s.len() + 1
    &&& p.chars@[0].char == ' '
    &&& forall|i: int| 0 <= i < p.chars@.len() ==> (#[trigger] p.chars@[i]).status == CharStatus::Future
    &&& forall|i: int|
        0 <= i < s.len() ==> {
            &&& (#[trigger] p.chars@[i + 1]).char == s[i]
            &&& is_reading_of(p.chars@[i + 1].pinyin, s[i])
        }
}

/// Position of the first blank-line break (two line feeds) in `s`, or
/// `s.len()` when there is none.
pub open spec fn first_break(s: Seq<char>) -> nat
    decreases s.len(),
{
    if s.len() < 2 {
        s.len()
    } else if s[0] == '\n' && s[1] == '\n' {
        0
    } else {
        1 + first_break(s.drop_first())
    }
}

/// The passages of a text: the pieces between its blank-line breaks, each
/// break taken from the left.
pub open spec fn paragraphs(s: Seq<char>) -> Seq<Seq<char>>
    decreases s.len(),
{
    let i = first_break(s);
    if i + 2 <= s.len() {
        seq![s.take(i as int)] + paragraphs(s.skip(i as int + 2))
    } else {
        seq![s]
    }
}

proof fn lemma_first_break_at(s: Seq<char>, k: int)
    requires
        0 <= k <= s.len(),
        forall|j: int| 0 <= j < k && j + 1 < s.len() ==> !(#[trigger] s[j] == '\n' && s[j + 1] == '\n'),
        k < s.len() ==> k + 1 < s.len() && s[k] == '\n' && s[k + 1] == '\n',
    ensures
        first_break(s) == k,
    decreases s.len(),
{
    if s.len() >= 2 && k > 0 {
        assert(!(s[0] == '\n' && s[1] == '\n'));
        let t = s.drop_first();
        assert forall|j: int| 0 <= j < k - 1 && j + 1 < t.len() implies !(#[trigger] t[j] == '\n' && t[j + 1] == '\n') by {
            assert(t[j] == s[j + 1]);
            assert(t[j + 1] == s[j + 2]);
        }
        if k - 1 < t.len() {
            assert(t[k - 1] == s[k]);
            assert(t[k] == s[k + 1]);
        }
        lemma_first_break_at(t, k - 1);
    }
}

/// Position of the first blank-line break in `v[from..]`, or `v.len()`.
fn find_break(v: &Vec<char>, from: usize) -> (r: usize)
    requires
        from <= v@.len(),
    ensures
        r == from + first_break(v@.skip(from as int)),
        from <= r <= v@.len(),
        r < v@.len() ==> r + 1 < v@.len(),
{
    let n = v.len();
    let mut i = from;
    while n - i > 1 && !(v[i] == '\n' && v[i + 1] == '\n')
        invariant
            n == v@.len(),
            from <= i <= n,
            forall|j: int| from <= j < i && j + 1 < n ==> !(#[trigger] v@[j] == '\n' && v@[j + 1] == '\n'),
        decreases n - i,
    {
        i = i + 1;
    }
    let r = if n - i > 1 {
        i
    } else {
        n
    };
    proof {
        let t = v@.skip(from as int);
        assert forall|j: int| 0 <= j < r - from && j + 1 < t.len() implies !(#[trigger] t[j] == '\n' && t[j + 1] == '\n') by {
            assert(t[j] == v@[from + j]);
            assert(t[j + 1] == v@[from + j + 1]);
        }
        if r < n {
            assert(t[r - from] == v@[r as int]);
            assert(t[r - from + 1] == v@[r + 1]);
        }
        lemma_first_break_at(t, r - from);
    }
    r
}

/// A text broken into annotated units; the first is a leading mark.
#[derive(Debug)]
pub struct Passage {
    pub chars: Vec<Character>,
}

impl Passage {
    pub open spec fn wf(&self) -> bool {
        &&& self.chars@.len() >= 1
        &&& self.chars@[0].is_mark
        &&& forall|i: int| 0 <= i < self.chars@.len() ==> (#[trigger] self.chars@[i]).wf()
    }

    /// Breaks the passage greedily into lines of at most `max_width` columns:
    /// a line takes units while they fit, and a unit wider than `max_width`
    /// stands alone on its line. With `consider_pinyin` a syllable is as wide
    /// as its spelling plus one.
    pub fn wrap(&self, max_width: u16, consider_pinyin: bool) -> (r: Vec<&[Character]>)
        requires
            forall|i: int| 0 <= i < self.chars@.len() ==> spelling_fits(#[trigger] self.chars@[i]),
        ensures
            wraps(self.chars@, max_width as int, consider_pinyin, line_views(r@)),
    {
        let ghost chars = self.chars@;
        let n = self.chars.len();
        let mut ws: Vec<usize> = Vec::new();
        let mut i: usize = 0;
        while i < n
            invariant
                chars == self.chars@,
                n == chars.len(),
                i <= n,
                ws@.len() == i,
                forall|j: int| 0 <= j < n ==> spelling_fits(#[trigger] chars[j]),
                forall|j: int| 0 <= j < i ==> #[trigger] ws@[j] == unit_width(chars[j], consider_pinyin),
            decreases n - i,
        {
            ws.push(unit_cols(&self.chars[i], consider_pinyin));
            i = i + 1;
        }
        let ranges = break_lines(ws.as_slice(), max_width);
        let result = slices_of(self.chars.as_slice(), &ranges);
        proof {
            lemma_wrap(chars, ws@, ranges@, line_views(result@), max_width as int, consider_pinyin);
        }
        result
    }

    /// The annotation of each character of `string`, in order.
    pub fn get_pinyin(string: &str) -> (r: Vec<Option<Pin>>)
        ensures
            r@.len() == string@.len(),
            forall|i: int| 0 <= i < r@.len() ==> is_reading_of(#[trigger] r@[i], string@[i]),
    {
        let v = to_chars(string);
        let n = v.len();
        let mut result: Vec<Option<Pin>> = Vec::new();
        let mut i: usize = 0;
        while i < n
            invariant
                v@ == string@,
                n == string@.len(),
                i <= n,
                result@.len() == i,
                forall|j: int| 0 <= j < i ==> is_reading_of(#[trigger] result@[j], string@[j]),
            decreases n - i,
        {
            let c = v[i];
            match reading(c) {
                Some((plain, toned)) => result.push(Some(Pin::new(toned.as_str(), plain.as_str()))),
                None => result.push(None),
            }
            i = i + 1;
        }
        result
    }

    /// A passage of the characters of `string`, behind a leading blank mark;
    /// every unit starts as `Future`.
    pub fn new(string: &str) -> (r: Passage)
        ensures
            built_from(r, string@),
    {
        let mut pinyin = Passage::get_pinyin(string);
        let v = to_chars(string);
        let n = v.len();
        let mut chars: Vec<Character> = Vec::new();
        chars.push(Character::new(' ', None));
        let mut i: usize = 0;
        while i < n
            invariant
                v@ == string@,
                n == string@.len(),
                pinyin@.len() == n,
                i <= n,
                chars@.len() == i + 1,
                chars@[0].char == ' ',
                chars@[0].pinyin is None,
                forall|j: int| i <= j < n ==> is_reading_of(#[trigger] pinyin@[j], string@[j]),
                forall|j: int| 0 <= j <= i ==> (#[trigger] chars@[j]).wf() && chars@[j].status == CharStatus::Future,
                forall|j: int| 0 <= j < i ==> {
                    &&& (#[trigger] chars@[j + 1]).char == string@[j]
                    &&& is_reading_of(chars@[j + 1].pinyin, string@[j])
                },
            decreases n - i,
        {
            let c = v[i];
            let mut p: Option<Pin> = None;
            std::mem::swap(&mut p, &mut pinyin[i]);
            chars.push(Character::new(c, p));
            i = i + 1;
        }
        Passage { chars }
    }
}

/// `c` with its status replaced by `s`.
pub open spec fn with_status(c: Character, s: CharStatus) -> Character {
    Character { char: c.char, pinyin: c.pinyin, is_mark: c.is_mark, status: s }
}

/// The passages of a text.
#[derive(Debug)]
pub struct Document {
    pub passages: Vec<Passage>,
}

impl Document {
    pub open spec fn wf(&self) -> bool {
        forall|i: int| 0 <= i < self.passages@.len() ==> (#[trigger] self.passages@[i]).wf()
    }

    /// The passages of `text`, one for each piece between blank-line breaks.
    pub fn from_text(text: &str) -> (r: Document)
        ensures
            r.wf(),
            r.passages@.len() == paragraphs(text@).len(),
            forall|i: int| 0 <= i < r.passages@.len() ==> built_from(#[trigger] r.passages@[i], paragraphs(text@)[i]),
    {
        let v = to_chars(text);
        let n = v.len();
        let mut passages: Vec<Passage> = Vec::new();
        let mut start: usize = 0;
        let ghost done: Seq<Seq<char>> = Seq::empty();
        proof {
            assert(v@.skip(0) =~= v@);
        }
        loop
            invariant
                text@ == v@,
                n == v@.len(),
                start <= n,
                paragraphs(text@) == done + paragraphs(v@.skip(start as int)),
                passages@.len() == done.len(),
                forall|i: int| 0 <= i < passages@.len() ==> built_from(#[trigger] passages@[i], done[i]),
            decreases n - start,
        {
            let end = find_break(&v, start);
            let ghost rest = v@.skip(start as int);
            let ghost piece = v@.subrange(start as int, end as int);
            proof {
                assert(rest.take(first_break(rest) as int) =~= piece);
                if end + 2 <= n {
                    assert(rest.skip(first_break(rest) as int + 2) =~= v@.skip(end + 2));
                    assert(paragraphs(rest) == seq![piece] + paragraphs(v@.skip(end + 2)));
                } else {
                    assert(rest =~= piece);
                }
            }
            let passage = Passage::new(text.substring_char(start, end));
            passages.push(passage);
            proof {
                done = done.push(piece);
            }
            if n - end < 2 {
                proof {
                    assert(paragraphs(text@) =~= done);
                }
                return Document { passages };
            }
            proof {
                assert(paragraphs(text@) =~= done + paragraphs(v@.skip(end + 2)));
            }
            start = end + 2;
        }
    }

    /// The index of a passage drawn at random.
    pub fn get_random(&self) -> (r: usize)
        requires
            self.passages@.len() > 0,
        ensures
            r < self.passages@.len(),
    {
        random_below(self.passages.len())
    }

    /// Sets the status of unit `i` of passage `p`; nothing else changes.
    pub fn set_status(&mut self, p: usize, i: usize, status: CharStatus)
        requires
            p < old(self).passages@.len(),
            i < old(self).passages@[p as int].chars@.len(),
        ensures
            final(self).passages@.len() == old(self).passages@.len(),
            forall|q: int|
                0 <= q < old(self).passages@.len() && q != p ==> final(self).passages@[q]
                    == old(self).passages@[q],
            final(self).passages@[p as int].chars@ == old(self).passages@[p as int].chars@.update(
                i as int,
                with_status(old(self).passages@[p as int].chars@[i as int], status),
            ),
    {
        self.passages[p].chars[i].set_status(status);
    }
}

} // verus!
