use vstd::prelude::*;
use vstd::string::StrSliceExecFns;
use vstd::slice::slice_to_vec;
use crate::pin::{Pin, Character, CharStatus, Document, Passage, with_status};
use crate::render::ToneType;
use crate::text::{to_chars, find_in, trim_range, first_index, split_on, trim};
use vstd::slice::slice_subrange;

verus! {

/// The leader that stands for "the first letter of the final".
pub const WILDCARD: char = '*';

/// The phoneme → keys table that a list of entries describes; a later entry
/// for a phoneme replaces an earlier one.
pub open spec fn entries_map(e: Seq<(String, Vec<char>)>) -> Map<Seq<char>, Seq<char>>
    decreases e.len(),
{
    if e.len() == 0 {
        Map::empty()
    } else {
        entries_map(e.drop_last()).insert(e.last().0@, e.last().1@)
    }
}

/// No two entries name the same phoneme.
pub open spec fn distinct_phonemes(e: Seq<(String, Vec<char>)>) -> bool {
    forall|i: int, j: int| 0 <= i < j < e.len() ==> (#[trigger] e[i]).0@ != (#[trigger] e[j]).0@
}

proof fn lemma_entries_map_domain(e: Seq<(String, Vec<char>)>, ph: Seq<char>)
    ensures
        entries_map(e).contains_key(ph) <==> exists|i: int| 0 <= i < e.len() && (#[trigger] e[i]).0@ == ph,
    decreases e.len(),
{
    if e.len() > 0 {
        lemma_entries_map_domain(e.drop_last(), ph);
        if entries_map(e.drop_last()).contains_key(ph) {
            let i = choose|i: int| 0 <= i < e.drop_last().len() && (#[trigger] e.drop_last()[i]).0@ == ph;
            assert(e[i] == e.drop_last()[i]);
        }
        if exists|i: int| 0 <= i < e.len() && (#[trigger] e[i]).0@ == ph {
            let i = choose|i: int| 0 <= i < e.len() && (#[trigger] e[i]).0@ == ph;
            if i < e.len() - 1 {
                assert(e[i] == e.drop_last()[i]);
            }
        }
    }
}

proof fn lemma_entries_map_at(e: Seq<(String, Vec<char>)>, i: int)
    requires
        distinct_phonemes(e),
        0 <= i < e.len(),
    ensures
        entries_map(e).contains_key(e[i].0@),
        entries_map(e)[e[i].0@] == e[i].1@,
    decreases e.len(),
{
    if i < e.len() - 1 {
        assert(e[i] == e.drop_last()[i]);
        lemma_entries_map_at(e.drop_last(), i);
    }
}

proof fn lemma_entries_map_update(e: Seq<(String, Vec<char>)>, i: int, entry: (String, Vec<char>))
    requires
        distinct_phonemes(e),
        0 <= i < e.len(),
        e[i].0@ == entry.0@,
    ensures
        entries_map(e.update(i, entry)) == entries_map(e).insert(entry.0@, entry.1@),
        distinct_phonemes(e.update(i, entry)),
    decreases e.len(),
{
    let u = e.update(i, entry);
    if i < e.len() - 1 {
        assert(u.drop_last() =~= e.drop_last().update(i, entry));
        lemma_entries_map_update(e.drop_last(), i, entry);
        assert(e.last().0@ != entry.0@);
        assert(entries_map(u) =~= entries_map(e).insert(entry.0@, entry.1@));
    } else {
        assert(u.drop_last() =~= e.drop_last());
        assert(entries_map(u) =~= entries_map(e).insert(entry.0@, entry.1@));
    }
}

/// Which keys type which phoneme, and the settings of a two-key scheme.
pub struct KeyMap {
    pub leader: char,
    pub name: String,
    pub map: Vec<(String, Vec<char>)>,
    pub split_er: bool,
}

impl KeyMap {
    pub open spec fn wf(&self) -> bool {
        distinct_phonemes(self.map@)
    }

    /// The phoneme → keys table.
    pub open spec fn table(&self) -> Map<Seq<char>, Seq<char>> {
        entries_map(self.map@)
    }

    /// The keys that type phoneme `ph`; none when it is not in the table.
    pub open spec fn keys_for(&self, ph: Seq<char>) -> Seq<char> {
        if self.table().contains_key(ph) {
            self.table()[ph]
        } else {
            Seq::empty()
        }
    }

    /// An empty table with the given settings.
    pub fn new(leader: char, name: String, split_er: bool) -> (r: KeyMap)
        ensures
            r.wf(),
            r.leader == leader,
            r.name == name,
            r.split_er == split_er,
            r.table() == Map::<Seq<char>, Seq<char>>::empty(),
    {
        KeyMap { leader, name, map: Vec::new(), split_er }
    }

    /// Index of the entry for `ph`, if there is one.
    fn find(&self, ph: &str) -> (r: Option<usize>)
        requires
            self.wf(),
        ensures
            r matches Some(i) ==> i < self.map@.len() && self.map@[i as int].0@ == ph@,
            r is None ==> !self.table().contains_key(ph@),
    {
        let mut i: usize = 0;
        while i < self.map.len()
            invariant
                i <= self.map@.len(),
                forall|j: int| 0 <= j < i ==> (#[trigger] self.map@[j]).0@ != ph@,
            decreases self.map@.len() - i,
        {
            if same_text(self.map[i].0.as_str(), ph) {
                return Some(i);
            }
            i = i + 1;
        }
        proof {
            lemma_entries_map_domain(self.map@, ph@);
        }
        None
    }

    /// Makes `keys` the keys of phoneme `ph`.
    pub fn set_keys(&mut self, ph: &str, keys: Vec<char>)
        requires
            old(self).wf(),
        ensures
            final(self).wf(),
            final(self).table() == old(self).table().insert(ph@, keys@),
            final(self).leader == old(self).leader,
            final(self).name == old(self).name,
            final(self).split_er == old(self).split_er,
    {
        let entry = (ph.to_owned(), keys);
        match self.find(ph) {
            Some(i) => {
                proof {
                    lemma_entries_map_update(self.map@, i as int, entry);
                }
                self.map.set(i, entry);
            },
            None => {
                proof {
                    lemma_entries_map_domain(self.map@, ph@);
                    assert(self.map@.push(entry).drop_last() =~= self.map@);
                }
                self.map.push(entry);
            },
        }
    }

    /// The keys of phoneme `ph` (empty when it has none).
    pub fn keys(&self, ph: &str) -> (r: &[char])
        requires
            self.wf(),
        ensures
            r@ == self.keys_for(ph@),
    {
        match self.find(ph) {
            Some(i) => {
                proof {
                    lemma_entries_map_at(self.map@, i as int);
                }
                self.map[i].1.as_slice()
            },
            None => &[],
        }
    }
}

/// Whether two texts are the same.
pub fn same_text(a: &str, b: &str) -> (r: bool)
    ensures
        r == (a@ == b@),
{
    let n = a.unicode_len();
    if n != b.unicode_len() {
        return false;
    }
    let mut i: usize = 0;
    while i < n
        invariant
            n == a@.len() == b@.len(),
            i <= n,
            forall|j: int| 0 <= j < i ==> a@[j] == b@[j],
        decreases n - i,
    {
        if a.get_char(i) != b.get_char(i) {
            return false;
        }
        i = i + 1;
    }
    assert(a@ =~= b@);
    true
}

/// Whether `k` is one of `keys`.
pub fn has_key(keys: &[char], k: char) -> (r: bool)
    ensures
        r == keys@.contains(k),
{
    let mut i: usize = 0;
    while i < keys.len()
        invariant
            i <= keys@.len(),
            forall|j: int| 0 <= j < i ==> keys@[j] != k,
        decreases keys@.len() - i,
    {
        if keys[i] == k {
            return true;
        }
        i = i + 1;
    }
    false
}

/// The irregular final "er" of a zero-initial syllable is typed as "e" then "r".
pub open spec fn splits_er(km: KeyMap, pin: Pin) -> bool {
    &&& km.split_er
    &&& pin.consonant@.len() == 0
    &&& pin.vowel@ == seq!['e', 'r']
}

/// The keys accepted by the ordinary rules: the initial's keys, or for a
/// zero initial the leader (the first letter of the final when the leader is
/// the wildcard); in the final phase, the final's keys.
pub open spec fn plain_expected(km: KeyMap, pin: Pin, initial: bool) -> Seq<char> {
    if initial {
        if pin.consonant@.len() == 0 {
            if km.leader == WILDCARD {
                if pin.vowel@.len() > 0 {
                    seq![pin.vowel@[0]]
                } else {
                    Seq::empty()
                }
            } else {
                seq![km.leader]
            }
        } else {
            km.keys_for(pin.consonant@)
        }
    } else {
        km.keys_for(pin.vowel@)
    }
}

/// The keys accepted for a split "er": those of "e", then those of "r".
pub open spec fn er_expected(km: KeyMap, initial: bool) -> Seq<char> {
    if initial {
        km.keys_for(seq!['e'])
    } else {
        km.keys_for(seq!['r'])
    }
}

/// The keys awaited next, as shown to the learner.
pub open spec fn expected_keys(km: KeyMap, pin: Pin, initial: bool) -> Seq<char> {
    if splits_er(km, pin) {
        er_expected(km, initial)
    } else {
        plain_expected(km, pin, initial)
    }
}

/// Whether key `k` types the awaited part of `pin`; the leader key always
/// takes the ordinary rules.
pub open spec fn accepts(km: KeyMap, pin: Pin, initial: bool, k: char) -> bool {
    if splits_er(km, pin) && k != km.leader {
        er_expected(km, initial).contains(k)
    } else {
        plain_expected(km, pin, initial).contains(k)
    }
}

/// Whether `pin` is typed as a split "er" under `km`.
fn is_split_er(km: &KeyMap, pin: &Pin) -> (r: bool)
    ensures
        r == splits_er(*km, *pin),
{
    if !km.split_er || pin.consonant.as_str().unicode_len() != 0 {
        return false;
    }
    let v = pin.vowel.as_str();
    if v.unicode_len() != 2 {
        return false;
    }
    let r = v.get_char(0) == 'e' && v.get_char(1) == 'r';
    proof {
        if r {
            assert(v@ =~= seq!['e', 'r']);
        }
    }
    r
}

impl KeyMap {
    /// The ordinary accepted keys (see `plain_expected`).
    fn plain_keys(&self, pin: &Pin, initial: bool) -> (r: Vec<char>)
        requires
            self.wf(),
        ensures
            r@ == plain_expected(*self, *pin, initial),
    {
        if initial {
            if pin.consonant.as_str().unicode_len() == 0 {
                if self.leader == WILDCARD {
                    let v = pin.vowel.as_str();
                    if v.unicode_len() > 0 {
                        let mut r = Vec::new();
                        r.push(v.get_char(0));
                        proof {
                            assert(r@ =~= seq![pin.vowel@[0]]);
                        }
                        r
                    } else {
                        Vec::new()
                    }
                } else {
                    let mut r = Vec::new();
                    r.push(self.leader);
                    proof {
                        assert(r@ =~= seq![self.leader]);
                    }
                    r
                }
            } else {
                slice_to_vec(self.keys(pin.consonant.as_str()))
            }
        } else {
            slice_to_vec(self.keys(pin.vowel.as_str()))
        }
    }

    /// The keys of a split "er" (see `er_expected`).
    fn er_keys(&self, initial: bool) -> (r: Vec<char>)
        requires
            self.wf(),
        ensures
            r@ == er_expected(*self, initial),
    {
        proof {
            reveal_strlit("e");
            reveal_strlit("r");
            assert("e"@ =~= seq!['e']);
            assert("r"@ =~= seq!['r']);
        }
        if initial {
            slice_to_vec(self.keys("e"))
        } else {
            slice_to_vec(self.keys("r"))
        }
    }

    /// The keys awaited next for `pin`, in the phase of the initial when
    /// `initial` holds, else of the final.
    pub fn expected(&self, pin: &Pin, initial: bool) -> (r: Vec<char>)
        requires
            self.wf(),
        ensures
            r@ == expected_keys(*self, *pin, initial),
    {
        if is_split_er(self, pin) {
            self.er_keys(initial)
        } else {
            self.plain_keys(pin, initial)
        }
    }

    /// Whether key `k` types the awaited part of `pin`.
    pub fn accepts(&self, pin: &Pin, initial: bool, k: char) -> (r: bool)
        requires
            self.wf(),
        ensures
            r == accepts(*self, *pin, initial, k),
    {
        if is_split_er(self, pin) && k != self.leader {
            has_key(self.er_keys(initial).as_slice(), k)
        } else {
            has_key(self.plain_keys(pin, initial).as_slice(), k)
        }
    }
}

/// `n + 1`, held at the largest `u32`.
pub open spec fn saturating_inc(n: u32) -> u32 {
    if n < u32::MAX {
        (n + 1) as u32
    } else {
        n
    }
}

/// Time from `from` to `to`; none when `to` comes first.
pub open spec fn elapsed(from: u64, to: u64) -> u64 {
    if to >= from {
        (to - from) as u64
    } else {
        0
    }
}

/// Counts of a practice run and its timing; times are clock readings in
/// milliseconds.
pub struct Counter {
    pub total_words: u32,
    pub typed_words: u32,
    pub mistakes: u32,
    pub start_time: u64,
    pub time_locked: bool,
    pub end_time: u64,
    pub key_map_name: String,
}

impl Counter {
    pub fn new(total_words: u32, key_map_name: String, now_ms: u64) -> (r: Counter)
        ensures
            r.total_words == total_words,
            r.typed_words == 0,
            r.mistakes == 0,
            r.start_time == now_ms,
            r.end_time == now_ms,
            !r.time_locked,
            r.key_map_name == key_map_name,
    {
        Counter {
            total_words,
            typed_words: 0,
            mistakes: 0,
            start_time: now_ms,
            end_time: now_ms,
            time_locked: false,
            key_map_name,
        }
    }

    pub fn add_typed_words(&mut self)
        ensures
            final(self).typed_words == saturating_inc(old(self).typed_words),
            final(self).mistakes == old(self).mistakes,
            final(self).total_words == old(self).total_words,
            final(self).start_time == old(self).start_time,
            final(self).end_time == old(self).end_time,
            final(self).time_locked == old(self).time_locked,
            final(self).key_map_name == old(self).key_map_name,
    {
        if self.typed_words < u32::MAX {
            self.typed_words = self.typed_words + 1;
        }
    }

    pub fn add_mistake(&mut self)
        ensures
            final(self).mistakes == saturating_inc(old(self).mistakes),
            final(self).typed_words == old(self).typed_words,
            final(self).total_words == old(self).total_words,
            final(self).start_time == old(self).start_time,
            final(self).end_time == old(self).end_time,
            final(self).time_locked == old(self).time_locked,
            final(self).key_map_name == old(self).key_map_name,
    {
        if self.mistakes < u32::MAX {
            self.mistakes = self.mistakes + 1;
        }
    }

    pub fn get_total_words(&self) -> (r: u32)
        ensures
            r == self.total_words,
    {
        self.total_words
    }

    pub fn get_typed_words(&self) -> (r: u32)
        ensures
            r == self.typed_words,
    {
        self.typed_words
    }

    pub fn get_mistakes(&self) -> (r: u32)
        ensures
            r == self.mistakes,
    {
        self.mistakes
    }

    pub fn get_key_map_name(&self) -> (r: String)
        ensures
            r@ == self.key_map_name@,
    {
        self.key_map_name.clone()
    }

    /// Time since the start: up to `now_ms` while running, up to the moment
    /// of `lock` once locked.
    pub fn get_interval(&self, now_ms: u64) -> (r: u64)
        ensures
            r == if self.time_locked {
                elapsed(self.start_time, self.end_time)
            } else {
                elapsed(self.start_time, now_ms)
            },
    {
        let to = if self.time_locked {
            self.end_time
        } else {
            now_ms
        };
        if to >= self.start_time {
            to - self.start_time
        } else {
            0
        }
    }

    /// Syllables typed per minute so far, counting whole seconds; `None`
    /// before the first whole second.
    pub fn get_speed(&self, now_ms: u64) -> (r: Option<u64>)
        ensures
            ({
                let secs = (if self.time_locked {
                    elapsed(self.start_time, self.end_time)
                } else {
                    elapsed(self.start_time, now_ms)
                }) / 1000;
                r == if secs == 0 {
                    None
                } else {
                    Some((self.typed_words * 60 / (secs as int)) as u64)
                }
            }),
    {
        let secs = self.get_interval(now_ms) / 1000;
        if secs == 0 {
            None
        } else {
            Some(self.typed_words as u64 * 60 / secs)
        }
    }

    /// Stops the clock at `now_ms`.
    pub fn lock(&mut self, now_ms: u64)
        ensures
            final(self).time_locked,
            final(self).end_time == now_ms,
            final(self).typed_words == old(self).typed_words,
            final(self).mistakes == old(self).mistakes,
            final(self).total_words == old(self).total_words,
            final(self).start_time == old(self).start_time,
            final(self).key_map_name == old(self).key_map_name,
    {
        self.time_locked = true;
        self.end_time = now_ms;
    }
}

/// The first syllable (unit that is not a mark) at or after `from`, or
/// `chars.len()` when there is none.
pub open spec fn next_syllable(chars: Seq<Character>, from: int) -> int
    decreases chars.len() - from,
{
    if from < 0 || from >= chars.len() {
        chars.len() as int
    } else if !chars[from].is_mark {
        from
    } else {
        next_syllable(chars, from + 1)
    }
}

/// Moves the cursor over the marks that follow it, marking each `Passed`.
pub open spec fn advance(chars: Seq<Character>, cursor: int) -> (Seq<Character>, int)
    decreases chars.len() - cursor,
{
    if 0 <= cursor + 1 < chars.len() && chars[cursor + 1].is_mark {
        advance(chars.update(cursor + 1, with_status(chars[cursor + 1], CharStatus::Passed)), cursor + 1)
    } else {
        (chars, cursor)
    }
}

/// Marks are only ever `Future` or `Passed`.
pub open spec fn marks_settled(chars: Seq<Character>) -> bool {
    forall|i: int|
        0 <= i < chars.len() && (#[trigger] chars[i]).is_mark ==> chars[i].status == CharStatus::Future
            || chars[i].status == CharStatus::Passed
}

proof fn lemma_next_syllable(chars: Seq<Character>, from: int)
    requires
        0 <= from <= chars.len(),
    ensures
        from <= next_syllable(chars, from) <= chars.len(),
        next_syllable(chars, from) < chars.len() ==> !chars[next_syllable(chars, from)].is_mark,
        forall|i: int| from <= i < next_syllable(chars, from) ==> (#[trigger] chars[i]).is_mark,
    decreases chars.len() - from,
{
    if from < chars.len() && chars[from].is_mark {
        lemma_next_syllable(chars, from + 1);
    }
}

proof fn lemma_next_syllable_same(a: Seq<Character>, b: Seq<Character>, from: int)
    requires
        0 <= from <= a.len(),
        a.len() == b.len(),
        forall|i: int| from <= i < a.len() ==> (#[trigger] a[i]).is_mark == b[i].is_mark,
    ensures
        next_syllable(a, from) == next_syllable(b, from),
    decreases a.len() - from,
{
    if from < a.len() {
        lemma_next_syllable_same(a, b, from + 1);
    }
}

/// What `advance` does: every mark from the cursor up to the next syllable
/// becomes `Passed`, and the cursor stops just before that syllable.
pub proof fn lemma_advance(chars: Seq<Character>, cursor: int)
    requires
        0 <= cursor < chars.len(),
    ensures
        advance(chars, cursor).0.len() == chars.len(),
        advance(chars, cursor).1 == next_syllable(chars, cursor + 1) - 1,
        forall|i: int|
            0 <= i < chars.len() ==> (#[trigger] advance(chars, cursor).0[i]) == if cursor < i
                <= advance(chars, cursor).1 {
                with_status(chars[i], CharStatus::Passed)
            } else {
                chars[i]
            },
    decreases chars.len() - cursor,
{
    if cursor + 1 < chars.len() && chars[cursor + 1].is_mark {
        let next = chars.update(cursor + 1, with_status(chars[cursor + 1], CharStatus::Passed));
        lemma_advance(next, cursor + 1);
        lemma_next_syllable_same(chars, next, cursor + 2);
        lemma_next_syllable(next, cursor + 2);
        assert(advance(chars, cursor) == advance(next, cursor + 1));
        assert(next_syllable(chars, cursor + 1) == next_syllable(chars, cursor + 2));
        let p = advance(chars, cursor).1;
        assert forall|i: int| 0 <= i < chars.len() implies (#[trigger] advance(chars, cursor).0[i])
            == if cursor < i <= p {
            with_status(chars[i], CharStatus::Passed)
        } else {
            chars[i]
        } by {
            if i != cursor + 1 {
                assert(next[i] == chars[i]);
            }
        }
    } else {
        assert(advance(chars, cursor) == (chars, cursor));
    }
}

/// Moving over marks twice is moving over them once: where `advance`
/// stops, it stays, and the marks it passed stay `Passed`.
pub proof fn lemma_advance_idempotent(chars: Seq<Character>, cursor: int)
    requires
        0 <= cursor < chars.len(),
    ensures
        advance(advance(chars, cursor).0, advance(chars, cursor).1) == advance(chars, cursor),
        forall|i: int|
            cursor < i <= advance(chars, cursor).1 ==> (#[trigger] advance(chars, cursor).0[i]).is_mark
                && advance(chars, cursor).0[i].status == CharStatus::Passed,
{
    lemma_advance(chars, cursor);
    lemma_next_syllable(chars, cursor + 1);
    let (c, p) = advance(chars, cursor);
    assert forall|i: int| cursor < i <= p implies (#[trigger] c[i]).is_mark && c[i].status
        == CharStatus::Passed by {
        assert(chars[i].is_mark);
    }
    if p + 1 < c.len() {
        assert(c[p + 1] == chars[p + 1]);
    }
}

/// How a key is highlighted after a keystroke.
#[derive(PartialEq, Eq, Structural, Debug, Clone, Copy)]
pub enum KeyHint {
    /// The key pressed was right.
    Pass,
    /// The key pressed was wrong.
    Fail,
    /// The key is one of those awaited next.
    Next,
}

/// A key pressed during a session.
#[derive(PartialEq, Eq, Structural, Debug, Clone, Copy)]
pub enum KeyPress {
    /// A character key with Control held.
    Ctrl(char),
    /// A character key without modifiers.
    Plain(char),
    /// Anything else.
    Other,
}

/// What a session asks of its driver after a key.
#[derive(Debug)]
pub enum Reaction {
    /// Leave the program.
    Quit,
    /// End this run and start a new one.
    Restart,
    /// The key was checked; the keys to highlight, in order.
    Checked(Vec<(char, KeyHint)>),
    /// Nothing to do.
    Ignored,
}

/// The highlights after a keystroke: the key pressed, tagged pass or fail,
/// then each key awaited next.
pub open spec fn hints_are(r: Seq<(char, KeyHint)>, k: char, ok: bool, next: Seq<char>) -> bool {
    &&& r.len() == next.len() + 1
    &&& r[0] == (k, if ok { KeyHint::Pass } else { KeyHint::Fail })
    &&& forall|i: int| 0 <= i < next.len() ==> r[i + 1] == (#[trigger] next[i], KeyHint::Next)
}

/// The number of syllables among `chars`.
pub open spec fn syllable_count(chars: Seq<Character>) -> nat
    decreases chars.len(),
{
    if chars.len() == 0 {
        0
    } else {
        syllable_count(chars.drop_last()) + if chars.last().is_mark { 0nat } else { 1nat }
    }
}

/// One practice run over a passage of a document.
pub struct Input<'b> {
    pub document: Document,
    pub active_passage: usize,
    /// The last unit passed.
    pub passed: usize,
    /// The initial, not the final, of the active syllable is awaited.
    pub typing_consonant: bool,
    pub key_map: &'b KeyMap,
    pub counter: Counter,
    pub stopped: bool,
    pub restart: bool,
    pub end: bool,
    pub tone_on: ToneType,
}

impl<'b> Input<'b> {
    /// The units of the passage being typed.
    pub open spec fn chars(&self) -> Seq<Character> {
        self.document.passages@[self.active_passage as int].chars@
    }

    pub open spec fn wf(&self) -> bool {
        &&& self.document.wf()
        &&& self.key_map.wf()
        &&& self.active_passage < self.document.passages@.len()
        &&& self.passed < self.chars().len()
        &&& marks_settled(self.chars())
        &&& !self.end ==> next_syllable(self.chars(), self.passed + 1) < self.chars().len()
    }

    /// The passages of the document other than the active one are as in `d`.
    pub open spec fn others_kept(&self, d: Document) -> bool {
        &&& self.document.passages@.len() == d.passages@.len()
        &&& forall|q: int|
            0 <= q < d.passages@.len() && q != self.active_passage ==> self.document.passages@[q]
                == d.passages@[q]
    }

    /// The parts of the run that keys do not change are as in `o`.
    pub open spec fn same_run(&self, o: Input<'b>) -> bool {
        &&& self.others_kept(o.document)
        &&& self.active_passage == o.active_passage
        &&& self.key_map == o.key_map
        &&& self.tone_on == o.tone_on
        &&& self.counter.total_words == o.counter.total_words
        &&& self.counter.start_time == o.counter.start_time
        &&& self.counter.key_map_name == o.counter.key_map_name
    }

    /// The units and cursor once the marks after the cursor are passed.
    pub open spec fn advanced(&self) -> (Seq<Character>, int) {
        advance(self.chars(), self.passed as int)
    }

    /// The syllable awaited once the marks after the cursor are passed.
    pub open spec fn active_pin(&self) -> Pin {
        self.advanced().0[self.advanced().1 + 1].pinyin->0
    }

    /// Whether key `k` is right for the awaited part of the active syllable.
    pub open spec fn key_ok(&self, k: char) -> bool {
        accepts(*self.key_map, self.active_pin(), self.typing_consonant, k)
    }

    /// Marks the marks after the cursor `Passed` and moves the cursor over them.
    pub fn auto_advance(&mut self)
        requires
            old(self).wf(),
            !old(self).end,
        ensures
            final(self).wf(),
            !final(self).end,
            final(self).same_run(*old(self)),
            final(self).typing_consonant == old(self).typing_consonant,
            final(self).counter == old(self).counter,
            final(self).stopped == old(self).stopped,
            final(self).restart == old(self).restart,
            (final(self).chars(), final(self).passed as int) == old(self).advanced(),
    {
        let ghost target = self.advanced();
        let ghost s0 = *self;
        let ghost d0 = self.document;
        proof {
            lemma_advance(self.chars(), self.passed as int);
            lemma_next_syllable(self.chars(), self.passed + 1);
        }
        let a = self.active_passage;
        let n = self.document.passages[a].chars.len();
        while self.document.passages[a].chars[self.passed + 1].is_mark
            invariant
                n == self.chars().len(),
                self.wf(),
                !self.end,
                a == self.active_passage,
                self.others_kept(d0),
                self.same_run(s0),
                self.typing_consonant == s0.typing_consonant,
                self.counter == s0.counter,
                self.stopped == s0.stopped,
                self.restart == s0.restart,
                self.passed + 1 < self.chars().len(),
                advance(self.chars(), self.passed as int) == target,
            decreases self.chars().len() - self.passed,
        {
            let ghost before = self.chars();
            let i = self.passed + 1;
            self.document.set_status(a, i, CharStatus::Passed);
            self.passed = i;
            proof {
                assert(self.chars() == before.update(i as int, with_status(before[i as int], CharStatus::Passed)));
                lemma_next_syllable_same(before, self.chars(), i as int);
                lemma_next_syllable(before, i as int);
                if i + 1 == self.chars().len() {
                    lemma_next_syllable(before, i as int + 1);
                }
            }
        }
    }

    /// The syllable under the cursor's next position.
    pub open spec fn current_pin(&self) -> Pin {
        self.chars()[self.passed + 1].pinyin->0
    }

    /// The counter's clock is as in `o`.
    pub open spec fn clock_kept(&self, o: Input<'b>) -> bool {
        &&& self.counter.time_locked == o.counter.time_locked
        &&& self.counter.end_time == o.counter.end_time
    }

    /// `post` is what key `k`, pressed at `now_ms`, makes of this run: the
    /// marks after the cursor are passed; a right key for the initial moves to
    /// the final; a right key for the final passes the syllable and either
    /// ends the run (it was the last one) or passes the following marks and
    /// awaits the initial of the next syllable; a wrong key marks the error
    /// and counts a mistake, and the same part is awaited again.
    pub open spec fn steps_to(&self, post: Input<'b>, k: char, now_ms: u64) -> bool {
        let c1 = self.advanced().0;
        let p1 = self.advanced().1;
        let u = p1 + 1;
        let ok = self.key_ok(k);
        &&& post.same_run(*self)
        &&& post.stopped == self.stopped
        &&& post.restart == self.restart
        &&& if self.typing_consonant {
            &&& post.passed == p1
            &&& !post.end
            &&& post.counter.typed_words == self.counter.typed_words
            &&& post.clock_kept(*self)
            &&& if ok {
                &&& post.chars() == c1.update(u, with_status(c1[u], CharStatus::TypingHalf))
                &&& !post.typing_consonant
                &&& post.counter.mistakes == self.counter.mistakes
            } else {
                &&& post.chars() == c1.update(u, with_status(c1[u], CharStatus::ErrorConsonant))
                &&& post.typing_consonant
                &&& post.counter.mistakes == saturating_inc(self.counter.mistakes)
            }
        } else if ok {
            let c2 = c1.update(u, with_status(c1[u], CharStatus::Passed));
            let c3 = advance(c2, u).0;
            let p3 = advance(c2, u).1;
            &&& post.counter.typed_words == saturating_inc(self.counter.typed_words)
            &&& post.counter.mistakes == self.counter.mistakes
            &&& if next_syllable(c2, u + 1) >= c2.len() {
                &&& post.end
                &&& post.passed == u
                &&& post.chars() == c2
                &&& !post.typing_consonant
                &&& post.counter.time_locked
                &&& post.counter.end_time == now_ms
            } else {
                &&& !post.end
                &&& post.passed == p3
                &&& post.typing_consonant
                &&& post.chars() == c3.update(p3 + 1, with_status(c3[p3 + 1], CharStatus::Typing))
                &&& post.clock_kept(*self)
            }
        } else {
            &&& post.passed == p1
            &&& !post.end
            &&& !post.typing_consonant
            &&& post.chars() == c1.update(u, with_status(c1[u], CharStatus::ErrorVowel))
            &&& post.counter.typed_words == self.counter.typed_words
            &&& post.counter.mistakes == saturating_inc(self.counter.mistakes)
            &&& post.clock_kept(*self)
        }
    }

    /// The index of the first syllable at or after `from`, or the length.
    fn next_syllable_at(&self, from: usize) -> (r: usize)
        requires
            self.active_passage < self.document.passages@.len(),
            from <= self.chars().len(),
        ensures
            r == next_syllable(self.chars(), from as int),
    {
        let a = self.active_passage;
        let n = self.document.passages[a].chars.len();
        let mut i = from;
        while i < n && self.document.passages[a].chars[i].is_mark
            invariant
                a == self.active_passage,
                self.active_passage < self.document.passages@.len(),
                n == self.chars().len(),
                from <= i <= n,
                next_syllable(self.chars(), from as int) == next_syllable(self.chars(), i as int),
            decreases n - i,
        {
            i = i + 1;
        }
        i
    }

    /// Takes one keystroke `character`, pressed at `now_ms` (see `steps_to`),
    /// and gives the keys to highlight: the key pressed, tagged pass or fail,
    /// then the keys awaited next unless the run has ended.
    pub fn check_input(&mut self, character: char, now_ms: u64) -> (r: Vec<(char, KeyHint)>)
        requires
            old(self).wf(),
            !old(self).end,
        ensures
            final(self).wf(),
            old(self).steps_to(*final(self), character, now_ms),
            hints_are(
                r@,
                character,
                old(self).key_ok(character),
                if final(self).end {
                    Seq::empty()
                } else {
                    expected_keys(*final(self).key_map, final(self).current_pin(), final(self).typing_consonant)
                },
            ),
    {
        let ghost s0 = *self;
        proof {
            lemma_advance(self.chars(), self.passed as int);
            lemma_next_syllable(self.chars(), self.passed + 1);
        }
        self.auto_advance();
        let ghost s1 = *self;
        let ghost c1 = self.chars();
        let a = self.active_passage;
        let n = self.document.passages[a].chars.len();
        let u = self.passed + 1;
        assert(!c1[u as int].is_mark);
        assert(c1[u as int].wf());
        let ok = match &self.document.passages[a].chars[u].pinyin {
            Some(pin) => self.key_map.accepts(pin, self.typing_consonant, character),
            None => false,
        };
        if self.typing_consonant {
            if ok {
                self.document.set_status(a, u, CharStatus::TypingHalf);
                self.typing_consonant = false;
            } else {
                self.document.set_status(a, u, CharStatus::ErrorConsonant);
                self.counter.add_mistake();
            }
            proof {
                assert(next_syllable(self.chars(), u as int) == u);
            }
        } else if ok {
            self.document.set_status(a, u, CharStatus::Passed);
            self.passed = u;
            self.counter.add_typed_words();
            let ghost c2 = self.chars();
            proof {
                lemma_next_syllable(c2, u + 1);
            }
            let nx = self.next_syllable_at(u + 1);
            if nx >= n {
                self.end = true;
                self.counter.lock(now_ms);
            } else {
                proof {
                    lemma_advance(c2, u as int);
                }
                self.auto_advance();
                let v = self.passed + 1;
                let ghost c3 = self.chars();
                assert(!c3[v as int].is_mark);
                self.typing_consonant = true;
                self.document.set_status(a, v, CharStatus::Typing);
                proof {
                    assert(next_syllable(self.chars(), v as int) == v);
                }
            }
        } else {
            self.document.set_status(a, u, CharStatus::ErrorVowel);
            self.counter.add_mistake();
            proof {
                assert(next_syllable(self.chars(), u as int) == u);
            }
        }
        let mut hints: Vec<(char, KeyHint)> = Vec::new();
        hints.push((character, if ok { KeyHint::Pass } else { KeyHint::Fail }));
        if !self.end {
            let v = self.passed + 1;
            proof {
                lemma_next_syllable(self.chars(), v as int);
            }
            assert(self.chars()[v as int].wf());
            let next = match &self.document.passages[a].chars[v].pinyin {
                Some(pin) => self.key_map.expected(pin, self.typing_consonant),
                None => Vec::new(),
            };
            let mut i: usize = 0;
            while i < next.len()
                invariant
                    hints@.len() == i + 1,
                    i <= next@.len(),
                    hints@[0] == (character, if ok { KeyHint::Pass } else { KeyHint::Fail }),
                    forall|j: int| 0 <= j < i ==> hints@[j + 1] == (#[trigger] next@[j], KeyHint::Next),
                decreases next@.len() - i,
            {
                hints.push((next[i], KeyHint::Next));
                i = i + 1;
            }
        }
        hints
    }

    /// This is a fresh run over passage `self.active_passage` of `d`: its
    /// units are `Future` but the first syllable, which awaits its initial,
    /// the cursor is on the leading mark, and the run has ended at once when
    /// the passage has no syllable.
    pub open spec fn started(&self, d: Document, key_map: &'b KeyMap, tone_on: ToneType, now_ms: u64) -> bool {
        let old_chars = d.passages@[self.active_passage as int].chars@;
        let first = next_syllable(old_chars, 1);
        &&& self.active_passage < d.passages@.len()
        &&& self.others_kept(d)
        &&& self.chars().len() == old_chars.len()
        &&& forall|i: int|
            0 <= i < old_chars.len() ==> #[trigger] self.chars()[i] == with_status(
                old_chars[i],
                if i == first { CharStatus::Typing } else { CharStatus::Future },
            )
        &&& self.passed == 0
        &&& self.typing_consonant
        &&& self.end == (first >= old_chars.len())
        &&& self.key_map == key_map
        &&& self.tone_on == tone_on
        &&& !self.stopped
        &&& !self.restart
        &&& self.counter.total_words == if syllable_count(old_chars) <= u32::MAX {
            syllable_count(old_chars) as u32
        } else {
            u32::MAX
        }
        &&& self.counter.typed_words == 0
        &&& self.counter.mistakes == 0
        &&& self.counter.start_time == now_ms
        &&& !self.counter.time_locked
        &&& self.counter.key_map_name == key_map.name
    }

    /// A run over passage `index` of `document`.
    pub fn start(document: Document, key_map: &'b KeyMap, tone_on: ToneType, index: usize, now_ms: u64) -> (r: Input<'b>)
        requires
            document.wf(),
            key_map.wf(),
            index < document.passages@.len(),
        ensures
            r.wf(),
            r.active_passage == index,
            r.started(document, key_map, tone_on, now_ms),
    {
        let ghost d0 = document;
        let ghost c0 = document.passages@[index as int].chars@;
        let mut document = document;
        let n = document.passages[index].chars.len();
        let mut i: usize = 0;
        let mut count: usize = 0;
        while i < n
            invariant
                n == c0.len(),
                d0.wf(),
                index < d0.passages@.len(),
                c0 == d0.passages@[index as int].chars@,
                i <= n,
                count == syllable_count(c0.take(i as int)),
                count <= i,
                document.wf(),
                index < document.passages@.len(),
                document.passages@.len() == d0.passages@.len(),
                forall|q: int|
                    0 <= q < d0.passages@.len() && q != index ==> document.passages@[q] == d0.passages@[q],
                document.passages@[index as int].chars@.len() == n,
                forall|j: int|
                    0 <= j < n ==> #[trigger] document.passages@[index as int].chars@[j] == if j < i {
                        with_status(c0[j], CharStatus::Future)
                    } else {
                        c0[j]
                    },
            decreases n - i,
        {
            proof {
                assert(c0.take(i + 1).drop_last() =~= c0.take(i as int));
            }
            if !document.passages[index].chars[i].is_mark {
                count = count + 1;
            }
            document.set_status(index, i, CharStatus::Future);
            proof {
                let cs = document.passages@[index as int].chars@;
                assert forall|j: int| 0 <= j < cs.len() implies (#[trigger] cs[j]).wf() by {
                    assert(d0.passages@[index as int].wf());
                    assert(c0[j].wf());
                }
            }
            i = i + 1;
        }
        proof {
            assert(c0.take(n as int) =~= c0);
        }
        let total: u32 = if count > 4294967295usize {
            u32::MAX
        } else {
            count as u32
        };
        let counter = Counter::new(total, key_map.name.clone(), now_ms);
        let mut input = Input {
            document,
            active_passage: index,
            passed: 0,
            typing_consonant: true,
            key_map,
            counter,
            stopped: false,
            restart: false,
            end: true,
            tone_on,
        };
        let ghost cr = input.chars();
        proof {
            lemma_next_syllable_same(c0, cr, 1);
            lemma_next_syllable(cr, 1);
        }
        let first = input.next_syllable_at(1);
        if first < n {
            input.document.set_status(index, first, CharStatus::Typing);
            input.end = false;
            proof {
                assert(next_syllable(input.chars(), 1) == next_syllable(cr, 1)) by {
                    lemma_next_syllable_same(cr, input.chars(), 1);
                }
            }
        }
        proof {
            let cs = input.chars();
            assert forall|j: int| 0 <= j < cs.len() implies (#[trigger] cs[j]).wf() by {
                assert(d0.passages@[index as int].wf());
                assert(c0[j].wf());
            }
        }
        input
    }

    /// A run over a passage of `document` drawn at random.
    pub fn new(document: Document, key_map: &'b KeyMap, tone_on: ToneType, now_ms: u64) -> (r: Input<'b>)
        requires
            document.wf(),
            key_map.wf(),
            document.passages@.len() > 0,
        ensures
            r.wf(),
            r.started(document, key_map, tone_on, now_ms),
    {
        let index = document.get_random();
        Input::start(document, key_map, tone_on, index, now_ms)
    }

    /// The passage being typed.
    pub fn passage(&self) -> (r: &Passage)
        requires
            self.active_passage < self.document.passages@.len(),
        ensures
            *r == self.document.passages@[self.active_passage as int],
    {
        &self.document.passages[self.active_passage]
    }

    /// Gives the document back, to start another run over it.
    pub fn into_document(self) -> (r: Document)
        ensures
            r == self.document,
    {
        self.document
    }

    /// Reacts to a key: Control-Q quits, Control-R stops the run to start
    /// another, a plain character is checked unless the run has ended.
    pub fn process_key(&mut self, key: KeyPress, now_ms: u64) -> (r: Reaction)
        requires
            old(self).wf(),
        ensures
            final(self).wf(),
            match key {
                KeyPress::Ctrl('q') => r is Quit && *final(self) == *old(self),
                KeyPress::Ctrl('r') => {
                    &&& r is Restart
                    &&& final(self).stopped
                    &&& final(self).restart
                    &&& *final(self) == Input { stopped: true, restart: true, ..*old(self) }
                },
                KeyPress::Plain(c) => if old(self).end {
                    r is Ignored && *final(self) == *old(self)
                } else {
                    &&& r matches Reaction::Checked(h)
                    &&& old(self).steps_to(*final(self), c, now_ms)
                    &&& hints_are(
                        h@,
                        c,
                        old(self).key_ok(c),
                        if final(self).end {
                            Seq::empty()
                        } else {
                            expected_keys(*final(self).key_map, final(self).current_pin(), final(self).typing_consonant)
                        },
                    )
                },
                _ => r is Ignored && *final(self) == *old(self),
            },
    {
        match key {
            KeyPress::Ctrl(c) => {
                if c == 'q' {
                    Reaction::Quit
                } else if c == 'r' {
                    self.stopped = true;
                    self.restart = true;
                    Reaction::Restart
                } else {
                    Reaction::Ignored
                }
            },
            KeyPress::Plain(c) => {
                if self.end {
                    Reaction::Ignored
                } else {
                    Reaction::Checked(self.check_input(c, now_ms))
                }
            },
            KeyPress::Other => Reaction::Ignored,
        }
    }
}

/// A zero initial is typed with the leader key, or with the first letter of
/// the final when the leader is the wildcard (this holds too of a split
/// "er" when the key is the leader).
pub proof fn lemma_zero_initial(km: KeyMap, pin: Pin, k: char)
    requires
        pin.consonant@.len() == 0,
        !splits_er(km, pin) || k == km.leader,
    ensures
        accepts(km, pin, true, k) <==> if km.leader == WILDCARD {
            pin.vowel@.len() > 0 && k == pin.vowel@[0]
        } else {
            k == km.leader
        },
        !splits_er(km, pin) ==> expected_keys(km, pin, true) == if km.leader == WILDCARD {
            if pin.vowel@.len() > 0 {
                seq![pin.vowel@[0]]
            } else {
                Seq::empty()
            }
        } else {
            seq![km.leader]
        },
{
    if km.leader == WILDCARD {
        if pin.vowel@.len() > 0 {
            assert(seq![pin.vowel@[0]][0] == pin.vowel@[0]);
        }
    } else {
        assert(seq![km.leader][0] == km.leader);
    }
}

/// A split "er" awaits the keys of "e" and then those of "r", both for
/// checking a key other than the leader and for showing what comes next.
pub proof fn lemma_er_rule(km: KeyMap, pin: Pin, k: char)
    requires
        splits_er(km, pin),
        k != km.leader,
    ensures
        accepts(km, pin, true, k) <==> km.keys_for(seq!['e']).contains(k),
        accepts(km, pin, false, k) <==> km.keys_for(seq!['r']).contains(k),
        expected_keys(km, pin, true) == km.keys_for(seq!['e']),
        expected_keys(km, pin, false) == km.keys_for(seq!['r']),
{
}

/// A right key for the initial and then a right key for the final pass
/// exactly one syllable, the one that was awaited, and count no mistake.
pub proof fn lemma_two_right_keys<'b>(
    s0: Input<'b>,
    s1: Input<'b>,
    s2: Input<'b>,
    k1: char,
    k2: char,
    t1: u64,
    t2: u64,
)
    requires
        s0.wf(),
        !s0.end,
        s0.typing_consonant,
        s0.steps_to(s1, k1, t1),
        s0.key_ok(k1),
        s1.wf(),
        s1.steps_to(s2, k2, t2),
        s1.key_ok(k2),
    ensures
        s0.passed < next_syllable(s0.chars(), s0.passed + 1) <= s2.passed,
        forall|i: int|
            s0.passed < i <= s2.passed && i != next_syllable(s0.chars(), s0.passed + 1)
                ==> (#[trigger] s0.chars()[i]).is_mark,
        s2.chars()[next_syllable(s0.chars(), s0.passed + 1)].status == CharStatus::Passed,
        s2.counter.mistakes == s0.counter.mistakes,
{
    let c0 = s0.chars();
    lemma_advance(c0, s0.passed as int);
    lemma_next_syllable(c0, s0.passed + 1);
    let u = next_syllable(c0, s0.passed + 1);
    let c1 = s1.chars();
    assert(s1.passed == u - 1);
    assert(!c1[u].is_mark);
    assert(advance(c1, s1.passed as int) == (c1, s1.passed as int));
    let c2 = c1.update(u, with_status(c1[u], CharStatus::Passed));
    assert forall|i: int| 0 <= i < c0.len() implies (#[trigger] c2[i]).is_mark == c0[i].is_mark by {
        assert(c1[i].is_mark == c0[i].is_mark);
    }
    if next_syllable(c2, u + 1) < c2.len() {
        lemma_advance(c2, u);
        lemma_next_syllable(c2, u + 1);
        let p3 = advance(c2, u).1;
        assert forall|i: int|
            s0.passed < i <= s2.passed && i != u implies (#[trigger] c0[i]).is_mark by {
            if i > u {
                assert(c2[i].is_mark);
            }
        }
    }
}

/// A wrong key, when no mark waits to be passed, keeps the cursor and the
/// phase and counts exactly one mistake.
pub proof fn lemma_wrong_key<'b>(s0: Input<'b>, s1: Input<'b>, k: char, t: u64)
    requires
        s0.wf(),
        !s0.end,
        !s0.chars()[s0.passed + 1].is_mark,
        s0.counter.mistakes < u32::MAX,
        s0.steps_to(s1, k, t),
        !s0.key_ok(k),
    ensures
        s1.passed == s0.passed,
        s1.typing_consonant == s0.typing_consonant,
        s1.counter.mistakes == s0.counter.mistakes + 1,
        !s1.end,
{
    assert(advance(s0.chars(), s0.passed as int) == (s0.chars(), s0.passed as int));
}

/// Why a key-map text was refused; each names the line, counted from zero.
#[derive(PartialEq, Eq, Structural, Debug, Clone, Copy)]
pub enum KeyMapError {
    /// A line has no `:` between its name and its keys.
    MissingDelimiter(usize),
    /// A setting that needs a key has none.
    MissingKey(usize),
}

/// What a key map holds: leader, name, whether "er" is split, and the table.
pub type KeyMapModel = (char, Seq<char>, bool, Map<Seq<char>, Seq<char>>);

/// The settings before any line is read.
pub open spec fn default_model() -> KeyMapModel {
    ('o', Seq::empty(), true, Map::empty())
}

/// The name part of a setting line: what comes before its first `:`, trimmed.
pub open spec fn line_name(line: Seq<char>) -> Seq<char> {
    trim(line.take(first_index(line, ':') as int))
}

/// The value part of a setting line: what comes between its first and
/// second `:` (or its end), trimmed.
pub open spec fn line_value(line: Seq<char>) -> Seq<char> {
    let rest = line.skip(first_index(line, ':') as int + 1);
    trim(rest.take(first_index(rest, ':') as int))
}

/// What line `no` of a key-map text does to `m`: blank lines and lines
/// starting with `#` are skipped; `leader`, `leader_er`, `split_er` take the
/// first key of their value (`leader_er` as the key of "er", `split_er` on
/// when it is `1`); `name` takes the whole value; any other name is a
/// phoneme, whose keys are the characters of the value.
pub open spec fn apply_line(m: KeyMapModel, line: Seq<char>, no: int) -> Result<KeyMapModel, KeyMapError> {
    let t = trim(line);
    let name = line_name(line);
    let value = line_value(line);
    if t.len() == 0 || t[0] == '#' {
        Ok(m)
    } else if first_index(line, ':') >= line.len() {
        Err(KeyMapError::MissingDelimiter(no as usize))
    } else if name == seq!['l', 'e', 'a', 'd', 'e', 'r'] {
        if value.len() == 0 { Err(KeyMapError::MissingKey(no as usize)) } else { Ok((value[0], m.1, m.2, m.3)) }
    } else if name == seq!['l', 'e', 'a', 'd', 'e', 'r', '_', 'e', 'r'] {
        if value.len() == 0 {
            Err(KeyMapError::MissingKey(no as usize))
        } else {
            Ok((m.0, m.1, m.2, m.3.insert(seq!['e', 'r'], seq![value[0]])))
        }
    } else if name == seq!['s', 'p', 'l', 'i', 't', '_', 'e', 'r'] {
        if value.len() == 0 { Err(KeyMapError::MissingKey(no as usize)) } else { Ok((m.0, m.1, value[0] == '1', m.3)) }
    } else if name == seq!['n', 'a', 'm', 'e'] {
        Ok((m.0, value, m.2, m.3))
    } else {
        Ok((m.0, m.1, m.2, m.3.insert(name, value)))
    }
}

/// The lines applied in order, the first being line `no`; the first refused
/// line stops the reading.
pub open spec fn apply_lines(m: KeyMapModel, lines: Seq<Seq<char>>, no: int) -> Result<KeyMapModel, KeyMapError>
    decreases lines.len(),
{
    if lines.len() == 0 {
        Ok(m)
    } else {
        match apply_line(m, lines[0], no) {
            Ok(m2) => apply_lines(m2, lines.drop_first(), no + 1),
            Err(e) => Err(e),
        }
    }
}

/// What a key-map text describes.
pub open spec fn parse_key_map(text: Seq<char>) -> Result<KeyMapModel, KeyMapError> {
    apply_lines(default_model(), split_on(text, '\n'), 0)
}

impl KeyMap {
    /// Leader, name, "er" setting and table.
    pub open spec fn model(&self) -> KeyMapModel {
        (self.leader, self.name@, self.split_er, self.table())
    }

    /// Applies line `v[lo..hi]`, line `no` of its text (see `apply_line`).
    fn read_line(&mut self, text: &str, v: &Vec<char>, lo: usize, hi: usize, no: usize) -> (r: Result<(), KeyMapError>)
        requires
            old(self).wf(),
            text@ == v@,
            lo <= hi <= v@.len(),
        ensures
            final(self).wf(),
            match apply_line(old(self).model(), v@.subrange(lo as int, hi as int), no as int) {
                Ok(m) => r is Ok && final(self).model() == m,
                Err(e) => r == Err::<(), KeyMapError>(e),
            },
    {
        let ghost line = v@.subrange(lo as int, hi as int);
        let (ts, te) = trim_range(v, lo, hi);
        if ts == te || v[ts] == '#' {
            return Ok(());
        }
        let colon = find_in(v, lo, hi, ':');
        if colon >= hi {
            return Err(KeyMapError::MissingDelimiter(no));
        }
        let (ns, ne) = trim_range(v, lo, colon);
        let vend = find_in(v, colon + 1, hi, ':');
        let (ks, ke) = trim_range(v, colon + 1, vend);
        proof {
            assert(line.take(first_index(line, ':') as int) =~= v@.subrange(lo as int, colon as int));
            let rest = line.skip(first_index(line, ':') as int + 1);
            assert(rest =~= v@.subrange(colon + 1, hi as int));
            assert(rest.take(first_index(rest, ':') as int) =~= v@.subrange(colon + 1, vend as int));
            reveal_strlit("leader");
            reveal_strlit("leader_er");
            reveal_strlit("split_er");
            reveal_strlit("name");
            assert("leader"@ =~= seq!['l', 'e', 'a', 'd', 'e', 'r']);
            assert("leader_er"@ =~= seq!['l', 'e', 'a', 'd', 'e', 'r', '_', 'e', 'r']);
            assert("split_er"@ =~= seq!['s', 'p', 'l', 'i', 't', '_', 'e', 'r']);
            assert("name"@ =~= seq!['n', 'a', 'm', 'e']);
        }
        let name = text.substring_char(ns, ne);
        let value = text.substring_char(ks, ke);
        if same_text(name, "leader") {
            if ks == ke {
                return Err(KeyMapError::MissingKey(no));
            }
            self.leader = v[ks];
        } else if same_text(name, "leader_er") {
            if ks == ke {
                return Err(KeyMapError::MissingKey(no));
            }
            let mut keys: Vec<char> = Vec::new();
            keys.push(v[ks]);
            proof {
                reveal_strlit("er");
                assert("er"@ =~= seq!['e', 'r']);
                assert(keys@ =~= seq![v@[ks as int]]);
            }
            self.set_keys("er", keys);
        } else if same_text(name, "split_er") {
            if ks == ke {
                return Err(KeyMapError::MissingKey(no));
            }
            self.split_er = v[ks] == '1';
        } else if same_text(name, "name") {
            self.name = value.to_owned();
        } else {
            let keys = slice_to_vec(slice_subrange(v.as_slice(), ks, ke));
            self.set_keys(name, keys);
        }
        Ok(())
    }

    /// Reads a key-map text (see `parse_key_map`): `Ok` with the key map it
    /// describes, or the error of its first refused line.
    pub fn parse(text: &str) -> (r: Result<KeyMap, KeyMapError>)
        ensures
            match parse_key_map(text@) {
                Ok(m) => r matches Ok(km) && km.wf() && km.model() == m,
                Err(e) => r matches Err(e2) && e2 == e,
            },
    {
        let v = to_chars(text);
        let n = v.len();
        let mut km = KeyMap::new('o', String::new(), true);
        proof {
            assert(km.model() =~= default_model());
            assert(v@.skip(0) =~= v@);
        }
        let mut start: usize = 0;
        let mut no: usize = 0;
        loop
            invariant
                text@ == v@,
                n == v@.len(),
                start <= n,
                no <= start,
                km.wf(),
                parse_key_map(text@) == apply_lines(km.model(), split_on(v@.skip(start as int), '\n'), no as int),
            decreases n - start,
        {
            let end = find_in(&v, start, n, '\n');
            let ghost rest = v@.skip(start as int);
            proof {
                assert(v@.subrange(start as int, n as int) =~= rest);
                assert(rest.take(first_index(rest, '\n') as int) =~= v@.subrange(start as int, end as int));
                if end < n {
                    assert(rest.skip(first_index(rest, '\n') as int + 1) =~= v@.skip(end + 1));
                }
            }
            let ghost m0 = km.model();
            let ghost lines = split_on(rest, '\n');
            let ghost line = v@.subrange(start as int, end as int);
            proof {
                if end < n {
                    assert(lines == seq![line] + split_on(v@.skip(end + 1), '\n'));
                    assert(lines.drop_first() =~= split_on(v@.skip(end + 1), '\n'));
                } else {
                    assert(lines == seq![rest]);
                    assert(lines.drop_first() =~= Seq::<Seq<char>>::empty());
                }
                assert(lines[0] == line);
            }
            match km.read_line(text, &v, start, end, no) {
                Ok(()) => {},
                Err(e) => {
                    return Err(e);
                },
            }
            if end >= n {
                assert(apply_lines(km.model(), lines.drop_first(), no + 1) == Ok::<KeyMapModel, KeyMapError>(km.model()));
                return Ok(km);
            }
            start = end + 1;
            no = no + 1;
        }
    }
}

} // verus!
