use shuangpin::input::{Input, KeyHint, KeyMap, KeyPress, Reaction};
use shuangpin::pin::{CharStatus, Document};
use shuangpin::render::ToneType;

fn key_map(leader: char, split_er: bool, pairs: &[(&str, &str)]) -> KeyMap {
    let mut km = KeyMap::new(leader, String::from("test"), split_er);
    for (ph, keys) in pairs {
        km.set_keys(ph, keys.chars().collect());
    }
    km
}

#[test]
fn hao_scenario_completes() {
    let km = key_map('o', true, &[("h", "h"), ("ao", "c")]);
    let doc = Document::from_text("好");
    let mut input = Input::start(doc, &km, ToneType::Live, 0, 0);
    assert!(input.typing_consonant);
    assert!(!input.end);
    assert_eq!(input.passage().chars[1].status, CharStatus::Typing);

    let hints = input.check_input('h', 10);
    assert_eq!(hints[0], ('h', KeyHint::Pass));
    assert_eq!(&hints[1..], &[('c', KeyHint::Next)]);
    assert!(!input.typing_consonant);
    assert_eq!(input.passage().chars[1].status, CharStatus::TypingHalf);
    assert_eq!(input.counter.get_mistakes(), 0);

    let hints = input.check_input('c', 20);
    assert_eq!(hints, vec![('c', KeyHint::Pass)]);
    assert_eq!(input.passage().chars[1].status, CharStatus::Passed);
    assert_eq!(input.counter.get_typed_words(), 1);
    assert!(input.end);
    assert!(input.counter.time_locked);
    assert_eq!(input.counter.get_interval(1000), 20);
}

#[test]
fn zero_initial_takes_leader() {
    let km = key_map('o', true, &[("ai", "d")]);
    let doc = Document::from_text("爱");
    let mut input = Input::start(doc, &km, ToneType::Always, 0, 0);
    let hints = input.check_input('o', 1);
    assert_eq!(hints[0], ('o', KeyHint::Pass));
    assert!(!input.typing_consonant);
    let hints = input.check_input('d', 2);
    assert_eq!(hints[0], ('d', KeyHint::Pass));
    assert!(input.end);
}

#[test]
fn zero_initial_wildcard_takes_first_letter() {
    let km = key_map('*', true, &[("ai", "d")]);
    let doc = Document::from_text("爱");
    let mut input = Input::start(doc, &km, ToneType::Always, 0, 0);
    let hints = input.check_input('o', 1);
    assert_eq!(hints[0], ('o', KeyHint::Fail));
    assert_eq!(&hints[1..], &[('a', KeyHint::Next)]);
    let hints = input.check_input('a', 2);
    assert_eq!(hints[0], ('a', KeyHint::Pass));
    assert!(!input.typing_consonant);
}

#[test]
fn split_er_rejects_r_first() {
    let km = key_map('v', true, &[("e", "e"), ("r", "r"), ("er", "w")]);
    let doc = Document::from_text("二");
    let mut input = Input::start(doc, &km, ToneType::Live, 0, 0);
    assert_eq!(km.expected(input.passage().chars[1].pinyin.as_ref().unwrap(), true), vec!['e']);
    let hints = input.check_input('r', 1);
    assert_eq!(hints[0], ('r', KeyHint::Fail));
    assert_eq!(input.counter.get_mistakes(), 1);
    assert!(input.typing_consonant);
    assert_eq!(input.passage().chars[1].status, CharStatus::ErrorConsonant);
    input.check_input('e', 2);
    assert!(!input.typing_consonant);
    input.check_input('r', 3);
    assert!(input.end);
    assert_eq!(input.counter.get_mistakes(), 1);
}

#[test]
fn split_er_leader_uses_plain_rules() {
    let km = key_map('v', true, &[("e", "e"), ("r", "r"), ("er", "w")]);
    let doc = Document::from_text("二");
    let mut input = Input::start(doc, &km, ToneType::Live, 0, 0);
    let hints = input.check_input('v', 1);
    assert_eq!(hints[0], ('v', KeyHint::Pass));
    let hints = input.check_input('v', 2);
    assert_eq!(hints[0], ('v', KeyHint::Fail));
    let hints = input.check_input('r', 3);
    assert_eq!(hints[0], ('r', KeyHint::Pass));
    assert!(input.end);
}

#[test]
fn wrong_final_stays_on_final() {
    let km = key_map('o', true, &[("h", "h"), ("ao", "c")]);
    let doc = Document::from_text("好好");
    let mut input = Input::start(doc, &km, ToneType::Live, 0, 0);
    input.check_input('h', 1);
    let hints = input.check_input('x', 2);
    assert_eq!(hints[0], ('x', KeyHint::Fail));
    assert!(!input.typing_consonant);
    assert_eq!(input.passage().chars[1].status, CharStatus::ErrorVowel);
    assert_eq!(input.counter.get_mistakes(), 1);
    assert_eq!(input.passed, 0);
    input.check_input('c', 3);
    assert_eq!(input.passed, 1);
    assert!(input.typing_consonant);
    assert_eq!(input.passage().chars[2].status, CharStatus::Typing);
    assert!(!input.end);
}

#[test]
fn two_right_keys_pass_one_syllable() {
    let km = key_map('o', true, &[("h", "h"), ("ao", "c")]);
    let doc = Document::from_text("好，好");
    let mut input = Input::start(doc, &km, ToneType::Off, 0, 0);
    let before = input.passed;
    input.check_input('h', 1);
    input.check_input('c', 2);
    assert_eq!(input.counter.get_mistakes(), 0);
    assert_eq!(input.passage().chars[1].status, CharStatus::Passed);
    assert_eq!(input.passage().chars[2].status, CharStatus::Passed);
    assert_eq!(input.passage().chars[3].status, CharStatus::Typing);
    assert_eq!(input.passed, before + 2);
}

#[test]
fn marks_are_passed_before_checking() {
    let km = key_map('o', true, &[("h", "h"), ("ao", "c")]);
    let doc = Document::from_text("「好");
    let mut input = Input::start(doc, &km, ToneType::Off, 0, 0);
    assert_eq!(input.passed, 0);
    assert_eq!(input.passage().chars[2].status, CharStatus::Typing);
    input.auto_advance();
    assert_eq!(input.passed, 1);
    assert_eq!(input.passage().chars[0].status, CharStatus::Future);
    assert_eq!(input.passage().chars[1].status, CharStatus::Passed);
    input.auto_advance();
    input.auto_advance();
    assert_eq!(input.passed, 1);
    assert_eq!(input.passage().chars[1].status, CharStatus::Passed);
}

#[test]
fn passage_without_syllables_ends_at_once() {
    let km = key_map('o', true, &[]);
    let doc = Document::from_text("。");
    let input = Input::start(doc, &km, ToneType::Off, 0, 0);
    assert!(input.end);
    assert_eq!(input.counter.get_total_words(), 0);
}

#[test]
fn control_keys_and_ignored_keys() {
    let km = key_map('o', true, &[("h", "h"), ("ao", "c")]);
    let doc = Document::from_text("好");
    let mut input = Input::new(doc, &km, ToneType::Off, 0);
    assert!(matches!(input.process_key(KeyPress::Ctrl('q'), 1), Reaction::Quit));
    assert!(matches!(input.process_key(KeyPress::Other, 1), Reaction::Ignored));
    assert!(matches!(input.process_key(KeyPress::Ctrl('x'), 1), Reaction::Ignored));
    match input.process_key(KeyPress::Plain('h'), 2) {
        Reaction::Checked(h) => assert_eq!(h[0], ('h', KeyHint::Pass)),
        _ => panic!("the key was not checked"),
    }
    assert!(matches!(input.process_key(KeyPress::Ctrl('r'), 3), Reaction::Restart));
    assert!(input.stopped);
    assert!(input.restart);
    let doc = input.into_document();
    assert_eq!(doc.passages.len(), 1);
}

#[test]
fn keys_after_the_end_are_ignored() {
    let km = key_map('o', true, &[("h", "h"), ("ao", "c")]);
    let doc = Document::from_text("好");
    let mut input = Input::start(doc, &km, ToneType::Off, 0, 0);
    input.check_input('h', 1);
    input.check_input('c', 2);
    assert!(matches!(input.process_key(KeyPress::Plain('h'), 3), Reaction::Ignored));
    assert_eq!(input.counter.get_typed_words(), 1);
}

#[test]
fn restart_resets_statuses() {
    let km = key_map('o', true, &[("h", "h"), ("ao", "c")]);
    let doc = Document::from_text("好好");
    let mut input = Input::start(doc, &km, ToneType::Off, 0, 0);
    input.check_input('h', 1);
    input.check_input('c', 2);
    let doc = input.into_document();
    let input = Input::start(doc, &km, ToneType::Off, 0, 5);
    assert_eq!(input.passage().chars[1].status, CharStatus::Typing);
    assert_eq!(input.passage().chars[2].status, CharStatus::Future);
    assert_eq!(input.counter.get_total_words(), 2);
    assert_eq!(input.counter.get_typed_words(), 0);
}
