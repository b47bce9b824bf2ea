use shuangpin::pin::{break_lines, split, Document, Passage};
use shuangpin::render::{calc_passage_rect, BorderBottom, BorderTop, Keyboard, Render};
use shuangpin::input::KeyMap;
use unicode_width::UnicodeWidthChar;

#[test]
fn split_cuts_before_first_vowel() {
    assert_eq!(split("zhuang"), (String::from("zh"), String::from("uang")));
    assert_eq!(split("ai"), (String::new(), String::from("ai")));
    assert_eq!(split("er"), (String::new(), String::from("er")));
    assert_eq!(split("lü"), (String::from("l"), String::from("ü")));
    assert_eq!(split("ng"), (String::from("ng"), String::new()));
    assert_eq!(split(""), (String::new(), String::new()));
}

#[test]
fn split_parts_join_back() {
    for s in ["hao", "shuang", "e", "nv", "xiong", "m"] {
        let (a, b) = split(s);
        assert_eq!(format!("{}{}", a, b), s);
    }
}

#[test]
fn passage_reads_pinyin() {
    let p = Passage::new("你好。");
    assert_eq!(p.chars.len(), 4);
    assert!(p.chars[0].is_mark);
    assert_eq!(p.chars[0].char, ' ');
    let hao = p.chars[2].pinyin.as_ref().unwrap();
    assert_eq!(hao.pinyin, "hao");
    assert_eq!(hao.pinyin_with_tone, "hǎo");
    assert_eq!(hao.consonant, "h");
    assert_eq!(hao.vowel, "ao");
    assert!(p.chars[3].is_mark);
}

#[test]
fn document_splits_on_blank_lines() {
    let d = Document::from_text("你好\n\n再见\n\n\n好");
    assert_eq!(d.passages.len(), 3);
    assert_eq!(d.passages[0].chars.len(), 3);
    assert_eq!(d.passages[1].chars.len(), 3);
    assert_eq!(d.passages[2].chars.len(), 3);
    assert_eq!(d.passages[2].chars[1].char, '\n');
    assert!(d.get_random() < 3);
    assert_eq!(Document::from_text("").passages.len(), 1);
}

#[test]
fn wrap_with_annotations() {
    let p = Passage::new("好好好");
    let lines = p.wrap(9, true);
    let lens: Vec<usize> = lines.iter().map(|l| l.len()).collect();
    assert_eq!(lens, vec![3, 1]);
}

#[test]
fn wrap_without_annotations() {
    let p = Passage::new("好好好");
    let lines = p.wrap(3, false);
    let lens: Vec<usize> = lines.iter().map(|l| l.len()).collect();
    assert_eq!(lens, vec![2, 1, 1]);
}

#[test]
fn wrap_lone_wide_unit() {
    let p = Passage::new("好好");
    let lines = p.wrap(1, false);
    let lens: Vec<usize> = lines.iter().map(|l| l.len()).collect();
    assert_eq!(lens, vec![1, 1, 1]);
}

#[test]
fn wrap_partitions_in_order() {
    let p = Passage::new("我们一起学习双拼，好不好？");
    for width in 1..20u16 {
        let lines = p.wrap(width, true);
        let joined: Vec<char> = lines.iter().flat_map(|l| l.iter().map(|c| c.char)).collect();
        let all: Vec<char> = p.chars.iter().map(|c| c.char).collect();
        assert_eq!(joined, all);
        for l in &lines {
            let w: usize = l
                .iter()
                .map(|c| {
                    let g = c.char.width_cjk().unwrap_or(1);
                    match &c.pinyin {
                        Some(pin) => std::cmp::max(g, pin.pinyin.chars().count() + 1),
                        None => g,
                    }
                })
                .sum();
            assert!(w <= width as usize || l.len() == 1);
        }
    }
}

#[test]
fn rect_on_terminals() {
    let r = calc_passage_rect(200, 50);
    assert_eq!((r.width, r.height, r.left, r.top), (120, 23, 40, 2));
    let r = calc_passage_rect(100, 20);
    assert_eq!((r.width, r.height, r.left, r.top), (92, 16, 4, 2));
    let r = calc_passage_rect(125, 30);
    assert_eq!((r.width, r.height, r.left, r.top), (97, 13, 14, 2));
    let r = calc_passage_rect(6, 3);
    assert_eq!((r.width, r.height, r.left), (0, 0, 4));
    let mut render = Render::new(200, 50);
    render.update_passage_rect(100, 20);
    assert_eq!(render.passage_rect.width, 92);
}

#[test]
fn keyboard_lists_phonemes_per_key() {
    let mut km = KeyMap::new('o', String::from("x"), true);
    km.set_keys("sh", vec!['u']);
    km.set_keys("u", vec!['u']);
    km.set_keys("ang", vec!['h']);
    let kb = Keyboard::default(&km);
    assert_eq!(kb.key_map.len(), 27);
    let u = &kb.key_map[6];
    assert_eq!(u.name, 'u');
    assert_eq!(u.phonemes, vec![String::from("sh"), String::from("u")]);
    assert_eq!(u.position, (6, 0));
    assert_eq!(kb.key_map[0].top, BorderTop::NW);
    assert_eq!(kb.key_map[9].top, BorderTop::NE);
    assert_eq!(kb.key_map[10].bottom, BorderBottom::W);
    assert_eq!(kb.key_map[19].bottom, BorderBottom::SE);
    assert_eq!(kb.key_map[20].bottom, BorderBottom::SW);
    assert_eq!(kb.key_map[26].bottom, BorderBottom::SE);
    assert_eq!(kb.key_map[15].phonemes, vec![String::from("ang")]);
    assert!(kb.key_map[1].phonemes.is_empty());
}

#[test]
fn break_lines_exact() {
    assert_eq!(break_lines(&[1, 2, 2, 2], 3), vec![(0, 2), (2, 3), (3, 4)]);
    assert_eq!(break_lines(&[1, 4, 4, 4], 9), vec![(0, 3), (3, 4)]);
    assert_eq!(break_lines(&[5, 1, 1], 3), vec![(0, 1), (1, 3)]);
    assert_eq!(break_lines(&[0, 0, 3, 0], 3), vec![(0, 4)]);
    assert_eq!(break_lines(&[], 3), vec![(0, 0)]);
    assert_eq!(break_lines(&[2, 2], 0), vec![(0, 1), (1, 2)]);
}

#[test]
fn wrap_of_leading_mark_only() {
    let p = Passage::new("");
    let lines = p.wrap(10, true);
    assert_eq!(lines.len(), 1);
    assert_eq!(lines[0].len(), 1);
}
