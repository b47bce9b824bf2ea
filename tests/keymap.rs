use shuangpin::input::{KeyMap, KeyMapError};

const SAMPLE: &str = "# a scheme\nname : Sample\nleader: *\nsplit_er:0\n\n  zh : v \nang:h\nleader_er : r\nang : k\n";

#[test]
fn parse_reads_settings_and_table() {
    let km = KeyMap::parse(SAMPLE).unwrap();
    assert_eq!(km.name, "Sample");
    assert_eq!(km.leader, '*');
    assert!(!km.split_er);
    assert_eq!(km.keys("zh"), &['v']);
    assert_eq!(km.keys("ang"), &['k']);
    assert_eq!(km.keys("er"), &['r']);
    assert!(km.keys("sh").is_empty());
}

#[test]
fn parse_defaults() {
    let km = KeyMap::parse("").unwrap();
    assert_eq!(km.leader, 'o');
    assert!(km.split_er);
    assert_eq!(km.name, "");
}

#[test]
fn parse_missing_delimiter() {
    assert_eq!(KeyMap::parse("zh:v\nsh u\n").err(), Some(KeyMapError::MissingDelimiter(1)));
}

#[test]
fn parse_missing_key() {
    assert_eq!(KeyMap::parse("leader:   \n").err(), Some(KeyMapError::MissingKey(0)));
    assert_eq!(KeyMap::parse("a:b\nsplit_er:\n").err(), Some(KeyMapError::MissingKey(1)));
}

#[test]
fn set_keys_replaces() {
    let mut km = KeyMap::new('o', String::new(), true);
    km.set_keys("a", vec!['a']);
    km.set_keys("a", vec!['b', 'c']);
    assert_eq!(km.keys("a"), &['b', 'c']);
    assert_eq!(km.map.len(), 1);
}

#[test]
fn parse_trims_unicode_space() {
    let km = KeyMap::parse("\tzh\t:\u{3000}v\u{a0}\r\nname: Wide Name \r\n").unwrap();
    assert_eq!(km.keys("zh"), &['v']);
    assert_eq!(km.name, "Wide Name");
}

#[test]
fn parse_value_stops_at_second_colon() {
    let km = KeyMap::parse("ang : hk : x\n").unwrap();
    assert_eq!(km.keys("ang"), &['h', 'k']);
}

#[test]
fn parse_comment_after_space() {
    let km = KeyMap::parse("   # leader: x\n").unwrap();
    assert_eq!(km.leader, 'o');
}
