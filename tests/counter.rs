use shuangpin::input::Counter;

#[test]
fn counter_counts() {
    let mut c = Counter::new(5, String::from("ms"), 1000);
    assert_eq!(c.get_total_words(), 5);
    c.add_typed_words();
    c.add_typed_words();
    c.add_mistake();
    assert_eq!(c.get_typed_words(), 2);
    assert_eq!(c.get_mistakes(), 1);
    assert_eq!(c.get_key_map_name(), "ms");
}

#[test]
fn counter_clock_stops_when_locked() {
    let mut c = Counter::new(5, String::from("ms"), 1000);
    assert_eq!(c.get_interval(4000), 3000);
    assert_eq!(c.get_interval(500), 0);
    c.lock(7000);
    assert_eq!(c.get_interval(90000), 6000);
}

#[test]
fn counter_speed() {
    let mut c = Counter::new(5, String::from("ms"), 0);
    c.add_typed_words();
    c.add_typed_words();
    assert_eq!(c.get_speed(999), None);
    assert_eq!(c.get_speed(30000), Some(4));
}

#[test]
fn counter_mistakes_saturate() {
    let mut c = Counter::new(1, String::new(), 0);
    c.mistakes = u32::MAX;
    c.add_mistake();
    assert_eq!(c.get_mistakes(), u32::MAX);
}
