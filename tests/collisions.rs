use birthday_paradox::{detect_collision, find_duplicate, has_duplicate, Birthday};

fn birthdays(days: &[u16]) -> Vec<Birthday> {
    days.iter().map(|&d| Birthday::new(d)).collect()
}

#[test]
fn injected_sequence_collides_at_third_entry() {
    let set = birthdays(&[10, 200, 10]);
    let found = detect_collision(&set).unwrap();
    assert_eq!(found.0, 2);
    assert_eq!(found.1.day_of_year(), 10);
}

#[test]
fn distinct_days_have_no_collision() {
    let set = birthdays(&[0, 64, 128, 192, 256, 320, 364, 63, 65]);
    assert!(detect_collision(&set).is_none());
    assert!(find_duplicate(&set).is_none());
    assert!(!has_duplicate(&set));
}

#[test]
fn first_repeat_in_scan_order_is_reported() {
    // 7 repeats first (at index 3), although 5 repeats later with an earlier
    // first occurrence.
    let set = birthdays(&[5, 7, 9, 7, 5]);
    let found = detect_collision(&set).unwrap();
    assert_eq!(found.0, 3);
    assert_eq!(found.1.day_of_year(), 7);
    assert_eq!(find_duplicate(&set).unwrap().day_of_year(), 7);
    assert!(has_duplicate(&set));
}

#[test]
fn single_birthday_has_no_collision() {
    assert!(detect_collision(&birthdays(&[42])).is_none());
    assert!(detect_collision(&birthdays(&[])).is_none());
}

#[test]
fn last_day_of_year_repeat() {
    let set = birthdays(&[364, 0, 364]);
    assert_eq!(detect_collision(&set).unwrap().0, 2);
}

#[test]
fn same_bit_in_other_word_is_not_a_repeat() {
    // 1 and 65 share bit 1 of different words.
    let set = birthdays(&[1, 65, 129, 193, 257, 321]);
    assert!(!has_duplicate(&set));
}

#[test]
fn full_year_then_repeat() {
    let mut days: Vec<u16> = (0..365).collect();
    days.push(100);
    let set = birthdays(&days);
    let found = detect_collision(&set).unwrap();
    assert_eq!(found.0, 365);
    assert_eq!(found.1.day_of_year(), 100);
}
