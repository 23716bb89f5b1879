use secure_notes::priority::Priority;

#[test]
fn selector_on_creation_defaults_to_medium() {
    assert_eq!(Priority::from_choice(Some(1)), Priority::High);
    assert_eq!(Priority::from_choice(Some(2)), Priority::Medium);
    assert_eq!(Priority::from_choice(Some(3)), Priority::Low);
    assert_eq!(Priority::from_choice(Some(4)), Priority::Medium);
    assert_eq!(Priority::from_choice(Some(0)), Priority::Medium);
    assert_eq!(Priority::from_choice(Some(-1)), Priority::Medium);
    assert_eq!(Priority::from_choice(Some(i32::MAX)), Priority::Medium);
    assert_eq!(Priority::from_choice(None), Priority::Medium);
}

#[test]
fn selector_on_a_change_defaults_to_no_change() {
    assert_eq!(Priority::from_change(Some(1)), Some(Priority::High));
    assert_eq!(Priority::from_change(Some(2)), Some(Priority::Medium));
    assert_eq!(Priority::from_change(Some(3)), Some(Priority::Low));
    assert_eq!(Priority::from_change(Some(0)), None);
    assert_eq!(Priority::from_change(Some(4)), None);
    assert_eq!(Priority::from_change(None), None);
}

#[test]
fn labels_are_the_three_names() {
    assert_eq!(Priority::High.label(), "High");
    assert_eq!(Priority::Medium.label(), "Medium");
    assert_eq!(Priority::Low.label(), "Low");
}

#[test]
fn every_label_names_its_priority() {
    for p in [Priority::High, Priority::Medium, Priority::Low] {
        assert_eq!(Priority::from_label(p.label()), p);
    }
}

#[test]
fn a_text_that_is_no_label_is_medium() {
    assert_eq!(Priority::from_label(""), Priority::Medium);
    assert_eq!(Priority::from_label("high"), Priority::Medium);
    assert_eq!(Priority::from_label("Urgent"), Priority::Medium);
    assert_eq!(Priority::from_label(" High"), Priority::Medium);
}

#[test]
fn ranks_put_high_first() {
    assert_eq!(Priority::High.rank(), 1);
    assert_eq!(Priority::Medium.rank(), 2);
    assert_eq!(Priority::Low.rank(), 3);
}
