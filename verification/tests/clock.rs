use mini_download_serve::clock::LocalTime;

#[test]
fn times_are_shown_by_the_clocks_of_their_place() {
    assert_eq!(LocalTime::new(0, 0).unwrap().show(), "1970-01-01 00:00:00");
    assert_eq!(LocalTime::new(1431648000, 0).unwrap().show(), "2015-05-15 00:00:00");
    assert_eq!(LocalTime::new(1431648000, 8 * 3600).unwrap().show(), "2015-05-15 08:00:00");
    assert_eq!(LocalTime::new(1431648000, -3600).unwrap().show(), "2015-05-14 23:00:00");
    assert_eq!(LocalTime::new(-1, 0).unwrap().show(), "1969-12-31 23:59:59");
}

#[test]
fn the_first_and_the_last_second_have_a_date() {
    assert_eq!(LocalTime::new(-8_334_601_228_800, 0).unwrap().show(), "-262143-01-01 00:00:00");
    assert_eq!(LocalTime::new(8_210_266_876_799, 0).unwrap().show(), "+262142-12-31 23:59:59");
    LocalTime::new(-8_334_601_228_800, -86_399).unwrap().show();
    LocalTime::new(8_210_266_876_799, 86_399).unwrap().show();
}

#[test]
fn other_seconds_have_none() {
    assert!(LocalTime::new(-8_334_601_228_801, 0).is_none());
    assert!(LocalTime::new(8_210_266_876_800, 0).is_none());
    assert!(LocalTime::new(0, 86_400).is_none());
    assert!(LocalTime::new(0, -86_400).is_none());
}
