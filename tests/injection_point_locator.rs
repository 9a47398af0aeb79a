use inject_browser_sdk::injection_point_locator::{InjectionPointLocator, Location};

#[test]
fn basic() {
    let mut locator = InjectionPointLocator::new();
    assert_eq!(locator.scan(b"abc</head>def"), Location::MatchFromIndex(3));
}

#[test]
fn streaming() {
    let mut locator = InjectionPointLocator::new();
    assert_eq!(locator.scan(b""), Location::Nothing);
    assert_eq!(locator.scan(b"a"), Location::Nothing);
    assert_eq!(locator.scan(b" "), Location::Nothing);
    assert_eq!(locator.scan(b" <"), Location::PotentialFromIndex(1));
    assert_eq!(locator.scan(b""), Location::PotentialFromPreviousChunk);
    assert_eq!(locator.scan(b"/"), Location::PotentialFromPreviousChunk);
    assert_eq!(locator.scan(b"head>"), Location::MatchFromPreviousChunk);
    assert_eq!(locator.scan(b""), Location::Nothing);
    assert_eq!(locator.scan(b"a"), Location::Nothing);
}

#[test]
fn injection_point_locator_casing() {
    let mut locator = InjectionPointLocator::new();
    assert_eq!(locator.scan(b"abc</HEAD>def"), Location::MatchFromIndex(3));
}

#[test]
fn space_tolerant() {
    let mut locator = InjectionPointLocator::new();
    assert_eq!(
        locator.scan(b"abc</\n\r head \n\t>def"),
        Location::MatchFromIndex(3)
    );
}

#[test]
fn scan_stops_at_first_match() {
    let mut locator = InjectionPointLocator::new();
    assert_eq!(locator.scan(b"a</head>b</he"), Location::MatchFromIndex(1));
    assert_eq!(locator.scan(b"ad>"), Location::Nothing);
}

#[test]
fn scan_latest_open_wins() {
    let mut locator = InjectionPointLocator::new();
    assert_eq!(locator.scan(b"</he<x<"), Location::PotentialFromIndex(6));
    assert_eq!(locator.scan(b"/"), Location::PotentialFromPreviousChunk);
    assert_eq!(locator.scan(b"x"), Location::Nothing);
    assert_eq!(locator.scan(b"head>"), Location::Nothing);
}

#[test]
fn scan_whitespace_only_before_h_and_before_close() {
    let mut locator = InjectionPointLocator::new();
    assert_eq!(locator.scan(b"< /head>"), Location::Nothing);
    assert_eq!(locator.scan(b"</h ead>"), Location::Nothing);
    assert_eq!(locator.scan(b"</he ad>"), Location::Nothing);
    assert_eq!(locator.scan(b"</hea d>"), Location::Nothing);
    assert_eq!(locator.scan(b"</ \t\nhead \n>"), Location::MatchFromIndex(0));
    assert_eq!(locator.scan(b"</\x0chead\r>"), Location::MatchFromIndex(0));
    assert_eq!(locator.scan(b"</\x0bhead>"), Location::Nothing);
}
