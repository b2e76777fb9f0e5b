use roadnet::route::{
    CompassDirection, Route, Turn, TurnDirection, TurnMultiplicity, TurningPattern,
};

fn pattern(turn: Turn, count: TurnMultiplicity) -> TurningPattern {
    TurningPattern { turn, count }
}

#[test]
fn test_parse_route_without_patterns() {
    let actual = Route::parse("1 -1.825 200.0 1");
    assert_eq!(actual.start_link, 1);
    assert_eq!(actual.offset_text, "-1.825");
    assert_eq!(actual.distance_text, "200.0");
    assert_eq!(actual.trav_dir, 1);
    assert!(actual.patterns.is_empty());
}

#[test]
fn test_parse_route_extra_whitespace() {
    let actual = Route::parse(" 1  -1.825  200.0 1");
    assert_eq!(actual.start_link, 1);
    assert_eq!(actual.offset_text, "-1.825");
    assert_eq!(actual.distance_text, "200.0");
    assert_eq!(actual.trav_dir, 1);
    assert!(actual.patterns.is_empty());
}

#[test]
fn test_parse_route_one_pattern() {
    let actual = Route::parse("1 -1.825 200.0 1 Relative:Straight Count:1");
    assert_eq!(actual.start_link, 1);
    assert_eq!(actual.trav_dir, 1);
    assert_eq!(
        actual.patterns,
        vec![pattern(
            Turn::Relative(TurnDirection::Straight),
            TurnMultiplicity::Count(1)
        )]
    );
}

#[test]
fn test_parse_route_two_patterns_compass() {
    let actual = Route::parse("1 -1.825 200.0 1 Relative:Straight Count:1 Compass:North Count:1");
    assert_eq!(
        actual.patterns,
        vec![
            pattern(
                Turn::Relative(TurnDirection::Straight),
                TurnMultiplicity::Count(1)
            ),
            pattern(
                Turn::Compass(CompassDirection::North),
                TurnMultiplicity::Count(1)
            ),
        ]
    );
}

#[test]
fn test_parse_route_exit_pattern() {
    let actual = Route::parse("1 -1.825 200.0 1 Relative:Straight Count:1 Exit:2 Count:1");
    assert_eq!(
        actual.patterns,
        vec![
            pattern(
                Turn::Relative(TurnDirection::Straight),
                TurnMultiplicity::Count(1)
            ),
            pattern(Turn::Exit(2), TurnMultiplicity::Count(1)),
        ]
    );
}

#[test]
fn test_parse_route_heading_pattern() {
    let actual = Route::parse("1 -1.825 200.0 1 Relative:Straight Count:1 Heading:90 Count:1");
    assert_eq!(
        actual.patterns,
        vec![
            pattern(
                Turn::Relative(TurnDirection::Straight),
                TurnMultiplicity::Count(1)
            ),
            pattern(Turn::Heading(90), TurnMultiplicity::Count(1)),
        ]
    );
}

#[test]
fn test_parse_route_always() {
    let actual = Route::parse("1 -1.825 200.0 1 Relative:Straight Always");
    assert_eq!(
        actual.patterns,
        vec![pattern(
            Turn::Relative(TurnDirection::Straight),
            TurnMultiplicity::Always
        )]
    );
}

#[test]
fn test_parse_route_two_relative_patterns() {
    let actual = Route::parse("1 -1.825 200.0 1 Relative:Straight Count:1 Relative:Right Count:1");
    assert_eq!(
        actual.patterns,
        vec![
            pattern(
                Turn::Relative(TurnDirection::Straight),
                TurnMultiplicity::Count(1)
            ),
            pattern(
                Turn::Relative(TurnDirection::Right),
                TurnMultiplicity::Count(1)
            ),
        ]
    );
}

#[test]
fn test_parse_route_drops_bad_pair() {
    let actual = Route::parse("1 0.0 0.0 1 Bogus:Thing Count:1 Compass:South Always");
    assert_eq!(
        actual.patterns,
        vec![pattern(
            Turn::Compass(CompassDirection::South),
            TurnMultiplicity::Always
        )]
    );
}

#[test]
fn test_parse_route_ignores_trailing_token() {
    let actual = Route::parse("1 0.0 0.0 1 Compass:South Always Relative:Left");
    assert_eq!(
        actual.patterns,
        vec![pattern(
            Turn::Compass(CompassDirection::South),
            TurnMultiplicity::Always
        )]
    );
}

#[test]
fn test_parse_route_commits_leading_fields_at_end() {
    let actual = Route::parse("2 1.5 3.5 -1");
    assert_eq!(actual.start_link, 2);
    assert_eq!(actual.offset_text, "1.5");
    assert_eq!(actual.distance_text, "3.5");
    assert_eq!(actual.trav_dir, -1);
    assert!(actual.patterns.is_empty());
}

#[test]
fn test_parse_route_short_inputs() {
    let one = Route::parse("7");
    assert_eq!(one.start_link, 7);
    assert_eq!(one.offset_text, "");
    assert_eq!(one.trav_dir, 1);
    let two = Route::parse("7 2.25");
    assert_eq!(two.start_link, 7);
    assert_eq!(two.offset_text, "2.25");
    assert_eq!(two.distance_text, "");
    assert_eq!(two.trav_dir, 1);
}

#[test]
fn test_parse_route_defaults() {
    let actual = Route::parse("");
    assert_eq!(actual.start_link, 0);
    assert_eq!(actual.offset_text, "");
    assert_eq!(actual.distance_text, "");
    assert_eq!(actual.trav_dir, 1);
    assert!(actual.patterns.is_empty());
}

#[test]
fn test_parse_route_bad_start_link_defaults_to_zero() {
    let actual = Route::parse("x 1.0 2.0 -1 Compass:North Always");
    assert_eq!(actual.start_link, 0);
    assert_eq!(actual.trav_dir, -1);
}

#[test]
fn test_parse_turn() {
    assert_eq!(
        Turn::parse("Relative:Straight"),
        Some(Turn::Relative(TurnDirection::Straight))
    );
    assert_eq!(
        Turn::parse("Compass:North"),
        Some(Turn::Compass(CompassDirection::North))
    );
    assert_eq!(
        Turn::parse("Compass:NorthEast"),
        Some(Turn::Compass(CompassDirection::NorthEast))
    );
    assert_eq!(
        Turn::parse("Compass:East"),
        Some(Turn::Compass(CompassDirection::East))
    );
    assert_eq!(
        Turn::parse("Compass:SouthEast"),
        Some(Turn::Compass(CompassDirection::SouthEast))
    );
    assert_eq!(
        Turn::parse("Compass:South"),
        Some(Turn::Compass(CompassDirection::South))
    );
    assert_eq!(
        Turn::parse("Compass:SouthWest"),
        Some(Turn::Compass(CompassDirection::SouthWest))
    );
    assert_eq!(
        Turn::parse("Compass:West"),
        Some(Turn::Compass(CompassDirection::West))
    );
    assert_eq!(
        Turn::parse("Compass:NorthWest"),
        Some(Turn::Compass(CompassDirection::NorthWest))
    );
    assert_eq!(Turn::parse("Exit:3"), Some(Turn::Exit(3)));
    assert_eq!(Turn::parse("Heading:135"), Some(Turn::Heading(135)));
    assert_eq!(Turn::parse("Exit:300"), None);
    assert_eq!(Turn::parse("Relative:Sideways"), None);
    assert_eq!(Turn::parse("NoColonHere"), None);
    assert_eq!(Turn::parse("Too:Many:Colons"), None);
}

#[test]
fn test_parse_turn_multiplicity() {
    assert_eq!(
        TurnMultiplicity::parse("Count:1"),
        Some(TurnMultiplicity::Count(1))
    );
    assert_eq!(
        TurnMultiplicity::parse("Always"),
        Some(TurnMultiplicity::Always)
    );
    assert_eq!(TurnMultiplicity::parse("Count:x"), None);
    assert_eq!(TurnMultiplicity::parse("Sometimes"), None);
}

#[test]
fn test_parse_turning_pattern() {
    assert_eq!(
        TurningPattern::parse_pair("Relative:Straight", "Count:1"),
        Some(pattern(
            Turn::Relative(TurnDirection::Straight),
            TurnMultiplicity::Count(1)
        ))
    );
    assert_eq!(
        TurningPattern::parse_pair("Compass:North", "Count:1"),
        Some(pattern(
            Turn::Compass(CompassDirection::North),
            TurnMultiplicity::Count(1)
        ))
    );
    assert_eq!(
        TurningPattern::parse_pair("Exit:1", "Count:1"),
        Some(pattern(Turn::Exit(1), TurnMultiplicity::Count(1)))
    );
    assert_eq!(
        TurningPattern::parse_pair("Heading:90", "Count:1"),
        Some(pattern(Turn::Heading(90), TurnMultiplicity::Count(1)))
    );
}

#[test]
fn test_route_empty_defaults() {
    let r = Route::empty();
    assert_eq!(r.start_link, 0);
    assert_eq!(r.trav_dir, 1);
    assert!(r.patterns.is_empty());
}
