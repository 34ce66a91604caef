use tile2048::direction::Direction;

#[test]
fn vi_keys_parse_to_directions() {
    assert_eq!(Direction::try_from("h"), Ok(Direction::Left));
    assert_eq!(Direction::try_from("j"), Ok(Direction::Down));
    assert_eq!(Direction::try_from("k"), Ok(Direction::Up));
    assert_eq!(Direction::try_from("l"), Ok(Direction::Right));
}

#[test]
fn spelled_names_parse_to_directions() {
    assert_eq!(Direction::try_from("Left"), Ok(Direction::Left));
    assert_eq!(Direction::try_from("Up"), Ok(Direction::Up));
    assert_eq!(Direction::try_from("Down"), Ok(Direction::Down));
    assert_eq!(Direction::try_from("Right"), Ok(Direction::Right));
}

#[test]
fn unrecognized_tokens_are_rejected() {
    assert_eq!(Direction::try_from(""), Err(()));
    assert_eq!(Direction::try_from("left"), Err(()));
    assert_eq!(Direction::try_from("x"), Err(()));
    assert_eq!(Direction::try_from("hh"), Err(()));
    assert_eq!(Direction::try_from("Left "), Err(()));
}
