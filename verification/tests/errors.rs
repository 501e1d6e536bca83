use star_space::{Coord, Space, SpaceError, Star};

fn pair() -> Space {
    let mut space = Space::new();
    assert_eq!(space.add_star(Star::new("Sol", 0, 0)), Ok(()));
    assert_eq!(space.add_star(Star::new("Vega", 1, 0)), Ok(()));
    space
}

#[test]
fn second_star_at_a_coordinate_is_a_duplicate() {
    let mut space = Space::new();
    assert_eq!(space.add_star(Star::new("Sol", 7, 9)), Ok(()));
    assert_eq!(
        space.add_star(Star::new("Sol", 7, 9)),
        Err(SpaceError::DuplicateCoordinate)
    );
    assert_eq!(
        space.add_star(Star::new("Another name", 7, 9)),
        Err(SpaceError::DuplicateCoordinate)
    );
}

#[test]
fn swapped_coordinates_are_different_coordinates() {
    let mut space = Space::new();
    assert_eq!(space.add_star(Star::new("Sol", 7, 9)), Ok(()));
    assert_eq!(space.add_star(Star::new("Sol", 9, 7)), Ok(()));
}

#[test]
fn names_may_be_empty_or_shared() {
    let mut space = Space::new();
    assert_eq!(space.add_star(Star::new("", 0, 0)), Ok(()));
    assert_eq!(space.add_star(Star::new("", 0, 1)), Ok(()));
    assert_eq!(space.add_star(Star::new("Sol", 0, 2)), Ok(()));
    assert_eq!(space.add_star(Star::new("Sol", 0, 3)), Ok(()));
}

#[test]
fn link_from_a_missing_star_is_an_unknown_origin() {
    let mut space = pair();
    assert_eq!(
        space.create_link(Coord(5, 5), Coord(1, 0), 10),
        Err(SpaceError::UnknownOrigin)
    );
}

#[test]
fn link_to_a_missing_star_is_an_unknown_destination() {
    let mut space = pair();
    assert_eq!(
        space.create_link(Coord(0, 0), Coord(5, 5), 10),
        Err(SpaceError::UnknownDestination)
    );
}

#[test]
fn link_between_two_missing_stars_reports_the_origin() {
    let mut space = pair();
    assert_eq!(
        space.create_link(Coord(5, 5), Coord(6, 6), 10),
        Err(SpaceError::UnknownOrigin)
    );
    let mut empty = Space::new();
    assert_eq!(
        empty.create_link(Coord(0, 0), Coord(1, 0), 10),
        Err(SpaceError::UnknownOrigin)
    );
}

#[test]
fn a_star_may_be_linked_to_itself() {
    let mut space = pair();
    assert_eq!(space.create_link(Coord(0, 0), Coord(0, 0), 3), Ok(()));
    assert_eq!(
        space.distance(Coord(0, 0), Coord(0, 0)),
        Err(SpaceError::NoPath)
    );
    assert_eq!(
        space.distance(Coord(0, 0), Coord(1, 0)),
        Err(SpaceError::NoPath)
    );
}

#[test]
fn distance_from_a_missing_star_is_an_unknown_coordinate() {
    let mut space = pair();
    assert_eq!(
        space.distance(Coord(5, 5), Coord(1, 0)),
        Err(SpaceError::UnknownCoordinate)
    );
}

#[test]
fn distance_to_a_missing_star_is_an_unknown_coordinate() {
    let mut space = pair();
    assert_eq!(
        space.distance(Coord(0, 0), Coord(5, 5)),
        Err(SpaceError::UnknownCoordinate)
    );
    assert_eq!(
        space.distance(Coord(5, 5), Coord(5, 5)),
        Err(SpaceError::UnknownCoordinate)
    );
}

#[test]
fn distance_in_an_empty_space_is_an_unknown_coordinate() {
    let mut space = Space::new();
    assert_eq!(
        space.distance(Coord(0, 0), Coord(0, 0)),
        Err(SpaceError::UnknownCoordinate)
    );
}

#[test]
fn distance_without_links_is_no_path() {
    let mut space = pair();
    assert_eq!(
        space.distance(Coord(0, 0), Coord(1, 0)),
        Err(SpaceError::NoPath)
    );
}

#[test]
fn distance_from_a_star_to_itself_is_no_path() {
    let mut space = pair();
    assert_eq!(space.create_link(Coord(0, 0), Coord(1, 0), 10), Ok(()));
    assert_eq!(
        space.distance(Coord(0, 0), Coord(0, 0)),
        Err(SpaceError::NoPath)
    );
    assert_eq!(
        space.distance(Coord(1, 0), Coord(1, 0)),
        Err(SpaceError::NoPath)
    );
}

#[test]
fn distance_against_the_link_is_no_path() {
    let mut space = pair();
    assert_eq!(space.create_link(Coord(0, 0), Coord(1, 0), 10), Ok(()));
    assert_eq!(space.distance(Coord(0, 0), Coord(1, 0)), Ok(10));
    assert_eq!(
        space.distance(Coord(1, 0), Coord(0, 0)),
        Err(SpaceError::NoPath)
    );
}

#[test]
fn a_cost_of_nothing_is_no_path() {
    let mut space = pair();
    assert_eq!(space.create_link(Coord(0, 0), Coord(1, 0), 0), Ok(()));
    assert_eq!(
        space.distance(Coord(0, 0), Coord(1, 0)),
        Err(SpaceError::NoPath)
    );
}

#[test]
fn a_cost_below_nothing_is_no_path() {
    let mut space = pair();
    assert_eq!(space.create_link(Coord(0, 0), Coord(1, 0), -4), Ok(()));
    assert_eq!(
        space.distance(Coord(0, 0), Coord(1, 0)),
        Err(SpaceError::NoPath)
    );
}

#[test]
fn a_refused_star_leaves_the_space_as_it_was() {
    let mut space = pair();
    assert_eq!(space.create_link(Coord(0, 0), Coord(1, 0), 10), Ok(()));
    assert_eq!(
        space.add_star(Star::new("Sol again", 0, 0)),
        Err(SpaceError::DuplicateCoordinate)
    );
    assert_eq!(space.distance(Coord(0, 0), Coord(1, 0)), Ok(10));
    assert_eq!(space.add_star(Star::new("Deneb", 2, 0)), Ok(()));
}

#[test]
fn a_refused_link_leaves_the_space_as_it_was() {
    let mut space = pair();
    assert_eq!(space.create_link(Coord(0, 0), Coord(1, 0), 10), Ok(()));
    assert_eq!(
        space.create_link(Coord(0, 0), Coord(5, 5), 1),
        Err(SpaceError::UnknownDestination)
    );
    assert_eq!(
        space.create_link(Coord(5, 5), Coord(1, 0), 1),
        Err(SpaceError::UnknownOrigin)
    );
    assert_eq!(space.distance(Coord(0, 0), Coord(1, 0)), Ok(10));
    assert_eq!(
        space.distance(Coord(0, 0), Coord(5, 5)),
        Err(SpaceError::UnknownCoordinate)
    );
}

#[test]
fn a_query_leaves_the_space_as_it_was() {
    let mut space = pair();
    assert_eq!(space.create_link(Coord(0, 0), Coord(1, 0), 10), Ok(()));
    assert_eq!(space.distance(Coord(0, 0), Coord(1, 0)), Ok(10));
    assert_eq!(space.distance(Coord(0, 0), Coord(1, 0)), Ok(10));
    assert_eq!(
        space.distance(Coord(1, 0), Coord(0, 0)),
        Err(SpaceError::NoPath)
    );
    assert_eq!(space.distance(Coord(0, 0), Coord(1, 0)), Ok(10));
}
