use star_space::{Coord, Link, Space, SpaceError, Star};

fn row(stars: usize) -> Space {
    let mut space = Space::new();
    for x in 0..stars {
        assert_eq!(space.add_star(Star::new("Star", x, 0)), Ok(()));
    }
    space
}

fn chain(stars: usize, weight: i64) -> Space {
    let mut space = row(stars);
    for x in 1..stars {
        assert_eq!(space.create_link(Coord(x - 1, 0), Coord(x, 0), weight), Ok(()));
    }
    space
}

#[test]
fn a_new_star_has_its_name_its_place_and_no_links() {
    let star = Star::new("Sol", 3, 4);
    assert_eq!(star.name, "Sol");
    assert_eq!(star.coord, Coord(3, 4));
    assert_eq!(star.coord(), Coord(3, 4));
    assert!(star.links().is_empty());
}

#[test]
fn a_link_holds_its_cost_and_its_end() {
    let link = Link::new(-7, Coord(1, 2));
    assert_eq!(link.distance, -7);
    assert_eq!(link.end, Coord(1, 2));
    assert_eq!(link, Link { distance: -7, end: Coord(1, 2) });
}

#[test]
fn coordinates_are_equal_by_value() {
    assert_eq!(Coord(1, 2), Coord(1, 2));
    assert_ne!(Coord(1, 2), Coord(2, 1));
    assert_ne!(Coord(1, 2), Coord(1, 3));
}

#[test]
fn the_cheaper_of_two_routes_is_taken() {
    let mut space = row(4);
    assert_eq!(space.create_link(Coord(0, 0), Coord(1, 0), 5), Ok(()));
    assert_eq!(space.create_link(Coord(0, 0), Coord(3, 0), 1), Ok(()));
    assert_eq!(space.create_link(Coord(1, 0), Coord(2, 0), 5), Ok(()));
    assert_eq!(space.create_link(Coord(3, 0), Coord(2, 0), 2), Ok(()));
    assert_eq!(space.distance(Coord(0, 0), Coord(2, 0)), Ok(3));
}

#[test]
fn the_cheaper_route_is_taken_whichever_link_came_first() {
    let mut space = row(4);
    assert_eq!(space.create_link(Coord(0, 0), Coord(3, 0), 1), Ok(()));
    assert_eq!(space.create_link(Coord(0, 0), Coord(1, 0), 5), Ok(()));
    assert_eq!(space.create_link(Coord(3, 0), Coord(2, 0), 2), Ok(()));
    assert_eq!(space.create_link(Coord(1, 0), Coord(2, 0), 5), Ok(()));
    assert_eq!(space.distance(Coord(0, 0), Coord(2, 0)), Ok(3));
}

#[test]
fn the_cheaper_of_two_links_between_two_stars_is_taken() {
    let mut space = row(2);
    assert_eq!(space.create_link(Coord(0, 0), Coord(1, 0), 9), Ok(()));
    assert_eq!(space.create_link(Coord(0, 0), Coord(1, 0), 4), Ok(()));
    assert_eq!(space.create_link(Coord(0, 0), Coord(1, 0), 6), Ok(()));
    assert_eq!(space.distance(Coord(0, 0), Coord(1, 0)), Ok(4));
}

#[test]
fn a_direct_link_is_not_taken_where_a_detour_is_cheaper() {
    let mut space = row(3);
    assert_eq!(space.create_link(Coord(0, 0), Coord(2, 0), 10), Ok(()));
    assert_eq!(space.create_link(Coord(0, 0), Coord(1, 0), 2), Ok(()));
    assert_eq!(space.create_link(Coord(1, 0), Coord(2, 0), 3), Ok(()));
    assert_eq!(space.distance(Coord(0, 0), Coord(2, 0)), Ok(5));
}

#[test]
fn negative_costs_are_added_like_the_others() {
    let mut space = row(3);
    assert_eq!(space.create_link(Coord(0, 0), Coord(1, 0), -5), Ok(()));
    assert_eq!(space.create_link(Coord(1, 0), Coord(2, 0), 20), Ok(()));
    assert_eq!(space.distance(Coord(0, 0), Coord(2, 0)), Ok(15));
    assert_eq!(
        space.distance(Coord(0, 0), Coord(1, 0)),
        Err(SpaceError::NoPath)
    );
}

#[test]
fn a_dead_end_counts_with_the_cost_of_its_links() {
    // (0,0) -> (1,0) ends at a star without links; (2,0) is not reached.
    let mut space = row(3);
    assert_eq!(space.create_link(Coord(0, 0), Coord(1, 0), 5), Ok(()));
    assert_eq!(space.distance(Coord(0, 0), Coord(2, 0)), Ok(5));
}

#[test]
fn a_dead_end_may_cost_less_than_the_way_to_the_destination() {
    let mut space = row(4);
    assert_eq!(space.create_link(Coord(0, 0), Coord(1, 0), 5), Ok(()));
    assert_eq!(space.create_link(Coord(0, 0), Coord(3, 0), 10), Ok(()));
    assert_eq!(space.create_link(Coord(3, 0), Coord(2, 0), 5), Ok(()));
    assert_eq!(space.distance(Coord(0, 0), Coord(2, 0)), Ok(5));
}

#[test]
fn a_dead_end_that_costs_nothing_is_no_path() {
    let mut space = row(3);
    assert_eq!(space.create_link(Coord(0, 0), Coord(1, 0), 0), Ok(()));
    assert_eq!(
        space.distance(Coord(0, 0), Coord(2, 0)),
        Err(SpaceError::NoPath)
    );
}

#[test]
fn links_in_a_circle_are_followed_once() {
    let mut space = row(3);
    assert_eq!(space.create_link(Coord(0, 0), Coord(1, 0), 1), Ok(()));
    assert_eq!(space.create_link(Coord(1, 0), Coord(0, 0), 1), Ok(()));
    assert_eq!(space.create_link(Coord(1, 0), Coord(2, 0), 1), Ok(()));
    assert_eq!(space.distance(Coord(0, 0), Coord(2, 0)), Ok(2));
    assert_eq!(space.distance(Coord(1, 0), Coord(2, 0)), Ok(1));
    assert_eq!(space.distance(Coord(0, 0), Coord(1, 0)), Ok(1));
    assert_eq!(space.distance(Coord(1, 0), Coord(0, 0)), Ok(1));
}

#[test]
fn a_circle_that_misses_the_destination_ends_where_it_closes() {
    let mut space = row(3);
    assert_eq!(space.create_link(Coord(0, 0), Coord(1, 0), 5), Ok(()));
    assert_eq!(space.create_link(Coord(1, 0), Coord(0, 0), 7), Ok(()));
    assert_eq!(space.distance(Coord(0, 0), Coord(2, 0)), Ok(5));
    assert_eq!(space.distance(Coord(1, 0), Coord(2, 0)), Ok(7));
}

#[test]
fn a_star_passed_on_one_route_is_open_on_another() {
    // Both routes from (0,0) lead through (3,0).
    let mut space = row(5);
    assert_eq!(space.create_link(Coord(0, 0), Coord(1, 0), 1), Ok(()));
    assert_eq!(space.create_link(Coord(0, 0), Coord(2, 0), 2), Ok(()));
    assert_eq!(space.create_link(Coord(1, 0), Coord(3, 0), 10), Ok(()));
    assert_eq!(space.create_link(Coord(2, 0), Coord(3, 0), 3), Ok(()));
    assert_eq!(space.create_link(Coord(3, 0), Coord(4, 0), 4), Ok(()));
    assert_eq!(space.distance(Coord(0, 0), Coord(4, 0)), Ok(9));
}

#[test]
fn a_chain_is_as_long_as_its_links_together() {
    for stars in 2..8usize {
        for weight in [1i64, 5, 12] {
            let mut space = chain(stars, weight);
            assert_eq!(
                space.distance(Coord(0, 0), Coord(stars - 1, 0)),
                Ok(weight as i128 * (stars as i128 - 1))
            );
        }
    }
}

#[test]
fn a_chain_of_four_links_of_seven_is_twenty_eight() {
    let mut space = chain(5, 7);
    assert_eq!(space.distance(Coord(0, 0), Coord(4, 0)), Ok(28));
    assert_eq!(space.distance(Coord(1, 0), Coord(4, 0)), Ok(21));
    assert_eq!(space.distance(Coord(0, 0), Coord(2, 0)), Ok(14));
    assert_eq!(
        space.distance(Coord(4, 0), Coord(0, 0)),
        Err(SpaceError::NoPath)
    );
}

#[test]
fn a_chain_of_one_star_has_no_distance() {
    let mut space = chain(1, 5);
    assert_eq!(
        space.distance(Coord(0, 0), Coord(0, 0)),
        Err(SpaceError::NoPath)
    );
}

#[test]
fn a_chain_without_cost_has_no_distance() {
    let mut space = chain(4, 0);
    assert_eq!(
        space.distance(Coord(0, 0), Coord(3, 0)),
        Err(SpaceError::NoPath)
    );
    let mut space = chain(4, -3);
    assert_eq!(
        space.distance(Coord(0, 0), Coord(3, 0)),
        Err(SpaceError::NoPath)
    );
}

#[test]
fn the_largest_costs_add_up_beyond_sixty_four_bits() {
    let mut space = chain(4, i64::MAX);
    assert_eq!(
        space.distance(Coord(0, 0), Coord(3, 0)),
        Ok(3 * (i64::MAX as i128))
    );
    assert_eq!(
        space.distance(Coord(0, 0), Coord(3, 0)),
        Ok(27_670_116_110_564_327_421)
    );
}

#[test]
fn the_smallest_costs_add_up_to_no_path() {
    let mut space = chain(4, i64::MIN);
    assert_eq!(
        space.distance(Coord(0, 0), Coord(3, 0)),
        Err(SpaceError::NoPath)
    );
}

#[test]
fn stars_far_apart_on_the_plane_are_stars_like_others() {
    let mut space = Space::new();
    let near = Coord(0, usize::MAX);
    let far = Coord(usize::MAX, 0);
    assert_eq!(space.add_star(Star::new("Near", near.0, near.1)), Ok(()));
    assert_eq!(space.add_star(Star::new("Far", far.0, far.1)), Ok(()));
    assert_eq!(space.create_link(near, far, 42), Ok(()));
    assert_eq!(space.distance(near, far), Ok(42));
}
