//! The space: the registry that owns the stars.

use vstd::prelude::*;
use crate::chart::{
    inserted, is_chart, lemma_inserted_is_chart, lemma_linked_is_chart, linked, with_link, Chart,
};
use crate::error::SpaceError;
use crate::route::{cost_from, least_via, lemma_cost_bounds, lemma_least_bounds, measured};
use crate::star::{Coord, Link, Star, StarView};

verus! {

/// The registry of stars, keyed by coordinate.
///
/// A space owns its stars. No coordinate holds two stars, and every link of a
/// star in the space ends at a star of the space; stars are never removed, so
/// both hold for as long as the space lives. The stars are kept in the order
/// in which they came, and a star is found again by its coordinate.
pub struct Space {
    stars: Vec<Star>,
}

impl View for Space {
    type V = Chart;

    closed spec fn view(&self) -> Chart {
        chart_of(self.views())
    }
}

impl Space {
    /// The stars of the space as mathematical values, in the order in which
    /// they were inserted.
    spec fn views(&self) -> Seq<StarView> {
        self.stars@.map_values(|s: Star| s@)
    }

    #[verifier::type_invariant]
    spec fn well_formed(&self) -> bool {
        &&& coords_of(self.views()).no_duplicates()
        &&& is_chart(chart_of(self.views()))
    }

    /// A space without stars.
    pub fn new() -> (space: Space)
        ensures
            space@ == Map::<Coord, StarView>::empty(),
            is_chart(space@),
    {
        let stars: Vec<Star> = Vec::new();
        proof {
            lemma_no_stars(stars@);
        }
        Space { stars }
    }

    /// Where in the registry the star at `coord` is kept, if there is one.
    fn position(&self, coord: Coord) -> (found: Option<usize>)
        ensures
            match found {
                Some(i) => i < self.views().len() && self.views()[i as int].coord == coord
                    && self@.contains_key(coord),
                None => !self@.contains_key(coord),
            },
    {
        let mut i: usize = 0;
        while i < self.stars.len()
            invariant
                i <= self.stars.len(),
                self.views().len() == self.stars.len(),
                forall|j: int| 0 <= j < i ==> coords_of(self.views())[j] != coord,
            decreases self.stars.len() - i,
        {
            if self.stars[i].coord() == coord {
                assert(coords_of(self.views())[i as int] == coord);
                return Some(i);
            }
            i += 1;
        }
        None
    }

    /// Hands `star` over to the space.
    ///
    /// The star is stored under its coordinate. Where a star already stands
    /// there, the space keeps the one it has and refuses the new one. Nothing
    /// else is asked of the star: its name may be empty, or that of another.
    ///
    /// A star comes without links: links are made by
    /// [`create_link`](Space::create_link), between stars of the space.
    pub fn add_star(&mut self, star: Star) -> (outcome: Result<(), SpaceError>)
        requires
            star@.links.len() == 0,
        ensures
            is_chart(final(self)@),
            match outcome {
                Ok(_) => inserted(old(self)@, star@) == Ok::<Chart, SpaceError>(final(self)@),
                Err(error) => inserted(old(self)@, star@) == Err::<Chart, SpaceError>(error)
                    && *final(self) == *old(self),
            },
    {
        proof {
            use_type_invariant(&*self);
        }
        match self.position(star.coord()) {
            Some(_) => Err(SpaceError::DuplicateCoordinate),
            None => {
                let mut stars: Vec<Star> = Vec::new();
                proof {
                    lemma_no_stars(stars@);
                }
                std::mem::swap(&mut stars, &mut self.stars);
                proof {
                    let before = stars@.map_values(|s: Star| s@);
                    lemma_chart_push(before, star@);
                    assert(stars@.push(star).map_values(|s: Star| s@) =~= before.push(star@));
                    lemma_inserted_is_chart(chart_of(before), star@);
                }
                stars.push(star);
                self.stars = stars;
                Ok(())
            },
        }
    }

    /// Makes a one-way link from the star at `start` to the star at `end`,
    /// travelled at the cost `distance`.
    ///
    /// Both stars must be in the space; the origin is looked for first. The
    /// link is added behind the links that the origin already has. The star at
    /// `end` is left as it is: no link back is made. Any cost is taken, zero
    /// and negative ones too, and so is a second link between the same stars.
    pub fn create_link(&mut self, start: Coord, end: Coord, distance: i64) -> (outcome: Result<(), SpaceError>)
        ensures
            is_chart(final(self)@),
            match outcome {
                Ok(_) => linked(old(self)@, start, end, distance) == Ok::<Chart, SpaceError>(
                    final(self)@,
                ),
                Err(error) => linked(old(self)@, start, end, distance) == Err::<Chart, SpaceError>(
                    error,
                ) && *final(self) == *old(self),
            },
    {
        proof {
            use_type_invariant(&*self);
        }
        let origin = match self.position(start) {
            Some(i) => i,
            None => {
                return Err(SpaceError::UnknownOrigin);
            },
        };
        match self.position(end) {
            None => Err(SpaceError::UnknownDestination),
            Some(_) => {
                let link = Link::new(distance, end);
                let mut stars: Vec<Star> = Vec::new();
                proof {
                    lemma_no_stars(stars@);
                }
                std::mem::swap(&mut stars, &mut self.stars);
                let ghost before = stars@.map_values(|s: Star| s@);
                stars[origin].attach(link);
                proof {
                    let grown = with_link(before[origin as int], link);
                    assert(stars@.map_values(|s: Star| s@) =~= before.update(origin as int, grown));
                    lemma_chart_at(before, origin as int);
                    lemma_chart_update(before, origin as int, grown);
                    lemma_linked_is_chart(chart_of(before), start, end, distance);
                }
                self.stars = stars;
                Ok(())
            },
        }
    }

    /// The distance from the star at `start` to the star at `end`.
    ///
    /// From `start` every chain of links is followed to its end, and the
    /// cheapest is taken. A chain ends at `end`, or at a star from which no
    /// link leads to a star that the chain has not passed yet; such a chain
    /// counts with the cost of its links. The answer is that least cost where
    /// it is positive. A cost of zero or less is no distance: so it is for a
    /// star and itself, and for a star that has no links.
    ///
    /// The space is not changed.
    pub fn distance(&mut self, start: Coord, end: Coord) -> (outcome: Result<i128, SpaceError>)
        ensures
            *final(self) == *old(self),
            is_chart(final(self)@),
            match outcome {
                Ok(cost) => measured(old(self)@, start, end) == Ok::<int, SpaceError>(cost as int),
                Err(error) => measured(old(self)@, start, end) == Err::<int, SpaceError>(error),
            },
    {
        proof {
            use_type_invariant(&*self);
        }
        let from = match self.position(start) {
            Some(i) => i,
            None => {
                return Err(SpaceError::UnknownCoordinate);
            },
        };
        match self.position(end) {
            None => Err(SpaceError::UnknownCoordinate),
            Some(_) => {
                let mut trail: Vec<Coord> = Vec::new();
                proof {
                    assert(self@.dom().difference(trail@.to_set()) =~= self@.dom());
                }
                let cost = self.distance_star(from, end, &mut trail);
                if cost <= 0 {
                    Err(SpaceError::NoPath)
                } else {
                    Ok(cost)
                }
            },
        }
    }

    /// The cost of the journey to `end` from the star kept at `start`, which
    /// may not pass through the stars on `trail`: those are the stars that the
    /// journey has come through already.
    fn distance_star(&self, start: usize, end: Coord, trail: &mut Vec<Coord>) -> (cost: i128)
        requires
            start < self.views().len(),
            !old(trail)@.contains(self.views()[start as int].coord),
        ensures
            final(trail)@ == old(trail)@,
            cost == cost_from(
                self@,
                self.views()[start as int].coord,
                end,
                self@.dom().difference(old(trail)@.to_set()),
            ),
        decreases self@.dom().difference(old(trail)@.to_set()).len(),
    {
        let star = &self.stars[start];
        let from = star.coord();
        if from == end {
            return 0;
        }
        let links = star.links();
        let ghost open = self@.dom().difference(trail@.to_set());
        let ghost onward = open.remove(from);
        proof {
            use_type_invariant(self);
            lemma_chart_dom(self.views());
            lemma_chart_at(self.views(), start as int);
            vstd::seq_lib::seq_to_set_is_finite(trail@);
            trail@.lemma_push_to_set_commute(from);
            assert(self@.dom().difference(trail@.push(from).to_set()) =~= onward);
            vstd::set_lib::lemma_len_subset(open, self@.dom());
            assert(self.views().len() == self.stars.len());
        }
        trail.push(from);
        let mut least: Option<i128> = None;
        let mut i: usize = 0;
        while i < links.len()
            invariant
                i <= links.len(),
                links@ == self@[from].links,
                self@.contains_key(from),
                is_chart(self@),
                trail@ == old(trail)@.push(from),
                open == self@.dom().difference(old(trail)@.to_set()),
                onward == self@.dom().difference(trail@.to_set()),
                onward == open.remove(from),
                open.contains(from),
                open.finite(),
                open.len() <= usize::MAX,
                match least {
                    Some(cost) => least_via(self@, links@.take(i as int), end, onward) == Some(
                        cost as int,
                    ),
                    None => least_via(self@, links@.take(i as int), end, onward) is None,
                },
            decreases links.len() - i,
        {
            let link = links[i];
            proof {
                assert(links@.take(i + 1).drop_last() =~= links@.take(i as int));
                assert(links@.take(i + 1).last() == link);
                assert(self@.contains_key(link.end));
                lemma_least_bounds(self@, links@.take(i as int), end, onward);
                lemma_cost_bounds(self@, link.end, end, onward);
            }
            if !on_trail(trail, link.end) {
                if let Some(next) = self.position(link.end) {
                    let beyond = self.distance_star(next, end, trail);
                    let cost = link.distance as i128 + beyond;
                    least =
                    match least {
                        Some(before) if before <= cost => Some(before),
                        _ => Some(cost),
                    };
                }
            }
            i += 1;
        }
        trail.pop();
        assert(links@.take(links@.len() as int) =~= links@);
        match least {
            Some(cost) => cost,
            None => 0,
        }
    }
}

/// Whether `coord` is one of the coordinates on `trail`.
fn on_trail(trail: &Vec<Coord>, coord: Coord) -> (found: bool)
    ensures
        found == trail@.contains(coord),
{
    let mut i: usize = 0;
    while i < trail.len()
        invariant
            i <= trail.len(),
            forall|j: int| 0 <= j < i ==> trail@[j] != coord,
        decreases trail.len() - i,
    {
        if trail[i] == coord {
            return true;
        }
        i += 1;
    }
    false
}

/// The coordinates of `stars`, in order.
spec fn coords_of(stars: Seq<StarView>) -> Seq<Coord> {
    stars.map_values(|s: StarView| s.coord)
}

/// The chart drawn from a sequence of stars that stand at different coordinates.
spec fn chart_of(stars: Seq<StarView>) -> Chart {
    Map::new(
        |c: Coord| coords_of(stars).contains(c),
        |c: Coord| stars[coords_of(stars).index_of(c)],
    )
}

/// Without stars the chart is empty.
proof fn lemma_no_stars(stars: Seq<Star>)
    requires
        stars.len() == 0,
    ensures
        coords_of(stars.map_values(|s: Star| s@)).no_duplicates(),
        chart_of(stars.map_values(|s: Star| s@)) == Map::<Coord, StarView>::empty(),
        is_chart(chart_of(stars.map_values(|s: Star| s@))),
{
    let views = stars.map_values(|s: Star| s@);
    assert(views =~= Seq::<StarView>::empty());
    assert(chart_of(views) =~= Map::<Coord, StarView>::empty());
}

/// The chart of `stars` has the coordinates of `stars` as its domain, and as
/// many stars as `stars` has where no coordinate comes twice.
proof fn lemma_chart_dom(stars: Seq<StarView>)
    ensures
        chart_of(stars).dom() =~= coords_of(stars).to_set(),
        chart_of(stars).dom().finite(),
        coords_of(stars).no_duplicates() ==> chart_of(stars).dom().len() == stars.len(),
{
    vstd::seq_lib::seq_to_set_is_finite(coords_of(stars));
    if coords_of(stars).no_duplicates() {
        coords_of(stars).unique_seq_to_set();
    }
}

/// In the chart of `stars`, each star is found at its coordinate.
proof fn lemma_chart_at(stars: Seq<StarView>, i: int)
    requires
        coords_of(stars).no_duplicates(),
        0 <= i < stars.len(),
    ensures
        chart_of(stars).contains_key(stars[i].coord),
        chart_of(stars)[stars[i].coord] == stars[i],
{
    let coords = coords_of(stars);
    assert(coords[i] == stars[i].coord);
    let j = coords.index_of(stars[i].coord);
    assert(coords[j] == coords[i]);
}

/// A star at a fresh coordinate joins the chart and changes nothing else.
proof fn lemma_chart_push(stars: Seq<StarView>, star: StarView)
    requires
        coords_of(stars).no_duplicates(),
        !coords_of(stars).contains(star.coord),
    ensures
        coords_of(stars.push(star)).no_duplicates(),
        chart_of(stars.push(star)) =~= chart_of(stars).insert(star.coord, star),
{
    let after = stars.push(star);
    assert(coords_of(after) =~= coords_of(stars).push(star.coord));
    assert forall|c: Coord| chart_of(after).contains_key(c) implies #[trigger] chart_of(
        after,
    )[c] == chart_of(stars).insert(star.coord, star)[c] by {
        let i = coords_of(after).index_of(c);
        lemma_chart_at(after, i);
        if i < stars.len() {
            assert(coords_of(stars)[i] == c);
            lemma_chart_at(stars, i);
        }
    }
    assert forall|c: Coord|
        chart_of(after).contains_key(c) <==> chart_of(stars).insert(star.coord, star).contains_key(
            c,
        ) by {
        if coords_of(stars).contains(c) {
            let i = coords_of(stars).index_of(c);
            assert(coords_of(after)[i] == c);
        }
        if c == star.coord {
            assert(coords_of(after)[stars.len() as int] == c);
        }
    }
}

/// A star replaced by one at the same coordinate changes the chart there and
/// nowhere else.
proof fn lemma_chart_update(stars: Seq<StarView>, i: int, star: StarView)
    requires
        coords_of(stars).no_duplicates(),
        0 <= i < stars.len(),
        star.coord == stars[i].coord,
    ensures
        coords_of(stars.update(i, star)) == coords_of(stars),
        chart_of(stars.update(i, star)) =~= chart_of(stars).insert(star.coord, star),
{
    let after = stars.update(i, star);
    assert(coords_of(after) =~= coords_of(stars));
    assert forall|c: Coord| chart_of(after).contains_key(c) implies #[trigger] chart_of(
        after,
    )[c] == chart_of(stars).insert(star.coord, star)[c] by {
        let j = coords_of(after).index_of(c);
        assert(coords_of(after)[j] == c);
        lemma_chart_at(after, j);
        lemma_chart_at(stars, j);
        assert(coords_of(stars)[i] == star.coord);
    }
    lemma_chart_at(stars, i);
}

} // verus!
