//! Journeys written out link by link, and what the cost of a journey is in
//! their terms.
//!
//! A trail is the sequence of links that a journey travels. The cost that
//! [`cost_from`] defines step by step is shown here to be the least weight
//! among the trails that are complete: those that end at the destination, or
//! at a star from which no link leads on.

use vstd::prelude::*;
use crate::chart::{is_chart, Chart};
use crate::error::SpaceError;
use crate::route::{cost_from, least_via, measured, route_cost};
use crate::star::{Coord, Link};
use crate::walk::{joined, lemma_joined_by_link, lemma_joined_to_itself};

verus! {

/// The cost of travelling all of `trail`: the sum of its links' costs.
pub open spec fn trail_weight(trail: Seq<Link>) -> int
    decreases trail.len(),
{
    if trail.len() == 0 {
        0
    } else {
        trail.first().distance + trail_weight(trail.drop_first())
    }
}

/// Where a journey stands that started at `from` and travelled `trail`.
pub open spec fn trail_end(from: Coord, trail: Seq<Link>) -> Coord {
    if trail.len() == 0 {
        from
    } else {
        trail.last().end
    }
}

/// Whether none of `links` leads to a star in `open`.
pub open spec fn is_dead_end(links: Seq<Link>, open: Set<Coord>) -> bool {
    forall|i: int| 0 <= i < links.len() ==> !open.contains(#[trigger] links[i].end)
}

/// Whether `trail` is a complete journey from `from` towards `to` through the
/// stars in `open`.
///
/// Each link of the trail is a link of the star that the journey has reached,
/// and leads to a star that is open and that the journey has not passed. The
/// journey goes on until it stands at `to`, or at a star from which no such
/// link leads on; it does not stop before, nor go on from `to`.
pub open spec fn is_trail(g: Chart, from: Coord, to: Coord, open: Set<Coord>, trail: Seq<Link>) -> bool
    decreases trail.len(),
{
    if from == to {
        trail.len() == 0
    } else if trail.len() == 0 {
        is_dead_end(g[from].links, open.remove(from))
    } else {
        &&& g[from].links.contains(trail.first())
        &&& open.remove(from).contains(trail.first().end)
        &&& is_trail(g, trail.first().end, to, open.remove(from), trail.drop_first())
    }
}

/// Where no link leads to an open star there is no journey to choose, and
/// the other way round.
pub proof fn lemma_least_none(g: Chart, links: Seq<Link>, to: Coord, open: Set<Coord>)
    ensures
        least_via(g, links, to, open) is None <==> is_dead_end(links, open),
    decreases links.len(),
{
    if links.len() > 0 {
        lemma_least_none(g, links.drop_last(), to, open);
        if is_dead_end(links, open) {
            assert forall|i: int| 0 <= i < links.drop_last().len() implies !open.contains(
                #[trigger] links.drop_last()[i].end,
            ) by {
                assert(links.drop_last()[i] == links[i]);
            }
            assert(links.last() == links[links.len() - 1]);
        }
        if least_via(g, links, to, open) is None {
            assert forall|i: int| 0 <= i < links.len() implies !open.contains(
                #[trigger] links[i].end,
            ) by {
                if i < links.len() - 1 {
                    assert(links.drop_last()[i] == links[i]);
                }
            }
        }
    }
}

/// The least cost is the cost by one of the links that lead to an open star:
/// the proof returns which.
pub proof fn lemma_least_attained(g: Chart, links: Seq<Link>, to: Coord, open: Set<Coord>) -> (k:
    int)
    requires
        least_via(g, links, to, open) is Some,
    ensures
        0 <= k < links.len(),
        open.contains(links[k].end),
        least_via(g, links, to, open) == Some(
            links[k].distance + cost_from(g, links[k].end, to, open),
        ),
    decreases links.len(),
{
    let before = least_via(g, links.drop_last(), to, open);
    let last = links.last();
    if open.contains(last.end) {
        let cost = last.distance + cost_from(g, last.end, to, open);
        if before is Some && before->0 <= cost {
            lemma_least_attained(g, links.drop_last(), to, open)
        } else {
            links.len() - 1
        }
    } else {
        lemma_least_attained(g, links.drop_last(), to, open)
    }
}

/// The least cost is at most the cost by any link that leads to an open star.
pub proof fn lemma_least_is_least(g: Chart, links: Seq<Link>, to: Coord, open: Set<Coord>, k: int)
    requires
        0 <= k < links.len(),
        open.contains(links[k].end),
    ensures
        least_via(g, links, to, open) matches Some(least) && least <= links[k].distance
            + cost_from(g, links[k].end, to, open),
    decreases links.len(),
{
    if k < links.len() - 1 {
        lemma_least_is_least(g, links.drop_last(), to, open, k);
    }
}

/// Some complete trail costs exactly what the journey costs: the proof returns
/// one.
pub proof fn lemma_cost_attained(g: Chart, from: Coord, to: Coord, open: Set<Coord>) -> (trail:
    Seq<Link>)
    requires
        open.finite(),
        open.contains(from),
    ensures
        is_trail(g, from, to, open, trail),
        trail_weight(trail) == cost_from(g, from, to, open),
    decreases open.len(),
{
    if from == to {
        Seq::empty()
    } else {
        let links = g[from].links;
        let onward = open.remove(from);
        lemma_least_none(g, links, to, onward);
        if least_via(g, links, to, onward) is None {
            Seq::empty()
        } else {
            let k = lemma_least_attained(g, links, to, onward);
            let rest = lemma_cost_attained(g, links[k].end, to, onward);
            let trail = seq![links[k]] + rest;
            assert(trail.first() == links[k]);
            assert(trail.drop_first() =~= rest);
            trail
        }
    }
}

/// No complete trail costs less than the journey.
pub proof fn lemma_cost_is_least(g: Chart, from: Coord, to: Coord, open: Set<Coord>, trail: Seq<Link>)
    requires
        open.finite(),
        open.contains(from),
        is_trail(g, from, to, open, trail),
    ensures
        cost_from(g, from, to, open) <= trail_weight(trail),
    decreases trail.len(),
{
    if from != to {
        let links = g[from].links;
        let onward = open.remove(from);
        lemma_least_none(g, links, to, onward);
        if trail.len() > 0 {
            let k = links.index_of(trail.first());
            lemma_least_is_least(g, links, to, onward, k);
            lemma_cost_is_least(g, trail.first().end, to, onward, trail.drop_first());
        }
    }
}

/// The distance between two stars of a chart is refused as no path exactly
/// where some complete trail from the one towards the other costs nothing or
/// less, and is else the least weight of such a trail.
pub proof fn lemma_measured_by_trails(g: Chart, start: Coord, end: Coord)
    requires
        is_chart(g),
        g.contains_key(start),
        g.contains_key(end),
    ensures
        measured(g, start, end) == Err::<int, SpaceError>(SpaceError::NoPath) <==> exists|
            trail: Seq<Link>,
        |
            is_trail(g, start, end, g.dom(), trail) && trail_weight(trail) <= 0,
        measured(g, start, end) matches Ok(cost) ==> {
            &&& exists|trail: Seq<Link>|
                is_trail(g, start, end, g.dom(), trail) && trail_weight(trail) == cost
            &&& forall|trail: Seq<Link>|
                is_trail(g, start, end, g.dom(), trail) ==> cost <= trail_weight(trail)
        },
{
    let best = lemma_cost_attained(g, start, end, g.dom());
    assert forall|trail: Seq<Link>| is_trail(g, start, end, g.dom(), trail) implies route_cost(
        g,
        start,
        end,
    ) <= trail_weight(trail) by {
        lemma_cost_is_least(g, start, end, g.dom(), trail);
    }
}

/// A trail is a walk: the star at which a trail ends is joined to the star at
/// which it began.
pub proof fn lemma_trail_joins(g: Chart, from: Coord, to: Coord, open: Set<Coord>, trail: Seq<Link>)
    requires
        is_chart(g),
        g.contains_key(from),
        is_trail(g, from, to, open, trail),
    ensures
        joined(g, from, trail_end(from, trail)),
    decreases trail.len(),
{
    if trail.len() == 0 {
        lemma_joined_to_itself(g, from);
    } else {
        let first = trail.first();
        let k = g[from].links.index_of(first);
        assert(g[from].links[k].end == first.end);
        lemma_trail_joins(g, first.end, to, open.remove(from), trail.drop_first());
        if trail.len() > 1 {
            assert(trail.drop_first().last() == trail.last());
        }
        lemma_joined_by_link(g, from, first.end, trail_end(from, trail));
    }
}

/// From a star to itself there is no distance.
pub proof fn lemma_no_path_to_itself(g: Chart, star: Coord)
    requires
        g.contains_key(star),
    ensures
        measured(g, star, star) == Err::<int, SpaceError>(SpaceError::NoPath),
{
}

/// From a star without links there is no distance to any star.
pub proof fn lemma_no_path_without_links(g: Chart, start: Coord, end: Coord)
    requires
        g.contains_key(start),
        g.contains_key(end),
        g[start].links.len() == 0,
    ensures
        measured(g, start, end) == Err::<int, SpaceError>(SpaceError::NoPath),
{
}

/// Between two stars that no links join, every complete trail runs into a
/// dead end, and the query for their distance is refused as no path where one
/// of these trails costs nothing or less.
pub proof fn lemma_no_path_between_apart_stars(g: Chart, start: Coord, end: Coord, stray: Seq<Link>)
    requires
        is_chart(g),
        g.contains_key(start),
        g.contains_key(end),
        !joined(g, start, end),
        is_trail(g, start, end, g.dom(), stray),
        trail_weight(stray) <= 0,
    ensures
        trail_end(start, stray) != end,
        measured(g, start, end) == Err::<int, SpaceError>(SpaceError::NoPath),
{
    lemma_trail_joins(g, start, end, g.dom(), stray);
    lemma_cost_is_least(g, start, end, g.dom(), stray);
}

/// Between two stars that no links join, the query for their distance is
/// answered all the same where every trail into a dead end costs more than
/// nothing: the answer is the least such cost.
pub proof fn lemma_answer_between_apart_stars(g: Chart, start: Coord, end: Coord)
    requires
        is_chart(g),
        g.contains_key(start),
        g.contains_key(end),
        !joined(g, start, end),
        forall|trail: Seq<Link>|
            is_trail(g, start, end, g.dom(), trail) ==> trail_weight(trail) > 0,
    ensures
        measured(g, start, end) is Ok,
{
    let best = lemma_cost_attained(g, start, end, g.dom());
}

} // verus!
