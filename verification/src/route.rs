//! The cost of a journey through a chart.
//!
//! The cost is defined by following links from star to star. A journey never
//! returns to a star that it has already passed, so the definition is total:
//! on a chart whose links run in a circle the link that closes the circle is
//! left out, and on a chart without circles every chain of links is followed
//! to its end.

use vstd::prelude::*;
use crate::chart::Chart;
use crate::error::SpaceError;
use crate::star::{Coord, Link};

verus! {

/// The cost of the journey from `from` to `to` that may pass only through the
/// stars in `open`.
///
/// At the destination the cost is 0. Elsewhere it is the least value of
/// `link.distance + cost_from(link.end, ..)` among the links of `from` that
/// lead to a star still open, with `from` itself closed for the rest of the
/// journey. A star none of whose links leads to an open star is a dead end,
/// and the cost from a dead end is 0.
pub open spec fn cost_from(g: Chart, from: Coord, to: Coord, open: Set<Coord>) -> int
    decreases open.len(), 0int, 0int,
{
    if from == to {
        0
    } else if open.finite() && open.contains(from) {
        match least_via(g, g[from].links, to, open.remove(from)) {
            Some(cost) => cost,
            None => 0,
        }
    } else {
        0
    }
}

/// The least cost of a journey to `to` that starts with one of `links` and then
/// passes only through the stars in `open`; `None` where no link leads to an
/// open star.
pub open spec fn least_via(g: Chart, links: Seq<Link>, to: Coord, open: Set<Coord>) -> Option<int>
    decreases open.len(), 1int, links.len(),
{
    if links.len() == 0 {
        None
    } else {
        let link = links.last();
        let before = least_via(g, links.drop_last(), to, open);
        if open.contains(link.end) {
            let cost = link.distance + cost_from(g, link.end, to, open);
            match before {
                Some(least) if least <= cost => Some(least),
                _ => Some(cost),
            }
        } else {
            before
        }
    }
}

/// The cost of the journey from `from` to `to`, free to pass through every
/// star of the chart.
pub open spec fn route_cost(g: Chart, from: Coord, to: Coord) -> int {
    cost_from(g, from, to, g.dom())
}

/// What a query for the distance from `start` to `end` is answered: the cost
/// of the journey where it is positive, and else why there is no answer.
///
/// A cost of 0 or less is no distance. That is the answer for a star and
/// itself, for a star without links, and for every other pair whose cheapest
/// chain of links does not cost more than nothing.
pub open spec fn measured(g: Chart, start: Coord, end: Coord) -> Result<int, SpaceError> {
    if !g.contains_key(start) || !g.contains_key(end) {
        Err(SpaceError::UnknownCoordinate)
    } else if route_cost(g, start, end) <= 0 {
        Err(SpaceError::NoPath)
    } else {
        Ok(route_cost(g, start, end))
    }
}

/// The largest size that the cost of a journey over `links` links can have:
/// `links` times the largest size of an `i64`.
pub open spec fn widest(links: nat) -> int {
    0x8000_0000_0000_0000int * links
}

/// A journey through `open` passes at most as many links as `open` has stars,
/// which bounds its cost.
pub proof fn lemma_cost_bounds(g: Chart, from: Coord, to: Coord, open: Set<Coord>)
    requires
        open.finite(),
    ensures
        -widest(open.len()) <= cost_from(g, from, to, open) <= widest(open.len()),
    decreases open.len(), 0int, 0int,
{
    if from != to && open.contains(from) {
        lemma_least_bounds(g, g[from].links, to, open.remove(from));
    }
}

/// The bound of [`lemma_cost_bounds`], for a journey that starts with one of
/// `links`.
pub proof fn lemma_least_bounds(g: Chart, links: Seq<Link>, to: Coord, open: Set<Coord>)
    requires
        open.finite(),
    ensures
        least_via(g, links, to, open) matches Some(cost) ==> -widest(open.len() + 1) <= cost
            <= widest(open.len() + 1),
    decreases open.len(), 1int, links.len(),
{
    if links.len() > 0 {
        lemma_least_bounds(g, links.drop_last(), to, open);
        if open.contains(links.last().end) {
            lemma_cost_bounds(g, links.last().end, to, open);
        }
    }
}

} // verus!
