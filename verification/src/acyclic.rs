//! Charts without circles: there the care that a journey takes not to pass a
//! star twice changes nothing, and the cost of a journey obeys the plain rule.
//!
//! The plain rule: the cost from a star to itself is 0; the cost from a star
//! to another is the least of `link.distance` plus the cost from `link.end`,
//! among all links of the star, and 0 where the star has no links.

use vstd::prelude::*;
use crate::chart::{is_chart, Chart};
use crate::route::{cost_from, least_via, route_cost};
use crate::star::{Coord, Link};
use crate::walk::{
    has_link, has_no_circle, is_walk, joined, lemma_joined_by_link, lemma_joined_to_itself,
    lemma_no_way_back, steps_on,
};

verus! {

/// The least of `link.distance + route_cost(g, link.end, to)` among `links`,
/// all of them; `None` where there are none.
pub open spec fn least_onward(g: Chart, links: Seq<Link>, to: Coord) -> Option<int>
    decreases links.len(),
{
    if links.len() == 0 {
        None
    } else {
        let cost = links.last().distance + route_cost(g, links.last().end, to);
        match least_onward(g, links.drop_last(), to) {
            Some(least) if least <= cost => Some(least),
            _ => Some(cost),
        }
    }
}

/// Whether `open` holds every star to which the star at `from` is joined.
pub open spec fn covers(g: Chart, from: Coord, open: Set<Coord>) -> bool {
    forall|d: Coord| #[trigger] joined(g, from, d) ==> open.contains(d)
}

/// A walk that begins in a chart stays in it.
pub proof fn lemma_walk_stays(g: Chart, walk: Seq<Coord>, i: int)
    requires
        is_chart(g),
        is_walk(g, walk),
        g.contains_key(walk.first()),
        0 <= i < walk.len(),
    ensures
        g.contains_key(walk[i]),
    decreases i,
{
    if i > 0 {
        lemma_walk_stays(g, walk, i - 1);
        assert(steps_on(g, walk, i - 1));
    }
}

/// The stars of a chart cover all that a star of the chart is joined to.
pub proof fn lemma_chart_covers(g: Chart, from: Coord)
    requires
        is_chart(g),
        g.contains_key(from),
    ensures
        covers(g, from, g.dom()),
{
    assert forall|d: Coord| #[trigger] joined(g, from, d) implies g.dom().contains(d) by {
        let walk = choose|walk: Seq<Coord>| #[trigger]
            is_walk(g, walk) && walk.first() == from && walk.last() == d;
        lemma_walk_stays(g, walk, walk.len() - 1);
    }
}

/// Where no links run in a circle, what covers a star still covers the stars
/// that its links lead to when the star itself is taken out.
pub proof fn lemma_covers_onward(g: Chart, from: Coord, next: Coord, open: Set<Coord>)
    requires
        has_no_circle(g),
        has_link(g, from, next),
        covers(g, from, open),
    ensures
        open.remove(from).contains(next),
        covers(g, next, open.remove(from)),
{
    lemma_no_way_back(g, from, next);
    lemma_joined_to_itself(g, next);
    lemma_joined_by_link(g, from, next, next);
    assert forall|d: Coord| #[trigger] joined(g, next, d) implies open.remove(from).contains(
        d,
    ) by {
        lemma_joined_by_link(g, from, next, d);
    }
}

/// Where no links run in a circle, the cost of a journey is the same through
/// any two sets of stars that hold all that the journey can reach.
pub proof fn lemma_same_cost(g: Chart, from: Coord, to: Coord, a: Set<Coord>, b: Set<Coord>)
    requires
        is_chart(g),
        has_no_circle(g),
        g.contains_key(from),
        a.finite(),
        b.finite(),
        covers(g, from, a),
        covers(g, from, b),
    ensures
        cost_from(g, from, to, a) == cost_from(g, from, to, b),
    decreases a.len(), 0int, 0int,
{
    lemma_joined_to_itself(g, from);
    if from != to {
        lemma_same_least(g, from, g[from].links.len() as int, to, a, b);
        assert(g[from].links.take(g[from].links.len() as int) =~= g[from].links);
    }
}

/// The claim of [`lemma_same_cost`] for a journey that starts with one of the
/// first `n` links of the star at `from`.
pub proof fn lemma_same_least(g: Chart, from: Coord, n: int, to: Coord, a: Set<Coord>, b: Set<Coord>)
    requires
        is_chart(g),
        has_no_circle(g),
        g.contains_key(from),
        a.finite(),
        b.finite(),
        a.contains(from),
        covers(g, from, a),
        covers(g, from, b),
        0 <= n <= g[from].links.len(),
    ensures
        least_via(g, g[from].links.take(n), to, a.remove(from)) == least_via(
            g,
            g[from].links.take(n),
            to,
            b.remove(from),
        ),
    decreases a.remove(from).len(), 1int, n,
{
    if n > 0 {
        let links = g[from].links.take(n);
        let link = g[from].links[n - 1];
        assert(links.drop_last() =~= g[from].links.take(n - 1));
        assert(links.last() == link);
        lemma_same_least(g, from, n - 1, to, a, b);
        assert(has_link(g, from, link.end));
        lemma_covers_onward(g, from, link.end, a);
        lemma_covers_onward(g, from, link.end, b);
        lemma_same_cost(g, link.end, to, a.remove(from), b.remove(from));
    }
}

/// Where no links run in a circle, the cost of a journey obeys the plain
/// rule: nothing at the destination; elsewhere the least, among all links of
/// the star, of the link's cost plus the cost of the journey from where the
/// link leads; and nothing where the star has no links.
pub proof fn lemma_route_cost_unfolds(g: Chart, from: Coord, to: Coord)
    requires
        is_chart(g),
        has_no_circle(g),
        g.contains_key(from),
    ensures
        route_cost(g, from, to) == if from == to {
            0
        } else {
            match least_onward(g, g[from].links, to) {
                Some(least) => least,
                None => 0,
            }
        },
{
    if from != to {
        lemma_least_unfolds(g, from, g[from].links.len() as int, to);
        assert(g[from].links.take(g[from].links.len() as int) =~= g[from].links);
    }
}

/// The claim of [`lemma_route_cost_unfolds`] for the first `n` links of the
/// star at `from`.
pub proof fn lemma_least_unfolds(g: Chart, from: Coord, n: int, to: Coord)
    requires
        is_chart(g),
        has_no_circle(g),
        g.contains_key(from),
        0 <= n <= g[from].links.len(),
    ensures
        least_via(g, g[from].links.take(n), to, g.dom().remove(from)) == least_onward(
            g,
            g[from].links.take(n),
            to,
        ),
    decreases n,
{
    if n > 0 {
        let links = g[from].links.take(n);
        let link = g[from].links[n - 1];
        assert(links.drop_last() =~= g[from].links.take(n - 1));
        assert(links.last() == link);
        lemma_least_unfolds(g, from, n - 1, to);
        assert(has_link(g, from, link.end));
        lemma_chart_covers(g, from);
        lemma_chart_covers(g, link.end);
        lemma_covers_onward(g, from, link.end, g.dom());
        lemma_same_cost(g, link.end, to, g.dom().remove(from), g.dom());
    }
}

} // verus!
