//! Which stars can be reached from which: walks along the links of a chart.

use vstd::prelude::*;
use crate::chart::Chart;
use crate::star::Coord;

verus! {

/// Whether the star at `a` has a link to the star at `b`.
pub open spec fn has_link(g: Chart, a: Coord, b: Coord) -> bool {
    g.contains_key(a) && exists|i: int|
        0 <= i < g[a].links.len() && (#[trigger] g[a].links[i]).end == b
}

/// Whether the star `i` of `walk` has a link to the star after it.
pub open spec fn steps_on(g: Chart, walk: Seq<Coord>, i: int) -> bool {
    has_link(g, walk[i], walk[i + 1])
}

/// Whether `walk` names stars each of which has a link to the next. A walk
/// has at least one star; one star alone is a walk that goes nowhere.
pub open spec fn is_walk(g: Chart, walk: Seq<Coord>) -> bool {
    &&& walk.len() >= 1
    &&& forall|i: int| 0 <= i < walk.len() - 1 ==> #[trigger] steps_on(g, walk, i)
}

/// Whether links lead from the star at `a` to the star at `b`, in any number
/// of steps. Every star is joined to itself, in no steps.
pub open spec fn joined(g: Chart, a: Coord, b: Coord) -> bool {
    exists|walk: Seq<Coord>| #[trigger] is_walk(g, walk) && walk.first() == a && walk.last() == b
}

/// Whether no links of the chart run in a circle: no walk of one step or more
/// comes back to the star at which it began.
pub open spec fn has_no_circle(g: Chart) -> bool {
    forall|walk: Seq<Coord>| #[trigger]
        is_walk(g, walk) && walk.len() >= 2 ==> walk.first() != walk.last()
}

/// A walk can be entered by a link that leads to its first star.
pub proof fn lemma_walk_extends(g: Chart, a: Coord, walk: Seq<Coord>)
    requires
        is_walk(g, walk),
        has_link(g, a, walk.first()),
    ensures
        is_walk(g, seq![a] + walk),
        (seq![a] + walk).first() == a,
        (seq![a] + walk).last() == walk.last(),
        (seq![a] + walk).len() == walk.len() + 1,
{
    let longer = seq![a] + walk;
    assert forall|i: int| 0 <= i < longer.len() - 1 implies #[trigger] steps_on(g, longer, i) by {
        if i > 0 {
            assert(steps_on(g, walk, i - 1));
        }
    }
}

/// A star is joined to each star that one of its links leads to, and to every
/// star to which that one is joined.
pub proof fn lemma_joined_by_link(g: Chart, a: Coord, b: Coord, c: Coord)
    requires
        has_link(g, a, b),
        joined(g, b, c),
    ensures
        joined(g, a, c),
{
    let walk = choose|walk: Seq<Coord>| #[trigger]
        is_walk(g, walk) && walk.first() == b && walk.last() == c;
    lemma_walk_extends(g, a, walk);
}

/// Every star is joined to itself.
pub proof fn lemma_joined_to_itself(g: Chart, a: Coord)
    ensures
        joined(g, a, a),
{
    assert(is_walk(g, seq![a]));
}

/// Where no links run in a circle, a star that a link leads to is another
/// star, and is not joined back to the link's origin.
pub proof fn lemma_no_way_back(g: Chart, a: Coord, b: Coord)
    requires
        has_no_circle(g),
        has_link(g, a, b),
    ensures
        a != b,
        !joined(g, b, a),
{
    if a == b {
        lemma_joined_to_itself(g, b);
    }
    if joined(g, b, a) {
        let back = choose|walk: Seq<Coord>| #[trigger]
            is_walk(g, walk) && walk.first() == b && walk.last() == a;
        lemma_walk_extends(g, a, back);
        assert(is_walk(g, seq![a] + back));
    }
}

} // verus!
