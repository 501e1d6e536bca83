//! The mathematical model of a space, and of what inserting and linking do
//! to it.
//!
//! A space is seen as a [`Chart`]: a map from each occupied coordinate to the
//! star that stands there. The contracts of [`Space`](crate::space::Space)
//! say which chart a request leaves behind and how it is answered; the same is
//! written here as functions on charts, so that facts about several requests
//! in a row can be stated and proved.

use vstd::prelude::*;
use crate::error::SpaceError;
use crate::star::{Coord, Link, StarView};

verus! {

/// A space as a mathematical value: the star at each occupied coordinate.
pub type Chart = Map<Coord, StarView>;

/// What holds of the chart of every space: it has finitely many stars, each
/// stands at its own coordinate, and every link ends at a star of the chart.
pub open spec fn is_chart(g: Chart) -> bool {
    &&& g.dom().finite()
    &&& forall|c: Coord| #[trigger] g.contains_key(c) ==> g[c].coord == c
    &&& forall|c: Coord, i: int|
        g.contains_key(c) && 0 <= i < g[c].links.len() ==> g.contains_key(
            #[trigger] g[c].links[i].end,
        )
}

/// `star` with `link` added behind its links.
pub open spec fn with_link(star: StarView, link: Link) -> StarView {
    StarView { links: star.links.push(link), ..star }
}

/// What becomes of the chart `g` when `star` is handed to it: the chart with
/// the star at its coordinate, unless a star stands there already.
pub open spec fn inserted(g: Chart, star: StarView) -> Result<Chart, SpaceError> {
    if g.contains_key(star.coord) {
        Err(SpaceError::DuplicateCoordinate)
    } else {
        Ok(g.insert(star.coord, star))
    }
}

/// What becomes of the chart `g` when a link from `start` to `end` with the
/// cost `distance` is asked for: the chart in which the star at `start` has
/// the link behind its others, where both stars are there. The origin is
/// looked for first.
pub open spec fn linked(g: Chart, start: Coord, end: Coord, distance: i64) -> Result<
    Chart,
    SpaceError,
> {
    if !g.contains_key(start) {
        Err(SpaceError::UnknownOrigin)
    } else if !g.contains_key(end) {
        Err(SpaceError::UnknownDestination)
    } else {
        Ok(g.insert(start, with_link(g[start], Link { distance, end })))
    }
}

/// A chart stays a chart when a star without links is put at its own, free
/// coordinate.
pub proof fn lemma_inserted_is_chart(g: Chart, star: StarView)
    requires
        is_chart(g),
        star.links.len() == 0,
    ensures
        inserted(g, star) matches Ok(after) ==> is_chart(after),
{
    let after = g.insert(star.coord, star);
    assert forall|c: Coord, i: int|
        after.contains_key(c) && 0 <= i < after[c].links.len() implies after.contains_key(
        #[trigger] after[c].links[i].end,
    ) by {
        assert(g.contains_key(g[c].links[i].end));
    }
}

/// A chart stays a chart when a star of it gets a link to a star of it.
pub proof fn lemma_linked_is_chart(g: Chart, start: Coord, end: Coord, distance: i64)
    requires
        is_chart(g),
    ensures
        linked(g, start, end, distance) matches Ok(after) ==> is_chart(after),
{
    if g.contains_key(start) && g.contains_key(end) {
        let after = g.insert(start, with_link(g[start], Link { distance, end }));
        assert forall|c: Coord, i: int|
            after.contains_key(c) && 0 <= i < after[c].links.len() implies after.contains_key(
            #[trigger] after[c].links[i].end,
        ) by {
            if !(c == start && i == g[start].links.len()) {
                assert(g.contains_key(g[c].links[i].end));
            }
        }
    }
}

/// A coordinate is taken once: a star goes in at a free coordinate, and from
/// then on every star offered at that coordinate is refused as a duplicate,
/// whatever its name.
pub proof fn lemma_coordinate_taken_once(g: Chart, first: StarView, second: StarView)
    requires
        !g.contains_key(first.coord),
        second.coord == first.coord,
    ensures
        inserted(g, first) == Ok::<Chart, SpaceError>(g.insert(first.coord, first)),
        inserted(g.insert(first.coord, first), second) == Err::<Chart, SpaceError>(
            SpaceError::DuplicateCoordinate,
        ),
{
}

/// A link is one-way and belongs to its origin alone: after linking, every
/// star but the one at `start` is as it was, and that one has exactly one link
/// more, the new one, behind those it had.
pub proof fn lemma_link_touches_origin_only(g: Chart, start: Coord, end: Coord, distance: i64)
    requires
        g.contains_key(start),
        g.contains_key(end),
    ensures
        linked(g, start, end, distance) matches Ok(after) && after.dom() == g.dom()
            && after[start].links == g[start].links.push(Link { distance, end })
            && after[start].name == g[start].name && after[start].coord == g[start].coord
            && forall|c: Coord| c != start && g.contains_key(c) ==> #[trigger] after[c] == g[c],
{
    let after = g.insert(start, with_link(g[start], Link { distance, end }));
    assert(after.dom() =~= g.dom());
}

} // verus!
