//! Chains: stars linked one to the next, each link at the same cost.

use vstd::prelude::*;
use crate::chart::{
    inserted, is_chart, lemma_inserted_is_chart, lemma_linked_is_chart, linked, with_link, Chart,
};
use crate::error::SpaceError;
use crate::route::{cost_from, least_via, measured, route_cost};
use crate::star::{Coord, Link, StarView};

verus! {

/// The link of a chain from the stop `i` to the next.
pub open spec fn chain_link(stops: Seq<Coord>, i: int, weight: i64) -> Link {
    Link { distance: weight, end: stops[i + 1] }
}

/// Whether the stars at `stops` form a chain in the chart: they are stars of
/// the chart at different coordinates, and each but the last has one link
/// and no more, which leads to the next at the cost `weight`.
pub open spec fn is_chain(g: Chart, stops: Seq<Coord>, weight: i64) -> bool {
    &&& stops.len() >= 1
    &&& stops.no_duplicates()
    &&& forall|i: int| 0 <= i < stops.len() ==> g.contains_key(#[trigger] stops[i])
    &&& forall|i: int|
        0 <= i < stops.len() - 1 ==> g[stops[i]].links == seq![
            #[trigger] chain_link(stops, i, weight),
        ]
}

/// The weight taken once for each of `links` links.
pub open spec fn toll(weight: int, links: nat) -> int
    decreases links,
{
    if links == 0 {
        0
    } else {
        weight + toll(weight, (links - 1) as nat)
    }
}

/// The toll is the weight times the number of links.
pub proof fn lemma_toll_is_product(weight: int, links: nat)
    ensures
        toll(weight, links) == weight * links,
    decreases links,
{
    if links == 0 {
        assert(weight * 0 == 0) by (nonlinear_arith);
    } else {
        lemma_toll_is_product(weight, (links - 1) as nat);
        assert(weight + weight * (links - 1) == weight * links) by (nonlinear_arith);
    }
}

/// Along a chain, the journey from the stop `i` to the last stop costs the
/// weight once for each link between them.
pub proof fn lemma_chain_cost(g: Chart, stops: Seq<Coord>, weight: i64, i: int, open: Set<Coord>)
    requires
        is_chain(g, stops, weight),
        0 <= i < stops.len(),
        open.finite(),
        forall|j: int| i <= j < stops.len() ==> open.contains(#[trigger] stops[j]),
    ensures
        cost_from(g, stops[i], stops.last(), open) == toll(
            weight as int,
            (stops.len() - 1 - i) as nat,
        ),
    decreases stops.len() - i,
{
    if i < stops.len() - 1 {
        let link = chain_link(stops, i, weight);
        let links = g[stops[i]].links;
        let onward = open.remove(stops[i]);
        let to = stops.last();
        assert(stops[i] != to);
        assert(links.last() == link);
        assert(least_via(g, links.drop_last(), to, onward) is None);
        assert(onward.contains(stops[i + 1]));
        lemma_chain_cost(g, stops, weight, i + 1, onward);
        assert(least_via(g, links, to, onward) == Some(
            weight + cost_from(g, stops[i + 1], to, onward),
        ));
    }
}

/// From the first star of a chain to the last, the journey costs the weight
/// times the number of links, and the query for the distance is answered
/// that cost where it is positive.
///
/// Where it is not, because the chain is one star or the weight is nothing or
/// less, the query fails with no path.
pub proof fn lemma_chain_distance(g: Chart, stops: Seq<Coord>, weight: i64)
    requires
        is_chart(g),
        is_chain(g, stops, weight),
    ensures
        route_cost(g, stops.first(), stops.last()) == weight * (stops.len() - 1),
        weight > 0 && stops.len() >= 2 ==> measured(g, stops.first(), stops.last()) == Ok::<
            int,
            SpaceError,
        >(weight * (stops.len() - 1)),
        weight <= 0 || stops.len() == 1 ==> measured(g, stops.first(), stops.last()) == Err::<
            int,
            SpaceError,
        >(SpaceError::NoPath),
{
    lemma_chain_cost(g, stops, weight, 0, g.dom());
    let links = stops.len() - 1;
    lemma_toll_is_product(weight as int, links as nat);
    if weight > 0 && links >= 1 {
        assert(weight * links > 0) by (nonlinear_arith)
            requires
                weight > 0,
                links >= 1,
        ;
    } else {
        assert(weight * links <= 0) by (nonlinear_arith)
            requires
                weight <= 0 || links == 0,
                links >= 0,
        ;
    }
}

/// The chart after `stars` have been handed to `g` one after the other. A
/// star that is refused is passed over.
pub open spec fn with_stars(g: Chart, stars: Seq<StarView>) -> Chart
    decreases stars.len(),
{
    if stars.len() == 0 {
        g
    } else {
        let before = with_stars(g, stars.drop_last());
        match inserted(before, stars.last()) {
            Ok(after) => after,
            Err(_) => before,
        }
    }
}

/// The chart after each of `stops` but the last has been linked to the next at
/// the cost `weight`, from the first on. A link that is refused is passed over.
pub open spec fn with_chain(g: Chart, stops: Seq<Coord>, weight: i64) -> Chart
    decreases stops.len(),
{
    if stops.len() < 2 {
        g
    } else {
        let before = with_chain(g, stops.drop_last(), weight);
        match linked(before, stops[stops.len() - 2], stops.last(), weight) {
            Ok(after) => after,
            Err(_) => before,
        }
    }
}

/// The coordinates of `stars`, in order.
pub open spec fn coords_of(stars: Seq<StarView>) -> Seq<Coord> {
    stars.map_values(|star: StarView| star.coord)
}

/// Whether `stars` can all be handed to `g`: they have no links yet, and
/// stand at coordinates that differ from each other and are free in `g`.
pub open spec fn are_new(g: Chart, stars: Seq<StarView>) -> bool {
    &&& coords_of(stars).no_duplicates()
    &&& forall|i: int|
        0 <= i < stars.len() ==> (#[trigger] stars[i]).links.len() == 0 && !g.contains_key(
            stars[i].coord,
        )
}

/// Stars that are new to a chart all go in: afterwards each stands at its
/// coordinate, as it was handed over, and the stars that were there before
/// are as they were.
pub proof fn lemma_with_stars(g: Chart, stars: Seq<StarView>)
    requires
        is_chart(g),
        are_new(g, stars),
    ensures
        is_chart(with_stars(g, stars)),
        with_stars(g, stars).dom() == g.dom().union(coords_of(stars).to_set()),
        forall|i: int|
            0 <= i < stars.len() ==> with_stars(g, stars)[(#[trigger] stars[i]).coord] == stars[i],
        forall|c: Coord| g.contains_key(c) ==> #[trigger] with_stars(g, stars)[c] == g[c],
    decreases stars.len(),
{
    let after = with_stars(g, stars);
    if stars.len() == 0 {
        assert(after.dom() =~= g.dom().union(coords_of(stars).to_set()));
    } else {
        let rest = stars.drop_last();
        let last = stars.last();
        let before = with_stars(g, rest);
        assert(coords_of(rest) =~= coords_of(stars).drop_last());
        assert forall|i: int| 0 <= i < rest.len() implies (#[trigger] rest[i]).links.len() == 0
            && !g.contains_key(rest[i].coord) by {
            assert(rest[i] == stars[i]);
        }
        lemma_with_stars(g, rest);
        assert(!before.contains_key(last.coord)) by {
            if coords_of(rest).to_set().contains(last.coord) {
                let j = coords_of(rest).index_of(last.coord);
                assert(coords_of(stars)[j] == coords_of(stars)[stars.len() - 1]);
            }
        }
        lemma_inserted_is_chart(before, last);
        assert(after.dom() =~= g.dom().union(coords_of(stars).to_set())) by {
            assert forall|c: Coord|
                coords_of(stars).to_set().contains(c) <==> coords_of(rest).to_set().contains(c)
                    || c == last.coord by {
                if coords_of(stars).contains(c) {
                    let j = coords_of(stars).index_of(c);
                    if j < rest.len() {
                        assert(coords_of(rest)[j] == c);
                    }
                }
                if coords_of(rest).contains(c) {
                    let j = coords_of(rest).index_of(c);
                    assert(coords_of(stars)[j] == c);
                }
                if c == last.coord {
                    assert(coords_of(stars)[stars.len() - 1] == c);
                }
            }
        }
        assert forall|i: int| 0 <= i < stars.len() implies after[(#[trigger] stars[i]).coord]
            == stars[i] by {
            if i < rest.len() {
                assert(rest[i] == stars[i]);
                assert(coords_of(stars)[i] != coords_of(stars)[stars.len() - 1]);
            }
        }
    }
}

/// Linking the first `n` of `stops` in a row, in a chart where they stand
/// without links, makes of them a chain and leaves the other stars as they
/// were.
pub proof fn lemma_with_chain(g: Chart, stops: Seq<Coord>, weight: i64, n: int)
    requires
        is_chart(g),
        stops.no_duplicates(),
        forall|i: int|
            0 <= i < stops.len() ==> g.contains_key(#[trigger] stops[i]) && g[stops[i]].links.len()
                == 0,
        1 <= n <= stops.len(),
    ensures
        is_chart(with_chain(g, stops.take(n), weight)),
        with_chain(g, stops.take(n), weight).dom() == g.dom(),
        is_chain(with_chain(g, stops.take(n), weight), stops.take(n), weight),
        forall|i: int|
            n - 1 <= i < stops.len() ==> with_chain(g, stops.take(n), weight)[#[trigger] stops[i]]
                == g[stops[i]],
    decreases n,
{
    let part = stops.take(n);
    let after = with_chain(g, part, weight);
    if n >= 2 {
        let before = with_chain(g, stops.take(n - 1), weight);
        let origin = stops[n - 2];
        let link = Link { distance: weight, end: stops[n - 1] };
        assert(part.drop_last() =~= stops.take(n - 1));
        lemma_with_chain(g, stops, weight, n - 1);
        lemma_linked_is_chart(before, origin, stops[n - 1], weight);
        assert(before.contains_key(origin) && before.contains_key(stops[n - 1])) by {
            assert(g.contains_key(stops[n - 2]) && g.contains_key(stops[n - 1]));
        }
        assert(after == before.insert(origin, with_link(before[origin], link)));
        assert(after.dom() =~= g.dom());
        assert(before[origin].links =~= Seq::<Link>::empty());
        assert(after[origin].links =~= seq![link]);
        assert forall|i: int| 0 <= i < part.len() - 1 implies after[part[i]].links == seq![
            #[trigger] chain_link(part, i, weight),
        ] by {
            if i < n - 2 {
                assert(stops.take(n - 1)[i] == part[i]);
                assert(before[part[i]].links == seq![chain_link(stops.take(n - 1), i, weight)]);
                assert(part[i] != origin);
            }
        }
        assert forall|i: int| n - 1 <= i < stops.len() implies after[#[trigger] stops[i]]
            == g[stops[i]] by {
            assert(stops[i] != origin);
        }
    }
}

/// Stars inserted and then linked each to the next, all at one cost, are as
/// far apart from first to last as the cost times the number of links.
///
/// `stars` are handed to the chart `g` in order, and each is then linked to
/// the one after it at the cost `weight`. The journey from the first to the
/// last then costs `weight` for each of the links, and the query for the
/// distance is answered that cost where it is positive. Where there is one
/// star only, or the weight is nothing or less, the query fails with no path.
pub proof fn lemma_chain_round_trip(g: Chart, stars: Seq<StarView>, weight: i64)
    requires
        is_chart(g),
        are_new(g, stars),
        stars.len() >= 1,
    ensures
        ({
            let stops = coords_of(stars);
            let chart = with_chain(with_stars(g, stars), stops, weight);
            &&& is_chart(chart)
            &&& is_chain(chart, stops, weight)
            &&& route_cost(chart, stops.first(), stops.last()) == weight * (stars.len() - 1)
            &&& weight > 0 && stars.len() >= 2 ==> measured(chart, stops.first(), stops.last())
                == Ok::<int, SpaceError>(weight * (stars.len() - 1))
            &&& weight <= 0 || stars.len() == 1 ==> measured(chart, stops.first(), stops.last())
                == Err::<int, SpaceError>(SpaceError::NoPath)
        }),
{
    let stops = coords_of(stars);
    let filled = with_stars(g, stars);
    lemma_with_stars(g, stars);
    assert forall|i: int| 0 <= i < stops.len() implies filled.contains_key(#[trigger] stops[i])
        && filled[stops[i]].links.len() == 0 by {
        assert(stops[i] == stars[i].coord);
        assert(coords_of(stars).to_set().contains(stops[i]));
    }
    lemma_with_chain(filled, stops, weight, stops.len() as int);
    assert(stops.take(stops.len() as int) =~= stops);
    lemma_chain_distance(with_chain(filled, stops, weight), stops, weight);
}

} // verus!
