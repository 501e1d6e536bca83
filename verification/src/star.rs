//! Coordinates, links and stars: the values a space is made of.

use vstd::prelude::*;

verus! {

/// The place of a star: a pair `(x, y)`. Two stars at one coordinate are the
/// same star.
#[derive(Clone, Copy, PartialEq, Eq, Hash, Debug, Structural)]
pub struct Coord(pub usize, pub usize);

/// A one-way link to the star at `end`, travelled at the cost `distance`.
/// The cost may be zero or negative.
#[derive(Clone, Copy, PartialEq, Eq, Debug, Structural)]
pub struct Link {
    pub distance: i64,
    pub end: Coord,
}

impl Link {
    /// A link to the star at `end`, at the cost `distance`.
    pub fn new(distance: i64, end: Coord) -> (link: Link)
        ensures
            link == (Link { distance, end }),
    {
        Link { distance, end }
    }
}

/// What a star is, as a mathematical value.
pub struct StarView {
    pub name: Seq<char>,
    pub coord: Coord,
    pub links: Seq<Link>,
}

/// A named point with its outgoing links, in the order in which they were made.
pub struct Star {
    pub name: String,
    pub coord: Coord,
    neighbors: Vec<Link>,
}

impl View for Star {
    type V = StarView;

    closed spec fn view(&self) -> StarView {
        StarView { name: self.name@, coord: self.coord, links: self.neighbors@ }
    }
}

impl Star {
    /// A star called `name` at `(x, y)`, with no links yet.
    pub fn new(name: &str, x: usize, y: usize) -> (star: Star)
        ensures
            star@ == (StarView { name: name@, coord: Coord(x, y), links: Seq::empty() }),
    {
        Star { name: name.to_string(), coord: Coord(x, y), neighbors: Vec::new() }
    }

    /// Where the star stands.
    pub fn coord(&self) -> (coord: Coord)
        ensures
            coord == self@.coord,
    {
        self.coord
    }

    /// The outgoing links of the star, oldest first.
    pub fn links(&self) -> (links: &Vec<Link>)
        ensures
            links@ == self@.links,
    {
        &self.neighbors
    }

    /// Adds `link` behind the links that the star already has.
    pub(crate) fn attach(&mut self, link: Link)
        ensures
            final(self)@ == (StarView { links: old(self)@.links.push(link), ..old(self)@ }),
    {
        self.neighbors.push(link);
    }
}

} // verus!
