use vstd::prelude::*;
use crate::junction::{Exit, Junction};
use crate::spanning::{Routing, SpanningTree};

verus! {

/// The shape of a segment's geometry.
#[derive(PartialEq, Eq, Structural, Debug, Copy, Clone)]
pub enum SegmentType {
    Unknown,
    Straight,
}

/// A posed piece of road belonging to a tile.  Of the pose the routing
/// logic reads only the compass heading, kept here in whole degrees
/// reduced into `[0, 360)`.
#[derive(PartialEq, Eq, Structural, Debug, Copy, Clone)]
pub struct Segment {
    pub tile: u16,
    pub heading: u32,
    pub segment_type: SegmentType,
}

/// A stretch of a link, holding segments.
#[derive(PartialEq, Eq, Structural, Debug, Copy, Clone)]
pub struct Tile {
    pub id: u16,
    pub link: u16,
}

/// A connection between two junctions.  The nominal direction runs
/// origin to destination; traversal may run either way.
#[derive(Debug, Clone)]
pub struct Link {
    pub id: u16,
    pub tiles: Vec<u16>,
    pub origin: Option<u32>,
    pub destination: Option<u32>,
}

impl Segment {
    pub fn new() -> (r: Segment)
        ensures
            r == (Segment { tile: 0, heading: 0, segment_type: SegmentType::Straight }),
    {
        Segment { tile: 0, heading: 0, segment_type: SegmentType::Straight }
    }

    /// Build a segment from its record fields.
    pub fn from_record(tile: u16, heading: u32, type_field: i32) -> (r: Segment)
        ensures
            r.tile == tile,
            r.heading == heading,
            r.segment_type == (if type_field == 0 {
                SegmentType::Straight
            } else {
                SegmentType::Unknown
            }),
    {
        Segment { tile, heading, segment_type: Segment::segment_type_from_field(type_field) }
    }

    /// The stored type field: 0 means a straight, anything else is
    /// unknown.
    pub fn segment_type_from_field(field: i32) -> (r: SegmentType)
        ensures
            r == (if field == 0 {
                SegmentType::Straight
            } else {
                SegmentType::Unknown
            }),
    {
        if field == 0 {
            return SegmentType::Straight;
        }
        SegmentType::Unknown
    }
}

impl Tile {
    pub fn new(id: u16, link: u16) -> (r: Tile)
        ensures
            r == (Tile { id, link }),
    {
        Tile { id, link }
    }
}

impl Link {
    pub fn new(id: u16) -> (r: Link)
        ensures
            r.id == id,
            r.tiles@.len() == 0,
            r.origin is None,
            r.destination is None,
    {
        Link { id, tiles: Vec::new(), origin: Option::None, destination: Option::None }
    }

    /// Build a link from its record fields.
    pub fn from_record(id: u16, origin: u32, destination: u32) -> (r: Link)
        ensures
            r.id == id,
            r.tiles@.len() == 0,
            r.origin == Option::Some(origin),
            r.destination == Option::Some(destination),
    {
        Link { id, tiles: Vec::new(), origin: Option::Some(origin), destination: Option::Some(destination) }
    }
}

/// The link stored under a one-based id, if the id is in range.
pub open spec fn spec_link_at(links: Seq<Link>, id: int) -> Option<Link> {
    if 1 <= id && id <= links.len() {
        Option::Some(links[id - 1])
    } else {
        Option::None
    }
}

/// The junction stored under a one-based id, if the id is in range.
pub open spec fn spec_junc_at(junctions: Seq<Junction>, id: int) -> Option<Junction> {
    if 1 <= id && id <= junctions.len() {
        Option::Some(junctions[id - 1])
    } else {
        Option::None
    }
}

/// The exits appended to the junction at index `idx` by a row sequence:
/// one per row naming its one-based id, in row order.
pub open spec fn exits_for(rows: Seq<(u32, u16, u32)>, idx: int) -> Seq<Exit>
    decreases rows.len(),
{
    if rows.len() == 0 {
        Seq::empty()
    } else {
        let head: Seq<Exit> = if rows[0].0 == idx + 1 {
            seq![Exit { link_id: rows[0].1, exit: rows[0].2 }]
        } else {
            Seq::empty()
        };
        head + exits_for(rows.drop_first(), idx)
    }
}

proof fn lemma_exits_for_snoc(rows: Seq<(u32, u16, u32)>, r: (u32, u16, u32), idx: int)
    ensures
        exits_for(rows.push(r), idx) == exits_for(rows, idx) + (if r.0 == idx + 1 {
            seq![Exit { link_id: r.1, exit: r.2 }]
        } else {
            Seq::<Exit>::empty()
        }),
    decreases rows.len(),
{
    let tail: Seq<Exit> = if r.0 == idx + 1 {
        seq![Exit { link_id: r.1, exit: r.2 }]
    } else {
        Seq::empty()
    };
    if rows.len() == 0 {
        assert(rows.push(r)[0] == r);
        assert(rows.push(r).drop_first() =~= Seq::<(u32, u16, u32)>::empty());
        assert(exits_for(Seq::<(u32, u16, u32)>::empty(), idx) =~= Seq::<Exit>::empty());
        assert(exits_for(rows.push(r), idx) =~= tail);
        assert(exits_for(rows, idx) + tail =~= tail);
    } else {
        assert(rows.push(r)[0] == rows[0]);
        assert(rows.push(r).drop_first() =~= rows.drop_first().push(r));
        lemma_exits_for_snoc(rows.drop_first(), r, idx);
        let head: Seq<Exit> = if rows[0].0 == idx + 1 {
            seq![Exit { link_id: rows[0].1, exit: rows[0].2 }]
        } else {
            Seq::empty()
        };
        assert(head + (exits_for(rows.drop_first(), idx) + tail) =~= (head + exits_for(
            rows.drop_first(),
            idx,
        )) + tail);
    }
}

/// Rows ordered by junction id, then exit heading.
pub open spec fn rows_ordered(rows: Seq<(u32, u16, u32)>) -> bool {
    forall|i: int, j: int|
        0 <= i < j < rows.len() ==> (rows[i].0 < rows[j].0 || (rows[i].0 == rows[j].0
            && rows[i].2 <= rows[j].2))
}

/// Exit headings in non-decreasing order.
pub open spec fn exits_sorted(s: Seq<Exit>) -> bool {
    forall|i: int, j: int| 0 <= i < j < s.len() ==> s[i].exit <= s[j].exit
}

proof fn lemma_exits_for_lower_bound(rows: Seq<(u32, u16, u32)>, idx: int, b: int)
    requires
        forall|k: int| 0 <= k < rows.len() && rows[k].0 == idx + 1 ==> rows[k].2 >= b,
    ensures
        forall|e: int|
            0 <= e < exits_for(rows, idx).len() ==> exits_for(rows, idx)[e].exit >= b,
    decreases rows.len(),
{
    if rows.len() > 0 {
        let rest = rows.drop_first();
        assert(forall|k: int| 0 <= k < rest.len() ==> rest[k] == rows[k + 1]);
        lemma_exits_for_lower_bound(rest, idx, b);
        let whole = exits_for(rows, idx);
        let tail = exits_for(rest, idx);
        if rows[0].0 == idx + 1 {
            assert forall|e: int| 0 <= e < whole.len() implies whole[e].exit >= b by {
                if e == 0 {
                    assert(whole[0].exit == rows[0].2);
                } else {
                    assert(whole[e] == tail[e - 1]);
                }
            }
        } else {
            assert forall|e: int| 0 <= e < whole.len() implies whole[e].exit >= b by {
                assert(whole[e] == tail[e]);
            }
        }
    }
}

/// Exit ordering after load: a junction that starts with no exits and
/// receives them from rows ordered by junction id, then heading, ends
/// with its exit headings in non-decreasing order.
pub proof fn lemma_loaded_exits_sorted(
    rows: Seq<(u32, u16, u32)>,
    before: Seq<Exit>,
    after: Seq<Exit>,
    idx: int,
)
    requires
        rows_ordered(rows),
        before.len() == 0,
        after == before + exits_for(rows, idx),
    ensures
        exits_sorted(after),
{
    lemma_exits_for_sorted(rows, idx);
    assert(after =~= exits_for(rows, idx));
}

/// Rows ordered by junction id then heading give each junction a
/// non-decreasing exit-heading sequence.
pub proof fn lemma_exits_for_sorted(rows: Seq<(u32, u16, u32)>, idx: int)
    requires
        rows_ordered(rows),
    ensures
        exits_sorted(exits_for(rows, idx)),
    decreases rows.len(),
{
    if rows.len() > 0 {
        let rest = rows.drop_first();
        assert(forall|k: int| 0 <= k < rest.len() ==> rest[k] == rows[k + 1]);
        assert(rows_ordered(rest));
        lemma_exits_for_sorted(rest, idx);
        if rows[0].0 == idx + 1 {
            assert(forall|k: int| 0 <= k < rest.len() && rest[k].0 == idx + 1 ==> rest[k].2
                >= rows[0].2);
            lemma_exits_for_lower_bound(rest, idx, rows[0].2 as int);
            let whole = exits_for(rows, idx);
            assert(forall|e: int| 1 <= e < whole.len() ==> whole[e] == exits_for(rest, idx)[e - 1]);
        }
    }
}

/// A scan for the first segment of the first tile of `link` that has
/// one, in stored order, starting at tile index `i`.
pub open spec fn first_seg_from(tiles: Seq<Tile>, segs: Seq<Segment>, link: int, i: int) -> Option<
    Segment,
>
    decreases tiles.len() - i,
{
    if i < 0 || i >= tiles.len() {
        Option::None
    } else if tiles[i].link == link {
        match seg_of_tile_from(segs, tiles[i].id as int, 0) {
            Option::Some(s) => Option::Some(s),
            Option::None => first_seg_from(tiles, segs, link, i + 1),
        }
    } else {
        first_seg_from(tiles, segs, link, i + 1)
    }
}

/// The first segment belonging to tile `tile`, scanning from `j`.
pub open spec fn seg_of_tile_from(segs: Seq<Segment>, tile: int, j: int) -> Option<Segment>
    decreases segs.len() - j,
{
    if j < 0 || j >= segs.len() {
        Option::None
    } else if segs[j].tile == tile {
        Option::Some(segs[j])
    } else {
        seg_of_tile_from(segs, tile, j + 1)
    }
}

/// A scan for the last segment of the last tile of `link` that has one,
/// walking tile indices downward from `i`.
pub open spec fn last_seg_downto(tiles: Seq<Tile>, segs: Seq<Segment>, link: int, i: int) -> Option<
    Segment,
>
    decreases i + 1,
{
    if i < 0 || i >= tiles.len() {
        Option::None
    } else if tiles[i].link == link {
        match last_seg_of_tile_downto(segs, tiles[i].id as int, segs.len() - 1) {
            Option::Some(s) => Option::Some(s),
            Option::None => last_seg_downto(tiles, segs, link, i - 1),
        }
    } else {
        last_seg_downto(tiles, segs, link, i - 1)
    }
}

/// The last segment belonging to tile `tile`, walking downward from `j`.
pub open spec fn last_seg_of_tile_downto(segs: Seq<Segment>, tile: int, j: int) -> Option<Segment>
    decreases j + 1,
{
    if j < 0 || j >= segs.len() {
        Option::None
    } else if segs[j].tile == tile {
        Option::Some(segs[j])
    } else {
        last_seg_of_tile_downto(segs, tile, j - 1)
    }
}

/// The first segment of a link in tile-major stored order.
pub open spec fn spec_first_segment(tiles: Seq<Tile>, segs: Seq<Segment>, link: int) -> Option<
    Segment,
> {
    first_seg_from(tiles, segs, link, 0)
}

/// The last segment of a link in tile-major stored order.
pub open spec fn spec_last_segment(tiles: Seq<Tile>, segs: Seq<Segment>, link: int) -> Option<
    Segment,
> {
    last_seg_downto(tiles, segs, link, tiles.len() - 1)
}

/// A scan over the exits of `from` for the first whose link has both
/// endpoints present and joins `from` and `to` in either orientation,
/// comparing the ids of the junctions the endpoints resolve to;
/// `usize::MAX` when no exit qualifies.
pub open spec fn find_exit_scan(
    links: Seq<Link>,
    junctions: Seq<Junction>,
    from: Junction,
    to: Junction,
    i: int,
) -> int
    decreases from.links.len() - i,
{
    if i < 0 || i >= from.links.len() {
        usize::MAX as int
    } else {
        let ok = match spec_link_at(links, from.links[i].link_id as int) {
            Option::Some(l) => match (l.origin, l.destination) {
                (Option::Some(o), Option::Some(d)) => match (
                    spec_junc_at(junctions, o as int),
                    spec_junc_at(junctions, d as int),
                ) {
                    (Option::Some(jo), Option::Some(jd)) => (jo.id == from.id && jd.id == to.id)
                        || (jo.id == to.id && jd.id == from.id),
                    _ => false,
                },
                _ => false,
            },
            Option::None => false,
        };
        if ok {
            i
        } else {
            find_exit_scan(links, junctions, from, to, i + 1)
        }
    }
}

/// The first of the first `n` exits whose heading equals `heading`
/// exactly, or 0 when none of them does.
pub open spec fn febh_scan(exits: Seq<Exit>, heading: int, j: int, n: int) -> int
    decreases n - j,
{
    if j < 0 || j >= n || j >= exits.len() {
        0
    } else if exits[j].exit == heading {
        j
    } else {
        febh_scan(exits, heading, j + 1, n)
    }
}

/// The road network: index-addressed stores of links, junctions, tiles
/// and segments, with the routing table and the spanning tree derived
/// from them after loading.
pub struct Network {
    pub links: Vec<Link>,
    pub junctions: Vec<Junction>,
    pub tiles: Vec<Tile>,
    pub segments: Vec<Segment>,
    pub routing: Routing,
    pub spanning_tree: SpanningTree,
}

impl Network {
    pub fn new(links: Vec<Link>, junctions: Vec<Junction>) -> (r: Network)
        ensures
            r.links == links,
            r.junctions == junctions,
            r.tiles@.len() == 0,
            r.segments@.len() == 0,
            r.routing.hops@.len() == 0,
            r.spanning_tree.nodes@.len() == 0,
    {
        Network {
            links,
            junctions,
            tiles: Vec::new(),
            segments: Vec::new(),
            routing: Routing::new(),
            spanning_tree: SpanningTree::empty(),
        }
    }

    pub fn empty() -> (r: Network)
        ensures
            r.links@.len() == 0,
            r.junctions@.len() == 0,
            r.tiles@.len() == 0,
            r.segments@.len() == 0,
            r.routing.hops@.len() == 0,
            r.spanning_tree.nodes@.len() == 0,
    {
        Network::new(Vec::new(), Vec::new())
    }

    pub fn get_link(&self, id: u16) -> (r: &Link)
        requires
            1 <= id <= self.links@.len(),
        ensures
            *r == self.links@[id - 1],
    {
        &self.links[(id - 1) as usize]
    }

    /// The link under `id`, or nothing when the id is out of range.
    pub fn link_opt(&self, id: u16) -> (r: Option<&Link>)
        ensures
            match r {
                Option::Some(l) => spec_link_at(self.links@, id as int) == Option::Some(*l),
                Option::None => spec_link_at(self.links@, id as int) is None,
            },
    {
        if 1 <= id && (id as usize) <= self.links.len() {
            Option::Some(&self.links[(id - 1) as usize])
        } else {
            Option::None
        }
    }

    pub fn get_junc(&self, id: u32) -> (r: &Junction)
        requires
            1 <= id <= self.junctions@.len(),
        ensures
            *r == self.junctions@[id - 1],
    {
        &self.junctions[(id - 1) as usize]
    }

    /// The junction under `id`, or nothing when the id is out of range.
    pub fn junc_opt(&self, id: u32) -> (r: Option<&Junction>)
        ensures
            match r {
                Option::Some(j) => spec_junc_at(self.junctions@, id as int) == Option::Some(*j),
                Option::None => spec_junc_at(self.junctions@, id as int) is None,
            },
    {
        if 1 <= id && (id as usize) <= self.junctions.len() {
            Option::Some(&self.junctions[(id - 1) as usize])
        } else {
            Option::None
        }
    }

    /// The junction under an optional id, which must be in range when
    /// present.
    pub fn get_junc_if_exists(&self, id: Option<u32>) -> (r: Option<&Junction>)
        requires
            id matches Option::Some(v) ==> 1 <= v <= self.junctions@.len(),
        ensures
            match id {
                Option::Some(v) => r matches Option::Some(j) && *j == self.junctions@[v - 1],
                Option::None => r is None,
            },
    {
        if let Option::Some(valid_id) = id {
            Option::Some(self.get_junc(valid_id))
        } else {
            Option::None
        }
    }

    pub fn add_link(&mut self, link: Link)
        ensures
            final(self).links@ == old(self).links@.push(link),
            final(self).junctions == old(self).junctions,
            final(self).tiles == old(self).tiles,
            final(self).segments == old(self).segments,
            final(self).routing == old(self).routing,
            final(self).spanning_tree == old(self).spanning_tree,
    {
        self.links.push(link);
    }

    pub fn set_links(&mut self, links: Vec<Link>)
        ensures
            final(self).links == links,
            final(self).junctions == old(self).junctions,
            final(self).tiles == old(self).tiles,
            final(self).segments == old(self).segments,
            final(self).routing == old(self).routing,
            final(self).spanning_tree == old(self).spanning_tree,
    {
        self.links = links;
    }

    pub fn set_junctions(&mut self, junctions: Vec<Junction>)
        ensures
            final(self).junctions == junctions,
            final(self).links == old(self).links,
            final(self).tiles == old(self).tiles,
            final(self).segments == old(self).segments,
            final(self).routing == old(self).routing,
            final(self).spanning_tree == old(self).spanning_tree,
    {
        self.junctions = junctions;
    }

    pub fn set_tiles(&mut self, tiles: Vec<Tile>)
        ensures
            final(self).tiles == tiles,
            final(self).links == old(self).links,
            final(self).junctions == old(self).junctions,
            final(self).segments == old(self).segments,
            final(self).routing == old(self).routing,
            final(self).spanning_tree == old(self).spanning_tree,
    {
        self.tiles = tiles;
    }

    pub fn set_segments(&mut self, segments: Vec<Segment>)
        ensures
            final(self).segments == segments,
            final(self).links == old(self).links,
            final(self).junctions == old(self).junctions,
            final(self).tiles == old(self).tiles,
            final(self).routing == old(self).routing,
            final(self).spanning_tree == old(self).spanning_tree,
    {
        self.segments = segments;
    }

    /// Append an exit to each named junction, in row order.  A row
    /// naming an id out of range is skipped.
    pub fn set_junction_connections(&mut self, connections: &Vec<(u32, u16, u32)>)
        ensures
            final(self).links == old(self).links,
            final(self).tiles == old(self).tiles,
            final(self).segments == old(self).segments,
            final(self).routing == old(self).routing,
            final(self).spanning_tree == old(self).spanning_tree,
            final(self).junctions@.len() == old(self).junctions@.len(),
            forall|j: int|
                0 <= j < old(self).junctions@.len() ==> (#[trigger] final(self).junctions@[j]).id
                    == old(self).junctions@[j].id && final(self).junctions@[j].links@ == old(
                    self,
                ).junctions@[j].links@ + exits_for(connections@, j),
    {
        let ghost rows = connections@;
        let ghost j0 = self.junctions@;
        let mut k: usize = 0;
        while k < connections.len()
            invariant
                rows == connections@,
                k <= rows.len(),
                self.links == old(self).links,
                self.tiles == old(self).tiles,
                self.segments == old(self).segments,
                self.routing == old(self).routing,
                self.spanning_tree == old(self).spanning_tree,
                j0 == old(self).junctions@,
                self.junctions@.len() == j0.len(),
                forall|j: int|
                    0 <= j < j0.len() ==> (#[trigger] self.junctions@[j]).id == j0[j].id
                        && self.junctions@[j].links@ == j0[j].links@ + exits_for(
                        rows.subrange(0, k as int),
                        j,
                    ),
            decreases rows.len() - k,
        {
            let (junc_id, link_id, exit) = connections[k];
            proof {
                assert(rows.subrange(0, k as int).push(rows[k as int]) =~= rows.subrange(
                    0,
                    k + 1,
                ));
            }
            if 1 <= junc_id && (junc_id as usize) <= self.junctions.len() {
                let idx = (junc_id - 1) as usize;
                let ghost pre = self.junctions@;
                self.junctions[idx].add_link(link_id, exit);
                proof {
                    assert(forall|j: int|
                        0 <= j < j0.len() && j != idx ==> self.junctions@[j] == pre[j]);
                    assert forall|j: int| 0 <= j < j0.len() implies (
                    #[trigger] self.junctions@[j]).id == j0[j].id && self.junctions@[j].links@
                        == j0[j].links@ + exits_for(rows.subrange(0, k + 1), j) by {
                        lemma_exits_for_snoc(rows.subrange(0, k as int), rows[k as int], j);
                        if j == idx {
                            assert(pre[j].links@.push(
                                Exit { link_id: rows[k as int].1, exit: rows[k as int].2 },
                            ) =~= pre[j].links@ + seq![
                                Exit { link_id: rows[k as int].1, exit: rows[k as int].2 },
                            ]);
                            assert((j0[j].links@ + exits_for(rows.subrange(0, k as int), j))
                                + seq![
                                Exit { link_id: rows[k as int].1, exit: rows[k as int].2 },
                            ] =~= j0[j].links@ + (exits_for(rows.subrange(0, k as int), j)
                                + seq![
                                Exit { link_id: rows[k as int].1, exit: rows[k as int].2 },
                            ]));
                        } else {
                            assert(exits_for(rows.subrange(0, k + 1), j) =~= exits_for(
                                rows.subrange(0, k as int),
                                j,
                            ));
                        }
                    }
                }
            } else {
                proof {
                    assert forall|j: int| 0 <= j < j0.len() implies (
                    #[trigger] self.junctions@[j]).id == j0[j].id && self.junctions@[j].links@
                        == j0[j].links@ + exits_for(rows.subrange(0, k + 1), j) by {
                        lemma_exits_for_snoc(rows.subrange(0, k as int), rows[k as int], j);
                        assert(exits_for(rows.subrange(0, k + 1), j) =~= exits_for(
                            rows.subrange(0, k as int),
                            j,
                        ));
                    }
                }
            }
            k = k + 1;
        }
        proof {
            assert(rows.subrange(0, rows.len() as int) =~= rows);
        }
    }

    /// Assemble a network from already-materialised record streams,
    /// wire the junction exits, then build the spanning tree and
    /// synthesise the routing table.
    pub fn from_records(
        links: Vec<Link>,
        junctions: Vec<Junction>,
        connections: &Vec<(u32, u16, u32)>,
        tiles: Vec<Tile>,
        segments: Vec<Segment>,
    ) -> (r: Network)
        ensures
            r.links == links,
            r.tiles == tiles,
            r.segments == segments,
            r.junctions@.len() == junctions@.len(),
            forall|j: int|
                0 <= j < junctions@.len() ==> (#[trigger] r.junctions@[j]).id == junctions@[j].id
                    && r.junctions@[j].links@ == junctions@[j].links@ + exits_for(
                    connections@,
                    j,
                ),
            r.routing.wf(),
            crate::spanning::tree_wf(r.spanning_tree.nodes@, junctions@.len() as int),
            crate::spanning::children_linked(r.spanning_tree.nodes@),
            crate::spanning::tree_edges_valid(r.spanning_tree.nodes@, r.junctions@, r.links@),
            crate::spanning::arena_matches(
                r.spanning_tree.nodes@,
                crate::spanning::spec_spanning_arena(r.junctions@, r.links@),
            ),
            junctions@.len() > 0 ==> r.spanning_tree.nodes@.len() >= 1
                && r.spanning_tree.nodes@[0].junction == 0
                && r.spanning_tree.nodes@[0].parent is None,
            junctions@.len() > 0 ==> crate::spanning::in_tree(r.spanning_tree.nodes@, 0)
                && crate::spanning::tree_closed(r.spanning_tree.nodes@, r.junctions@, r.links@),
            r.routing.hops@ == crate::spanning::spec_build_routes(
                Seq::empty(),
                r.links@,
                r.junctions@,
                r.spanning_tree.nodes@,
            ),
            forall|h: int|
                0 <= h < r.routing.hops@.len() ==> (#[trigger] r.routing.hops@[h]).exit != 270,
    {
        let mut network = Network::empty();
        network.set_links(links);
        network.set_junctions(junctions);
        network.set_junction_connections(connections);
        network.set_tiles(tiles);
        network.set_segments(segments);
        network.build_spanning_tree();
        proof {
            assert(network.routing.hops@ =~= Seq::<crate::spanning::Hop>::empty());
        }
        network.build_routes();
        network
    }

    /// The first segment of `link`: scan the tiles in stored order and,
    /// within the first tile of the link owning any segment, the
    /// segments in stored order.
    pub fn first_segment_for_link(&self, link: &Link) -> (r: Option<Segment>)
        ensures
            r == spec_first_segment(self.tiles@, self.segments@, link.id as int),
    {
        let mut i: usize = 0;
        while i < self.tiles.len()
            invariant
                i <= self.tiles@.len(),
                first_seg_from(self.tiles@, self.segments@, link.id as int, 0) == first_seg_from(
                    self.tiles@,
                    self.segments@,
                    link.id as int,
                    i as int,
                ),
            decreases self.tiles@.len() - i,
        {
            if self.tiles[i].link == link.id {
                let tile_id = self.tiles[i].id;
                let mut j: usize = 0;
                while j < self.segments.len()
                    invariant
                        j <= self.segments@.len(),
                        i < self.tiles@.len(),
                        self.tiles@[i as int].link == link.id,
                        tile_id == self.tiles@[i as int].id,
                        first_seg_from(self.tiles@, self.segments@, link.id as int, 0)
                            == first_seg_from(self.tiles@, self.segments@, link.id as int, i as int),
                        seg_of_tile_from(self.segments@, tile_id as int, 0) == seg_of_tile_from(
                            self.segments@,
                            tile_id as int,
                            j as int,
                        ),
                    decreases self.segments@.len() - j,
                {
                    if self.segments[j].tile == tile_id {
                        proof {
                            assert(seg_of_tile_from(self.segments@, tile_id as int, j as int)
                                == Option::Some(self.segments@[j as int]));
                            assert(first_seg_from(self.tiles@, self.segments@, link.id as int, i as int)
                                == Option::Some(self.segments@[j as int]));
                        }
                        return Option::Some(self.segments[j]);
                    }
                    j = j + 1;
                }
                proof {
                    assert(seg_of_tile_from(self.segments@, tile_id as int, j as int) is None);
                    assert(first_seg_from(self.tiles@, self.segments@, link.id as int, i as int)
                        == first_seg_from(self.tiles@, self.segments@, link.id as int, i + 1));
                }
            }
            i = i + 1;
        }
        Option::None
    }

    /// The last segment of `link`: the last matching segment of the last
    /// tile of the link owning any segment, in stored order.
    pub fn last_segment_for_link(&self, link: &Link) -> (r: Option<Segment>)
        ensures
            r == spec_last_segment(self.tiles@, self.segments@, link.id as int),
    {
        let mut retval: Option<Segment> = Option::None;
        let mut i: usize = 0;
        while i < self.tiles.len()
            invariant
                i <= self.tiles@.len(),
                retval == last_seg_downto(
                    self.tiles@,
                    self.segments@,
                    link.id as int,
                    i as int - 1,
                ),
            decreases self.tiles@.len() - i,
        {
            if self.tiles[i].link == link.id {
                let tile_id = self.tiles[i].id;
                let mut inner: Option<Segment> = Option::None;
                let mut j: usize = 0;
                while j < self.segments.len()
                    invariant
                        j <= self.segments@.len(),
                        inner == last_seg_of_tile_downto(
                            self.segments@,
                            tile_id as int,
                            j as int - 1,
                        ),
                    decreases self.segments@.len() - j,
                {
                    if self.segments[j].tile == tile_id {
                        inner = Option::Some(self.segments[j]);
                    } else {
                        proof {
                            lemma_last_seg_of_tile_step(self.segments@, tile_id as int, j as int);
                        }
                    }
                    j = j + 1;
                }
                if inner.is_some() {
                    retval = inner;
                }
                proof {
                    if inner is None {
                        lemma_last_seg_downto_step(
                            self.tiles@,
                            self.segments@,
                            link.id as int,
                            i as int,
                        );
                    }
                }
            } else {
                proof {
                    lemma_last_seg_downto_step(
                        self.tiles@,
                        self.segments@,
                        link.id as int,
                        i as int,
                    );
                }
            }
            i = i + 1;
        }
        retval
    }

    /// The index of the first exit of `from` whose link joins `from`
    /// and `to` (in either orientation), or `usize::MAX` when none does.
    pub fn find_exit(&self, from: &Junction, to: &Junction) -> (r: usize)
        ensures
            r as int == find_exit_scan(self.links@, self.junctions@, *from, *to, 0),
            r != usize::MAX ==> r < from.links@.len(),
    {
        let mut i: usize = 0;
        while i < from.links.len()
            invariant
                i <= from.links@.len(),
                find_exit_scan(self.links@, self.junctions@, *from, *to, 0) == find_exit_scan(
                    self.links@,
                    self.junctions@,
                    *from,
                    *to,
                    i as int,
                ),
            decreases from.links@.len() - i,
        {
            let ex = from.links[i];
            if let Option::Some(link) = self.link_opt(ex.link_id) {
                if let (Option::Some(o), Option::Some(d)) = (link.origin, link.destination) {
                    let jo = self.junc_opt(o);
                    let jd = self.junc_opt(d);
                    if let (Option::Some(jo), Option::Some(jd)) = (jo, jd) {
                        if (jo.id == from.id && jd.id == to.id) || (jo.id == to.id && jd.id
                            == from.id) {
                            return i;
                        }
                    }
                }
            }
            i = i + 1;
        }
        usize::MAX
    }

    /// The first exit of `to` whose stored heading equals `exit_heading`
    /// exactly, scanning as many exits as the network has links; 0 when
    /// none matches.
    pub fn find_exit_by_heading(&self, to: &Junction, exit_heading: u32) -> (r: usize)
        requires
            self.links@.len() <= to.links@.len(),
        ensures
            r as int == febh_scan(to.links@, exit_heading as int, 0, self.links@.len() as int),
    {
        let n = self.links.len();
        let mut j: usize = 0;
        while j < n
            invariant
                j <= n,
                n == self.links@.len(),
                n <= to.links@.len(),
                febh_scan(to.links@, exit_heading as int, 0, n as int) == febh_scan(
                    to.links@,
                    exit_heading as int,
                    j as int,
                    n as int,
                ),
            decreases n - j,
        {
            if to.links[j].exit == exit_heading {
                return j;
            }
            j = j + 1;
        }
        0
    }

    pub fn num_links(&self) -> (r: usize)
        ensures
            r == self.links@.len(),
    {
        self.links.len()
    }

    pub fn num_junctions(&self) -> (r: usize)
        ensures
            r == self.junctions@.len(),
    {
        self.junctions.len()
    }

    pub fn num_tiles(&self) -> (r: usize)
        ensures
            r == self.tiles@.len(),
    {
        self.tiles.len()
    }

    pub fn num_segments(&self) -> (r: usize)
        ensures
            r == self.segments@.len(),
    {
        self.segments.len()
    }
}

/// An incremental builder for small networks: links and junctions get
/// consecutive ids starting at 0, and each new link is wired as an exit
/// of the most recently added junction at a fixed 90-degree heading.
pub struct NetworkBuilder {
    pub links: Vec<Link>,
    pub junctions: Vec<Junction>,
    pub next_junc: u32,
    pub next_link: u16,
}

impl NetworkBuilder {
    pub fn new() -> (r: NetworkBuilder)
        ensures
            r.links@.len() == 0,
            r.junctions@.len() == 0,
            r.next_junc == 0,
            r.next_link == 0,
    {
        NetworkBuilder { links: Vec::new(), junctions: Vec::new(), next_junc: 0, next_link: 0 }
    }

    /// Add a link under the next id and, when a junction exists, hang
    /// it on the latest one as an exit at heading 90.
    pub fn create_link(&mut self)
        requires
            old(self).next_link < u16::MAX,
        ensures
            final(self).next_link == old(self).next_link + 1,
            final(self).next_junc == old(self).next_junc,
            final(self).links@.len() == old(self).links@.len() + 1,
            forall|i: int|
                0 <= i < old(self).links@.len() ==> final(self).links@[i] == old(self).links@[i],
            final(self).links@.last().id == old(self).next_link,
            final(self).links@.last().origin is None,
            final(self).links@.last().destination is None,
            old(self).junctions@.len() == 0 ==> final(self).junctions == old(self).junctions,
            old(self).junctions@.len() > 0 ==> final(self).junctions@.len() == old(
                self,
            ).junctions@.len() && final(self).junctions@.last().links@ == old(
                self,
            ).junctions@.last().links@.push(
                crate::junction::Exit { link_id: old(self).next_link, exit: 90 },
            ),
    {
        self.links.push(Link::new(self.next_link));
        let n = self.junctions.len();
        if n > 0 {
            let link_id = self.links[self.links.len() - 1].id;
            self.junctions[n - 1].add_link(link_id, 90);
        }
        self.next_link = self.next_link + 1;
    }

    /// Add a junction under the next id.
    pub fn add_junction(&mut self)
        requires
            old(self).next_junc < u32::MAX,
        ensures
            final(self).next_junc == old(self).next_junc + 1,
            final(self).next_link == old(self).next_link,
            final(self).links == old(self).links,
            final(self).junctions@.len() == old(self).junctions@.len() + 1,
            forall|i: int|
                0 <= i < old(self).junctions@.len() ==> final(self).junctions@[i] == old(
                    self,
                ).junctions@[i],
            final(self).junctions@.last().id == old(self).next_junc,
            final(self).junctions@.last().links@.len() == 0,
    {
        self.junctions.push(Junction::new(self.next_junc));
        self.next_junc = self.next_junc + 1;
    }

    pub fn num_junctions(&self) -> (r: usize)
        ensures
            r == self.junctions@.len(),
    {
        self.junctions.len()
    }

    pub fn num_links(&self) -> (r: usize)
        ensures
            r == self.links@.len(),
    {
        self.links.len()
    }

    /// Hand the collected links and junctions to a fresh network.
    pub fn build(self) -> (r: Box<Network>)
        ensures
            r.links == self.links,
            r.junctions == self.junctions,
            r.tiles@.len() == 0,
            r.segments@.len() == 0,
            r.routing.hops@.len() == 0,
            r.spanning_tree.nodes@.len() == 0,
    {
        Box::new(Network::new(self.links, self.junctions))
    }
}

proof fn lemma_last_seg_of_tile_step(segs: Seq<Segment>, tile: int, j: int)
    requires
        0 <= j < segs.len(),
        segs[j].tile != tile,
    ensures
        last_seg_of_tile_downto(segs, tile, j) == last_seg_of_tile_downto(segs, tile, j - 1),
{
}

proof fn lemma_last_seg_downto_step(tiles: Seq<Tile>, segs: Seq<Segment>, link: int, i: int)
    requires
        0 <= i < tiles.len(),
        tiles[i].link != link || last_seg_of_tile_downto(segs, tiles[i].id as int, segs.len() - 1)
            is None,
    ensures
        last_seg_downto(tiles, segs, link, i) == last_seg_downto(tiles, segs, link, i - 1),
{
}

} // verus!
