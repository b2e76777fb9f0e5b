use vstd::prelude::*;
use crate::junction::{
    Exit, Junction, spec_find_entry, spec_find_exit_from_heading, spec_turn_heading,
    spec_compass_heading, spec_reciprocal,
};
use crate::network::{
    Link, Network, Segment, SegmentType, Tile, spec_link_at, spec_junc_at, spec_first_segment,
    spec_last_segment, first_seg_from, seg_of_tile_from, last_seg_downto, last_seg_of_tile_downto,
};
use crate::junction::{best_match_from, feh_from};
use crate::route::{CompassDirection, Route, Turn, TurnDirection, TurnMultiplicity, TurningPattern};

verus! {

/// What one step of the walk does: stop the whole evaluation, give up
/// on the current pattern, or take a hop onto the next link.
pub enum StepOutcome {
    Finished,
    NoExit,
    Taken { junction_id: u32, exit_index: int, next_link: u16, next_dir: int },
}

/// The junction a traveller on `link` is about to reach: the origin
/// when travelling against the link, the destination otherwise.
pub open spec fn step_junction(link: Link, dir: int) -> Option<u32> {
    if dir == -1 {
        link.origin
    } else {
        link.destination
    }
}

/// The heading at which the traveller arrives there: the last segment's
/// heading going with the link, the reciprocal of the first segment's
/// heading going against it, and 0 when the link has no segment.
pub open spec fn step_heading(tiles: Seq<Tile>, segs: Seq<Segment>, link: Link, dir: int) -> int {
    if dir == -1 {
        match spec_first_segment(tiles, segs, link.id as int) {
            Option::Some(s) => spec_reciprocal(s.heading as int),
            Option::None => 0,
        }
    } else {
        match spec_last_segment(tiles, segs, link.id as int) {
            Option::Some(s) => s.heading as int,
            Option::None => 0,
        }
    }
}

/// The exit index the turn intent picks at `junc` when arriving at
/// `heading`; nothing when the intent cannot be satisfied there.
pub open spec fn step_exit(junc: Junction, heading: int, turn: Turn) -> Option<int> {
    let entry = spec_find_entry(junc.links@, heading);
    match turn {
        Turn::Relative(d) => if junc.links@.len() == 0 {
            Option::None
        } else {
            spec_find_exit_from_heading(
                junc.links@,
                spec_turn_heading(junc.links@[entry].exit as int, d),
            )
        },
        Turn::Compass(d) => spec_find_exit_from_heading(
            junc.links@,
            spec_compass_heading(d) as int,
        ),
        Turn::Exit(n) => if junc.links@.len() == 0 {
            Option::None
        } else {
            Option::Some((entry - n as int) % (junc.links@.len() as int))
        },
        Turn::Heading(h) => spec_find_exit_from_heading(junc.links@, h as int),
    }
}

/// The direction of travel on the link behind `exit` after leaving
/// `junc_id` through it: forward when the junction is the link's
/// origin, backward when it is its destination (the latter wins on a
/// self-loop), unchanged when it is neither or the link is unresolved.
pub open spec fn step_next_dir(links: Seq<Link>, exit: Exit, junc_id: u32, dir: int) -> int {
    match spec_link_at(links, exit.link_id as int) {
        Option::Some(nl) => {
            let d1 = if nl.origin == Option::Some(junc_id) {
                1int
            } else {
                dir
            };
            if nl.destination == Option::Some(junc_id) {
                -1int
            } else {
                d1
            }
        },
        Option::None => dir,
    }
}

/// One step of the walk: standing on `link_id` travelling `dir`, reach
/// the upcoming junction and resolve the intent `turn` there.  A link,
/// junction id or junction that does not resolve finishes the whole
/// evaluation; an unsatisfiable intent gives up on the pattern.
pub open spec fn spec_eval_step(
    links: Seq<Link>,
    junctions: Seq<Junction>,
    tiles: Seq<Tile>,
    segs: Seq<Segment>,
    link_id: int,
    dir: int,
    turn: Turn,
) -> StepOutcome {
    match spec_link_at(links, link_id) {
        Option::None => StepOutcome::Finished,
        Option::Some(link) => {
            let heading = step_heading(tiles, segs, link, dir);
            match step_junction(link, dir) {
                Option::None => StepOutcome::Finished,
                Option::Some(jid) => match spec_junc_at(junctions, jid as int) {
                    Option::None => StepOutcome::Finished,
                    Option::Some(junc) => match step_exit(junc, heading, turn) {
                        Option::None => StepOutcome::NoExit,
                        Option::Some(e) => {
                            let ex = junc.links@[e];
                            StepOutcome::Taken {
                                junction_id: junc.id,
                                exit_index: e,
                                next_link: ex.link_id,
                                next_dir: step_next_dir(links, ex, junc.id, dir),
                            }
                        },
                    },
                },
            }
        },
    }
}

/// How many junctions in a row a pattern may consume: its count, with
/// "always" behaving as the largest count.
pub open spec fn pat_limit(pats: Seq<TurningPattern>, i: int) -> int {
    if 0 <= i < pats.len() {
        match pats[i].count {
            TurnMultiplicity::Count(n) => n as int,
            TurnMultiplicity::Always => u32::MAX as int,
        }
    } else {
        0
    }
}

/// The hops taken from pattern `pi` on, with `rem` turns left in the
/// current pattern, standing on `link_id` travelling `dir`.
pub open spec fn spec_eval_from(
    links: Seq<Link>,
    junctions: Seq<Junction>,
    tiles: Seq<Tile>,
    segs: Seq<Segment>,
    pats: Seq<TurningPattern>,
    pi: int,
    rem: int,
    link_id: int,
    dir: int,
) -> Seq<(u32, usize)>
    decreases pats.len() - pi, rem,
{
    if pi < 0 || pi >= pats.len() {
        Seq::empty()
    } else if rem <= 0 {
        spec_eval_from(
            links,
            junctions,
            tiles,
            segs,
            pats,
            pi + 1,
            pat_limit(pats, pi + 1),
            link_id,
            dir,
        )
    } else {
        match spec_eval_step(links, junctions, tiles, segs, link_id, dir, pats[pi].turn) {
            StepOutcome::Finished => Seq::empty(),
            StepOutcome::NoExit => spec_eval_from(
                links,
                junctions,
                tiles,
                segs,
                pats,
                pi + 1,
                pat_limit(pats, pi + 1),
                link_id,
                dir,
            ),
            StepOutcome::Taken { junction_id, exit_index, next_link, next_dir } => seq![
                (junction_id, exit_index as usize),
            ] + spec_eval_from(
                links,
                junctions,
                tiles,
                segs,
                pats,
                pi,
                rem - 1,
                next_link as int,
                next_dir,
            ),
        }
    }
}

/// All hops of a route on a network: a function of the network's
/// stores and the route value alone.
pub open spec fn spec_evaluate_route(
    links: Seq<Link>,
    junctions: Seq<Junction>,
    tiles: Seq<Tile>,
    segs: Seq<Segment>,
    route: Route,
) -> Seq<(u32, usize)> {
    spec_eval_from(
        links,
        junctions,
        tiles,
        segs,
        route.patterns@,
        0,
        pat_limit(route.patterns@, 0),
        route.start_link as int,
        route.trav_dir as int,
    )
}

impl Network {
    /// Interpret a route: walk junction by junction, resolving each
    /// pattern's intent at the upcoming junction, for as many turns as
    /// its multiplicity allows.  The result is the ordered list of
    /// `(junction id, exit index)` hops actually taken, and is fully
    /// determined by the network and the route.
    pub fn evaluate_route(&self, route: &Route) -> (r: Vec<(u32, usize)>)
        ensures
            r@ == spec_evaluate_route(
                self.links@,
                self.junctions@,
                self.tiles@,
                self.segments@,
                *route,
            ),
    {
        let ghost total = spec_evaluate_route(
            self.links@,
            self.junctions@,
            self.tiles@,
            self.segments@,
            *route,
        );
        let mut v: Vec<(u32, usize)> = Vec::new();
        let mut link_id: u16 = route.start_link;
        let mut dir: i32 = route.trav_dir;
        let npats = route.patterns.len();
        let mut pi: usize = 0;
        while pi < npats
            invariant
                npats == route.patterns@.len(),
                pi <= npats,
                total == v@ + spec_eval_from(
                    self.links@,
                    self.junctions@,
                    self.tiles@,
                    self.segments@,
                    route.patterns@,
                    pi as int,
                    pat_limit(route.patterns@, pi as int),
                    link_id as int,
                    dir as int,
                ),
                total == spec_evaluate_route(
                    self.links@,
                    self.junctions@,
                    self.tiles@,
                    self.segments@,
                    *route,
                ),
            decreases npats - pi,
        {
            let pattern = route.patterns[pi];
            let mut rem: u32 = match pattern.count {
                TurnMultiplicity::Count(n) => n,
                TurnMultiplicity::Always => u32::MAX,
            };
            proof {
                assert(rem as int == pat_limit(route.patterns@, pi as int));
            }
            while rem > 0
                invariant_except_break
                    npats == route.patterns@.len(),
                    pi < npats,
                    pattern == route.patterns@[pi as int],
                    total == v@ + spec_eval_from(
                        self.links@,
                        self.junctions@,
                        self.tiles@,
                        self.segments@,
                        route.patterns@,
                        pi as int,
                        rem as int,
                        link_id as int,
                        dir as int,
                    ),
                    total == spec_evaluate_route(
                        self.links@,
                        self.junctions@,
                        self.tiles@,
                        self.segments@,
                        *route,
                    ),
                ensures
                    npats == route.patterns@.len(),
                    pi < npats,
                    total == v@ + spec_eval_from(
                        self.links@,
                        self.junctions@,
                        self.tiles@,
                        self.segments@,
                        route.patterns@,
                        pi as int + 1,
                        pat_limit(route.patterns@, pi as int + 1),
                        link_id as int,
                        dir as int,
                    ),
                    total == spec_evaluate_route(
                        self.links@,
                        self.junctions@,
                        self.tiles@,
                        self.segments@,
                        *route,
                    ),
                decreases rem,
            {
                let ghost pre_link = link_id as int;
                let ghost pre_dir = dir as int;
                let ghost step = spec_eval_step(
                    self.links@,
                    self.junctions@,
                    self.tiles@,
                    self.segments@,
                    pre_link,
                    pre_dir,
                    pattern.turn,
                );
                let link = match self.link_opt(link_id) {
                    Option::Some(l) => l,
                    Option::None => {
                        proof {
                            assert(step is Finished);
                            assert(v@ + Seq::<(u32, usize)>::empty() =~= v@);
                        }
                        return v;
                    },
                };
                let heading: u32;
                let junc_id_opt: Option<u32>;
                if dir == -1 {
                    heading = match self.first_segment_for_link(link) {
                        Option::Some(s) => Junction::reciprocal(s.heading),
                        Option::None => 0,
                    };
                    junc_id_opt = link.origin;
                } else {
                    heading = match self.last_segment_for_link(link) {
                        Option::Some(s) => s.heading,
                        Option::None => 0,
                    };
                    junc_id_opt = link.destination;
                }
                proof {
                    assert(heading as int == step_heading(
                        self.tiles@,
                        self.segments@,
                        self.links@[pre_link - 1],
                        pre_dir,
                    ));
                }
                let jid = match junc_id_opt {
                    Option::Some(j) => j,
                    Option::None => {
                        proof {
                            assert(step is Finished);
                            assert(v@ + Seq::<(u32, usize)>::empty() =~= v@);
                        }
                        return v;
                    },
                };
                let junc = match self.junc_opt(jid) {
                    Option::Some(j) => j,
                    Option::None => {
                        proof {
                            assert(step is Finished);
                            assert(v@ + Seq::<(u32, usize)>::empty() =~= v@);
                        }
                        return v;
                    },
                };
                let entry = junc.find_entry(heading);
                let nexits = junc.links.len();
                let exit_index: usize = match pattern.turn {
                    Turn::Relative(d) => if nexits == 0 {
                        usize::MAX
                    } else {
                        junc.find_exit_from_turn_direction(entry, d)
                    },
                    Turn::Compass(d) => junc.find_exit_from_compass(d),
                    Turn::Exit(n) => if nexits == 0 {
                        usize::MAX
                    } else {
                        junc.find_relative_exit(entry, n as usize)
                    },
                    Turn::Heading(h) => junc.find_exit_from_heading(h),
                };
                if exit_index == usize::MAX {
                    proof {
                        assert(step_exit(*junc, heading as int, pattern.turn) is None);
                        assert(step is NoExit);
                    }
                    break ;
                }
                proof {
                    assert(step_exit(*junc, heading as int, pattern.turn) == Option::Some(
                        exit_index as int,
                    ));
                    assert(exit_index < junc.links@.len());
                }
                let ex = junc.links[exit_index];
                let ghost pre_v = v@;
                v.push((junc.id, exit_index));
                let jid_here = junc.id;
                match self.link_opt(ex.link_id) {
                    Option::Some(nl) => {
                        match nl.origin {
                            Option::Some(o) => if o == jid_here {
                                dir = 1;
                            },
                            Option::None => {},
                        }
                        match nl.destination {
                            Option::Some(d) => if d == jid_here {
                                dir = -1;
                            },
                            Option::None => {},
                        }
                    },
                    Option::None => {},
                }
                link_id = ex.link_id;
                rem = rem - 1;
                proof {
                    assert(step == (StepOutcome::Taken {
                        junction_id: jid_here,
                        exit_index: exit_index as int,
                        next_link: link_id,
                        next_dir: dir as int,
                    }));
                    let rest = spec_eval_from(
                        self.links@,
                        self.junctions@,
                        self.tiles@,
                        self.segments@,
                        route.patterns@,
                        pi as int,
                        rem as int,
                        link_id as int,
                        dir as int,
                    );
                    assert(v@ =~= pre_v + seq![(jid_here, exit_index)]);
                    assert((pre_v + seq![(jid_here, exit_index)]) + rest =~= pre_v + (seq![
                        (jid_here, exit_index),
                    ] + rest));
                }
            }
            pi = pi + 1;
        }
        proof {
            assert(spec_eval_from(
                self.links@,
                self.junctions@,
                self.tiles@,
                self.segments@,
                route.patterns@,
                pi as int,
                pat_limit(route.patterns@, pi as int),
                link_id as int,
                dir as int,
            ) =~= Seq::<(u32, usize)>::empty());
            assert(v@ + Seq::<(u32, usize)>::empty() =~= v@);
        }
        v
    }
}

/// The record stores of a cardinal grid: junction 2 in the middle with
/// links toward junction 3 (north), junction 4 (west, heading 90) and
/// junction 5 (east, heading 270), junction 1 south of it, and a stub
/// from junction 3 north to junction 6.
pub open spec fn grid_stores(
    links: Seq<Link>,
    junctions: Seq<Junction>,
    tiles: Seq<Tile>,
    segs: Seq<Segment>,
) -> bool {
    &&& links.len() == 5
    &&& links[0].id == 1 && links[0].origin == Option::Some(1u32) && links[0].destination
        == Option::Some(2u32)
    &&& links[1].id == 2 && links[1].origin == Option::Some(2u32) && links[1].destination
        == Option::Some(3u32)
    &&& links[2].id == 3 && links[2].origin == Option::Some(3u32) && links[2].destination
        == Option::Some(6u32)
    &&& links[3].id == 4 && links[3].origin == Option::Some(2u32) && links[3].destination
        == Option::Some(4u32)
    &&& links[4].id == 5 && links[4].origin == Option::Some(2u32) && links[4].destination
        == Option::Some(5u32)
    &&& junctions.len() == 6
    &&& junctions[0].id == 1 && junctions[0].links@ == seq![Exit { link_id: 1u16, exit: 0u32 }]
    &&& junctions[1].id == 2 && junctions[1].links@ == seq![
        Exit { link_id: 2u16, exit: 0u32 },
        Exit { link_id: 4u16, exit: 90u32 },
        Exit { link_id: 1u16, exit: 180u32 },
        Exit { link_id: 5u16, exit: 270u32 },
    ]
    &&& junctions[2].id == 3 && junctions[2].links@ == seq![
        Exit { link_id: 3u16, exit: 0u32 },
        Exit { link_id: 2u16, exit: 180u32 },
    ]
    &&& junctions[3].id == 4 && junctions[3].links@ == seq![Exit { link_id: 4u16, exit: 270u32 }]
    &&& junctions[4].id == 5 && junctions[4].links@ == seq![Exit { link_id: 5u16, exit: 90u32 }]
    &&& junctions[5].id == 6 && junctions[5].links@ == seq![Exit { link_id: 3u16, exit: 180u32 }]
    &&& tiles == seq![
        Tile { id: 1u16, link: 1u16 },
        Tile { id: 2u16, link: 2u16 },
        Tile { id: 3u16, link: 3u16 },
        Tile { id: 4u16, link: 4u16 },
        Tile { id: 5u16, link: 5u16 },
    ]
    &&& segs == seq![
        Segment { tile: 1u16, heading: 0u32, segment_type: SegmentType::Straight },
        Segment { tile: 2u16, heading: 0u32, segment_type: SegmentType::Straight },
        Segment { tile: 3u16, heading: 0u32, segment_type: SegmentType::Straight },
        Segment { tile: 4u16, heading: 90u32, segment_type: SegmentType::Straight },
        Segment { tile: 5u16, heading: 270u32, segment_type: SegmentType::Straight },
    ]
}

/// On the grid, the last segment of link `lid` (one-based) is the
/// segment at index `lid - 1`, each link owning exactly its own tile.
proof fn lemma_grid_last_segment(
    tiles: Seq<Tile>,
    segs: Seq<Segment>,
    links: Seq<Link>,
    junctions: Seq<Junction>,
    lid: int,
)
    requires
        grid_stores(links, junctions, tiles, segs),
        1 <= lid <= 5,
    ensures
        spec_last_segment(tiles, segs, lid) == Option::Some(segs[lid - 1]),
{
    assert forall|k: int| 0 <= k < 5 implies (#[trigger] tiles[k]).id == k + 1 && tiles[k].link
        == k + 1 && (#[trigger] segs[k]).tile == k + 1 by {}
    assert(last_seg_of_tile_downto(segs, lid, lid - 1) == Option::Some(segs[lid - 1]));
    if lid <= 1 {
        assert(last_seg_of_tile_downto(segs, lid, 1) == Option::Some(segs[lid - 1]));
    }
    if lid <= 2 {
        assert(last_seg_of_tile_downto(segs, lid, 2) == Option::Some(segs[lid - 1]));
    }
    if lid <= 3 {
        assert(last_seg_of_tile_downto(segs, lid, 3) == Option::Some(segs[lid - 1]));
    }
    assert(last_seg_of_tile_downto(segs, lid, 4) == Option::Some(segs[lid - 1]));
    assert(last_seg_downto(tiles, segs, lid, lid - 1) == Option::Some(segs[lid - 1]));
    if lid <= 1 {
        assert(last_seg_downto(tiles, segs, lid, 1) == Option::Some(segs[lid - 1]));
    }
    if lid <= 2 {
        assert(last_seg_downto(tiles, segs, lid, 2) == Option::Some(segs[lid - 1]));
    }
    if lid <= 3 {
        assert(last_seg_downto(tiles, segs, lid, 3) == Option::Some(segs[lid - 1]));
    }
    assert(last_seg_downto(tiles, segs, lid, 4) == Option::Some(segs[lid - 1]));
}

/// On the grid, the first segment of link `lid` is the same segment.
proof fn lemma_grid_first_segment(
    tiles: Seq<Tile>,
    segs: Seq<Segment>,
    links: Seq<Link>,
    junctions: Seq<Junction>,
    lid: int,
)
    requires
        grid_stores(links, junctions, tiles, segs),
        1 <= lid <= 5,
    ensures
        spec_first_segment(tiles, segs, lid) == Option::Some(segs[lid - 1]),
{
    assert forall|k: int| 0 <= k < 5 implies (#[trigger] tiles[k]).id == k + 1 && tiles[k].link
        == k + 1 && (#[trigger] segs[k]).tile == k + 1 by {}
    assert(seg_of_tile_from(segs, lid, lid - 1) == Option::Some(segs[lid - 1]));
    if lid >= 5 {
        assert(seg_of_tile_from(segs, lid, 3) == Option::Some(segs[lid - 1]));
    }
    if lid >= 4 {
        assert(seg_of_tile_from(segs, lid, 2) == Option::Some(segs[lid - 1]));
    }
    if lid >= 3 {
        assert(seg_of_tile_from(segs, lid, 1) == Option::Some(segs[lid - 1]));
    }
    assert(seg_of_tile_from(segs, lid, 0) == Option::Some(segs[lid - 1]));
    assert(first_seg_from(tiles, segs, lid, lid - 1) == Option::Some(segs[lid - 1]));
    if lid >= 5 {
        assert(first_seg_from(tiles, segs, lid, 3) == Option::Some(segs[lid - 1]));
    }
    if lid >= 4 {
        assert(first_seg_from(tiles, segs, lid, 2) == Option::Some(segs[lid - 1]));
    }
    if lid >= 3 {
        assert(first_seg_from(tiles, segs, lid, 1) == Option::Some(segs[lid - 1]));
    }
    assert(first_seg_from(tiles, segs, lid, 0) == Option::Some(segs[lid - 1]));
}

/// The walk step from link 2 with the nominal direction: arrive at
/// junction 3 heading 0, go straight onto link 3 toward junction 6.
proof fn lemma_grid_step_north_at_three(
    links: Seq<Link>,
    junctions: Seq<Junction>,
    tiles: Seq<Tile>,
    segs: Seq<Segment>,
    turn: Turn,
)
    requires
        grid_stores(links, junctions, tiles, segs),
        turn == Turn::Relative(TurnDirection::Straight) || turn == Turn::Compass(
            CompassDirection::North,
        ) || turn == Turn::Heading(0u32),
    ensures
        spec_eval_step(links, junctions, tiles, segs, 2, 1, turn) == (StepOutcome::Taken {
            junction_id: 3,
            exit_index: 0,
            next_link: 3,
            next_dir: 1,
        }),
{
    let ex3 = junctions[2].links@;
    assert(spec_link_at(links, 2) == Option::Some(links[1]));
    lemma_grid_last_segment(tiles, segs, links, junctions, 2);
    assert(step_heading(tiles, segs, links[1], 1) == 0);
    assert(spec_junc_at(junctions, 3) == Option::Some(junctions[2]));
    assert(ex3[0] == Exit { link_id: 3u16, exit: 0u32 });
    assert(ex3[1] == Exit { link_id: 2u16, exit: 180u32 });
    assert(spec_reciprocal(0) == 180);
    assert(best_match_from(ex3, 180, 2, 1) == 1);
    assert(best_match_from(ex3, 180, 1, 0) == 1);
    assert(spec_find_entry(ex3, 0) == 1);
    assert(spec_turn_heading(180, TurnDirection::Straight) == 0);
    assert(feh_from(ex3, 0, 2, Option::<int>::Some(0)) == Option::<int>::Some(0));
    assert(feh_from(ex3, 0, 1, Option::<int>::Some(0)) == Option::<int>::Some(0));
    assert(feh_from(ex3, 0, 0, Option::<int>::None) == Option::<int>::Some(0));
    assert(step_exit(junctions[2], 0, turn) == Option::<int>::Some(0));
    assert(spec_link_at(links, 3) == Option::Some(links[2]));
    assert(step_next_dir(links, ex3[0], 3, 1) == 1);
}

/// The walk step from link 1 with the nominal direction: arrive at
/// junction 2 heading 0, go straight onto link 2 toward junction 3.
proof fn lemma_grid_step_north_at_two(
    links: Seq<Link>,
    junctions: Seq<Junction>,
    tiles: Seq<Tile>,
    segs: Seq<Segment>,
)
    requires
        grid_stores(links, junctions, tiles, segs),
    ensures
        spec_eval_step(
            links,
            junctions,
            tiles,
            segs,
            1,
            1,
            Turn::Relative(TurnDirection::Straight),
        ) == (StepOutcome::Taken { junction_id: 2, exit_index: 0, next_link: 2, next_dir: 1 }),
{
    let ex2 = junctions[1].links@;
    assert(spec_link_at(links, 1) == Option::Some(links[0]));
    lemma_grid_last_segment(tiles, segs, links, junctions, 1);
    assert(step_heading(tiles, segs, links[0], 1) == 0);
    assert(spec_junc_at(junctions, 2) == Option::Some(junctions[1]));
    assert(ex2[0] == Exit { link_id: 2u16, exit: 0u32 });
    assert(ex2[1] == Exit { link_id: 4u16, exit: 90u32 });
    assert(ex2[2] == Exit { link_id: 1u16, exit: 180u32 });
    assert(ex2[3] == Exit { link_id: 5u16, exit: 270u32 });
    assert(spec_reciprocal(0) == 180);
    assert(best_match_from(ex2, 180, 4, 2) == 2);
    assert(best_match_from(ex2, 180, 3, 2) == 2);
    assert(best_match_from(ex2, 180, 2, 1) == 2);
    assert(best_match_from(ex2, 180, 1, 0) == 2);
    assert(spec_find_entry(ex2, 0) == 2);
    assert(spec_turn_heading(180, TurnDirection::Straight) == 0);
    assert(feh_from(ex2, 0, 4, Option::<int>::Some(0)) == Option::<int>::Some(0));
    assert(feh_from(ex2, 0, 3, Option::<int>::Some(0)) == Option::<int>::Some(0));
    assert(feh_from(ex2, 0, 2, Option::<int>::Some(0)) == Option::<int>::Some(0));
    assert(feh_from(ex2, 0, 1, Option::<int>::Some(0)) == Option::<int>::Some(0));
    assert(feh_from(ex2, 0, 0, Option::<int>::None) == Option::<int>::Some(0));
    assert(step_exit(junctions[1], 0, Turn::Relative(TurnDirection::Straight)) == Option::<int>::Some(0));
    assert(spec_link_at(links, 2) == Option::Some(links[1]));
    assert(step_next_dir(links, ex2[0], 2, 1) == 1);
}

/// The walk step from link 4 against the nominal direction: arrive at
/// junction 2 (the link's origin) heading 270, head north onto link 2.
proof fn lemma_grid_step_north_from_four(
    links: Seq<Link>,
    junctions: Seq<Junction>,
    tiles: Seq<Tile>,
    segs: Seq<Segment>,
)
    requires
        grid_stores(links, junctions, tiles, segs),
    ensures
        spec_eval_step(
            links,
            junctions,
            tiles,
            segs,
            4,
            -1,
            Turn::Compass(CompassDirection::North),
        ) == (StepOutcome::Taken { junction_id: 2, exit_index: 0, next_link: 2, next_dir: 1 }),
{
    let ex2 = junctions[1].links@;
    assert(spec_link_at(links, 4) == Option::Some(links[3]));
    lemma_grid_first_segment(tiles, segs, links, junctions, 4);
    assert(spec_reciprocal(90) == 270);
    assert(step_heading(tiles, segs, links[3], -1) == 270);
    assert(step_junction(links[3], -1) == Option::Some(2u32));
    assert(spec_junc_at(junctions, 2) == Option::Some(junctions[1]));
    assert(ex2[0] == Exit { link_id: 2u16, exit: 0u32 });
    assert(spec_compass_heading(CompassDirection::North) == 0);
    assert(feh_from(ex2, 0, 4, Option::<int>::Some(0)) == Option::<int>::Some(0));
    assert(feh_from(ex2, 0, 3, Option::<int>::Some(0)) == Option::<int>::Some(0));
    assert(feh_from(ex2, 0, 2, Option::<int>::Some(0)) == Option::<int>::Some(0));
    assert(feh_from(ex2, 0, 1, Option::<int>::Some(0)) == Option::<int>::Some(0));
    assert(feh_from(ex2, 0, 0, Option::<int>::None) == Option::<int>::Some(0));
    assert(step_exit(junctions[1], 270, Turn::Compass(CompassDirection::North))
        == Option::<int>::Some(0));
    assert(spec_link_at(links, 2) == Option::Some(links[1]));
    assert(step_next_dir(links, ex2[0], 2, -1) == 1);
}

/// The walk step from link 3 with the nominal direction under a
/// northward intent: junction 6 has only the southward exit back, so
/// the intent cannot be satisfied there.
proof fn lemma_grid_step_none_at_six(
    links: Seq<Link>,
    junctions: Seq<Junction>,
    tiles: Seq<Tile>,
    segs: Seq<Segment>,
)
    requires
        grid_stores(links, junctions, tiles, segs),
    ensures
        spec_eval_step(
            links,
            junctions,
            tiles,
            segs,
            3,
            1,
            Turn::Compass(CompassDirection::North),
        ) == StepOutcome::NoExit,
{
    let ex6 = junctions[5].links@;
    assert(spec_link_at(links, 3) == Option::Some(links[2]));
    lemma_grid_last_segment(tiles, segs, links, junctions, 3);
    assert(step_heading(tiles, segs, links[2], 1) == 0);
    assert(step_junction(links[2], 1) == Option::Some(6u32));
    assert(spec_junc_at(junctions, 6) == Option::Some(junctions[5]));
    assert(ex6[0] == Exit { link_id: 3u16, exit: 180u32 });
    assert(spec_compass_heading(CompassDirection::North) == 0);
    assert(feh_from(ex6, 0, 1, Option::<int>::None) == Option::<int>::None);
    assert(feh_from(ex6, 0, 0, Option::<int>::None) == Option::<int>::None);
    assert(step_exit(junctions[5], 0, Turn::Compass(CompassDirection::North))
        == Option::<int>::None);
}

/// Seed scenario: on the grid, starting on link 4 against its nominal
/// direction and keeping north for as long as possible takes exit 0 at
/// junction 2 and exit 0 at junction 3, then stops at the stub's end.
pub proof fn lemma_grid_reverse_north_always(
    links: Seq<Link>,
    junctions: Seq<Junction>,
    tiles: Seq<Tile>,
    segs: Seq<Segment>,
    route: Route,
)
    requires
        grid_stores(links, junctions, tiles, segs),
        route.start_link == 4,
        route.trav_dir == -1,
        route.patterns@ == seq![
            TurningPattern {
                turn: Turn::Compass(CompassDirection::North),
                count: TurnMultiplicity::Always,
            },
        ],
    ensures
        spec_evaluate_route(links, junctions, tiles, segs, route) == seq![
            (2u32, 0usize),
            (3u32, 0usize),
        ],
{
    let pats = route.patterns@;
    assert(pats.len() == 1);
    assert(pats[0].turn == Turn::Compass(CompassDirection::North));
    assert(pat_limit(pats, 0) == 0xffff_ffff);
    lemma_grid_step_north_from_four(links, junctions, tiles, segs);
    assert(spec_eval_from(links, junctions, tiles, segs, pats, 0, 0xffff_ffff, 4, -1) == seq![
        (2u32, 0usize),
    ] + spec_eval_from(links, junctions, tiles, segs, pats, 0, 0xffff_fffe, 2, 1));
    lemma_grid_step_north_at_three(
        links,
        junctions,
        tiles,
        segs,
        Turn::Compass(CompassDirection::North),
    );
    assert(spec_eval_from(links, junctions, tiles, segs, pats, 0, 0xffff_fffe, 2, 1) == seq![
        (3u32, 0usize),
    ] + spec_eval_from(links, junctions, tiles, segs, pats, 0, 0xffff_fffd, 3, 1));
    lemma_grid_step_none_at_six(links, junctions, tiles, segs);
    assert(pat_limit(pats, 1) == 0);
    assert(spec_eval_from(links, junctions, tiles, segs, pats, 1, 0, 3, 1) =~= Seq::<
        (u32, usize),
    >::empty());
    assert(spec_eval_from(links, junctions, tiles, segs, pats, 0, 0xffff_fffd, 3, 1) =~= Seq::<
        (u32, usize),
    >::empty());
    assert(seq![(3u32, 0usize)] + Seq::<(u32, usize)>::empty() =~= seq![(3u32, 0usize)]);
    assert(seq![(2u32, 0usize)] + seq![(3u32, 0usize)] =~= seq![(2u32, 0usize), (3u32, 0usize)]);
}

/// Seed scenario: on the grid, starting on link 1 with the nominal
/// direction and going straight at two junctions in a row takes exit 0
/// at junction 2 and exit 0 at junction 3.
pub proof fn lemma_grid_straight_twice(
    links: Seq<Link>,
    junctions: Seq<Junction>,
    tiles: Seq<Tile>,
    segs: Seq<Segment>,
    route: Route,
)
    requires
        grid_stores(links, junctions, tiles, segs),
        route.start_link == 1,
        route.trav_dir == 1,
        route.patterns@ == seq![
            TurningPattern {
                turn: Turn::Relative(TurnDirection::Straight),
                count: TurnMultiplicity::Count(2),
            },
        ],
    ensures
        spec_evaluate_route(links, junctions, tiles, segs, route) == seq![
            (2u32, 0usize),
            (3u32, 0usize),
        ],
{
    let pats = route.patterns@;
    assert(pats.len() == 1);
    assert(pats[0].turn == Turn::Relative(TurnDirection::Straight));
    assert(pat_limit(pats, 0) == 2);
    lemma_grid_step_north_at_two(links, junctions, tiles, segs);
    assert(spec_eval_from(links, junctions, tiles, segs, pats, 0, 2, 1, 1) == seq![
        (2u32, 0usize),
    ] + spec_eval_from(links, junctions, tiles, segs, pats, 0, 1, 2, 1));
    lemma_grid_step_north_at_three(
        links,
        junctions,
        tiles,
        segs,
        Turn::Relative(TurnDirection::Straight),
    );
    assert(spec_eval_from(links, junctions, tiles, segs, pats, 0, 1, 2, 1) == seq![
        (3u32, 0usize),
    ] + spec_eval_from(links, junctions, tiles, segs, pats, 0, 0, 3, 1));
    assert(pat_limit(pats, 1) == 0);
    assert(spec_eval_from(links, junctions, tiles, segs, pats, 1, 0, 3, 1) =~= Seq::<
        (u32, usize),
    >::empty());
    assert(spec_eval_from(links, junctions, tiles, segs, pats, 0, 0, 3, 1) =~= Seq::<
        (u32, usize),
    >::empty());
    assert(seq![(3u32, 0usize)] + Seq::<(u32, usize)>::empty() =~= seq![(3u32, 0usize)]);
    assert(seq![(2u32, 0usize)] + seq![(3u32, 0usize)] =~= seq![(2u32, 0usize), (3u32, 0usize)]);
}

/// Route evaluation is deterministic: the hop list is the one sequence
/// that the step relation generates from the route's starting state,
/// so two evaluations of equal routes on equal stores agree.
pub proof fn lemma_evaluation_deterministic(
    links: Seq<Link>,
    junctions: Seq<Junction>,
    tiles: Seq<Tile>,
    segs: Seq<Segment>,
    r1: Route,
    r2: Route,
)
    requires
        r1.start_link == r2.start_link,
        r1.trav_dir == r2.trav_dir,
        r1.patterns@ == r2.patterns@,
    ensures
        spec_evaluate_route(links, junctions, tiles, segs, r1) == spec_evaluate_route(
            links,
            junctions,
            tiles,
            segs,
            r2,
        ),
{
}

} // verus!
