use vstd::prelude::*;
use crate::route::{TurnDirection, CompassDirection};

verus! {

/// A directed adjacency of a junction: the outgoing link and the absolute
/// compass heading of the exit, in degrees (0 = North, measured CCW).
#[derive(PartialEq, Eq, Structural, Debug, Copy, Clone)]
pub struct Exit {
    pub link_id: u16,
    pub exit: u32,
}

/// A junction of the road network, with its exits ordered as loaded.
#[derive(Clone)]
pub struct Junction {
    pub id: u32,
    pub links: Vec<Exit>,
}

/// The heading opposite to `h`, reduced into `[0, 360)`.
pub open spec fn spec_reciprocal(h: int) -> int {
    (h + 180) % 360
}

/// Which half-plane a heading lies in after reduction into `[0, 360)`:
/// 0 for the half straddling North (`[0,90) ∪ [270,360)`), 1 for the
/// southern half.  Used to keep a desired heading and a candidate exit
/// on the same side of the east-west axis.
pub open spec fn spec_hemisphere(h: int) -> u32 {
    let a = h % 360;
    if a < 90 || a >= 270 {
        0
    } else {
        1
    }
}

/// The absolute difference of two angles taken as plain numbers
/// (no wrap-around: 0 and 350 are 350 apart, not 10).
pub open spec fn abs_delta(a: int, b: int) -> int {
    if a >= b {
        a - b
    } else {
        b - a
    }
}

/// Continue a left-to-right scan for the exit whose heading is closest
/// to `target`, strictly improving on the best index found so far.
pub open spec fn best_match_from(exits: Seq<Exit>, target: int, i: int, best: int) -> int
    decreases exits.len() - i,
{
    if i < 0 || i >= exits.len() {
        best
    } else if 0 <= best < exits.len()
        && abs_delta(exits[i].exit as int, target) < abs_delta(exits[best].exit as int, target) {
        best_match_from(exits, target, i + 1, i)
    } else {
        best_match_from(exits, target, i + 1, best)
    }
}

/// The entry index chosen for an arrival heading: the exit closest to the
/// reciprocal of `heading`, ties broken toward the lowest index; 0 when
/// there are no exits.
pub open spec fn spec_find_entry(exits: Seq<Exit>, heading: int) -> int {
    if exits.len() == 0 {
        0
    } else {
        best_match_from(exits, spec_reciprocal(heading), 1, 0)
    }
}

/// Continue a left-to-right scan for the exit closest to `h` among the
/// exits lying in the same hemisphere as `h`; `None` while no such exit
/// has been seen.
pub open spec fn feh_from(exits: Seq<Exit>, h: int, i: int, best: Option<int>) -> Option<int>
    decreases exits.len() - i,
{
    if i < 0 || i >= exits.len() {
        best
    } else {
        let accept = spec_hemisphere(exits[i].exit as int) == spec_hemisphere(h)
            && (match best {
                Option::None => true,
                Option::Some(b) => 0 <= b < exits.len()
                    && abs_delta(exits[i].exit as int, h) < abs_delta(exits[b].exit as int, h),
            });
        if accept {
            feh_from(exits, h, i + 1, Option::Some(i))
        } else {
            feh_from(exits, h, i + 1, best)
        }
    }
}

/// The exit chosen for a desired absolute heading `h`: the closest exit
/// within the hemisphere of `h`, ties broken toward the lowest index;
/// `None` when no exit shares the hemisphere.
pub open spec fn spec_find_exit_from_heading(exits: Seq<Exit>, h: int) -> Option<int> {
    feh_from(exits, h, 0, Option::None)
}

/// The absolute heading meant by a relative turn taken against the
/// reciprocal of the entry exit's heading, reduced into `[0, 360)`.
pub open spec fn spec_turn_heading(entry_exit_heading: int, dir: TurnDirection) -> int {
    let entry = spec_reciprocal(entry_exit_heading);
    let h = match dir {
        TurnDirection::Straight => entry,
        TurnDirection::Left => entry + 90,
        TurnDirection::Right => entry - 90,
        TurnDirection::UTurn => entry + 180,
    };
    if h < 0 {
        h + 360
    } else if h >= 360 {
        h - 360
    } else {
        h
    }
}

/// The fixed heading assigned to each compass direction.  East lies at
/// 270 and West at 90 because headings grow counter-clockwise from North.
pub open spec fn spec_compass_heading(dir: CompassDirection) -> u32 {
    match dir {
        CompassDirection::North => 0,
        CompassDirection::NorthEast => 315,
        CompassDirection::East => 270,
        CompassDirection::SouthEast => 225,
        CompassDirection::South => 180,
        CompassDirection::SouthWest => 135,
        CompassDirection::West => 90,
        CompassDirection::NorthWest => 45,
    }
}

/// The index encoding of `spec_find_exit_from_heading`: the chosen index
/// itself, or `usize::MAX` as the "no exit" sentinel.
pub open spec fn feh_result(exits: Seq<Exit>, h: int) -> int {
    match spec_find_exit_from_heading(exits, h) {
        Option::Some(k) => k,
        Option::None => usize::MAX as int,
    }
}

/// The absolute difference of two headings.
fn diff_u32(a: u32, b: u32) -> (r: u32)
    ensures
        r == abs_delta(a as int, b as int),
{
    if a >= b {
        a - b
    } else {
        b - a
    }
}

/// Which hemisphere a heading lies in; see `spec_hemisphere`.
pub fn hemisphere(input: u32) -> (r: u32)
    ensures
        r == spec_hemisphere(input as int),
{
    let angle = input % 360;
    if angle < 90 || angle >= 270 {
        0
    } else {
        1
    }
}

impl Junction {
    /// The heading opposite to `entry`, reduced into `[0, 360)`.
    pub fn reciprocal(entry: u32) -> (r: u32)
        ensures
            r == spec_reciprocal(entry as int),
            r < 360,
    {
        let reduced = entry % 360;
        let r = (reduced + 180) % 360;
        proof {
            vstd::arithmetic::div_mod::lemma_add_mod_noop(entry as int, 180int, 360int);
            vstd::arithmetic::div_mod::lemma_mod_twice(entry as int, 360int);
            vstd::arithmetic::div_mod::lemma_mod_bound((entry + 180) as int, 360int);
        }
        r
    }

    /// Reduce any integer heading into `[0, 360)` by steps of 360.
    pub fn normalise_exit(input: i32) -> (r: u32)
        ensures
            r == (input as int) % 360,
    {
        let mut value: i64 = input as i64;
        while value < 0
            invariant
                value % 360 == (input as int) % 360,
                value <= i32::MAX as i64,
            decreases (if value < 0 {
                0 - value as int
            } else {
                0int
            }),
        {
            proof {
                vstd::arithmetic::div_mod::lemma_mod_add_multiples_vanish(value as int, 360int);
            }
            value = value + 360;
        }
        while value >= 360
            invariant
                0 <= value,
                value % 360 == (input as int) % 360,
            decreases value,
        {
            proof {
                vstd::arithmetic::div_mod::lemma_mod_add_multiples_vanish((value - 360) as int, 360int);
            }
            value = value - 360;
        }
        proof {
            vstd::arithmetic::div_mod::lemma_small_mod(value as nat, 360nat);
        }
        value as u32
    }

    pub fn new(id: u32) -> (r: Junction)
        ensures
            r.id == id,
            r.links@ =~= Seq::<Exit>::empty(),
    {
        Junction { id, links: Vec::new() }
    }

    /// The exit whose heading most closely matches the reciprocal of the
    /// arrival heading; ties break to the lowest index, and a junction
    /// without exits yields index 0.
    pub fn find_entry(&self, heading: u32) -> (r: usize)
        ensures
            r == spec_find_entry(self.links@, heading as int),
            self.links@.len() > 0 ==> r < self.links@.len(),
            self.links@.len() > 0 ==> forall|j: int|
                0 <= j < self.links@.len() ==> abs_delta(
                    self.links@[r as int].exit as int,
                    spec_reciprocal(heading as int),
                ) <= abs_delta(self.links@[j].exit as int, spec_reciprocal(heading as int)),
            forall|j: int|
                0 <= j < r ==> abs_delta(
                    self.links@[j].exit as int,
                    spec_reciprocal(heading as int),
                ) > abs_delta(self.links@[r as int].exit as int, spec_reciprocal(heading as int)),
    {
        let rh = Junction::reciprocal(heading);
        if self.links.len() == 0 {
            return 0;
        }
        let ghost exits = self.links@;
        let ghost target = rh as int;
        let mut best: usize = 0;
        let mut i: usize = 1;
        while i < self.links.len()
            invariant
                self.links@ == exits,
                target == rh as int,
                1 <= i <= exits.len(),
                best < i,
                best_match_from(exits, target, i as int, best as int) == best_match_from(
                    exits,
                    target,
                    1,
                    0,
                ),
                forall|j: int|
                    0 <= j < i ==> abs_delta(exits[best as int].exit as int, target) <= abs_delta(
                        exits[j].exit as int,
                        target,
                    ),
                forall|j: int|
                    0 <= j < best ==> abs_delta(exits[j].exit as int, target) > abs_delta(
                        exits[best as int].exit as int,
                        target,
                    ),
            decreases self.links@.len() - i,
        {
            let db = diff_u32(self.links[best].exit, rh);
            let di = diff_u32(self.links[i].exit, rh);
            if di < db {
                best = i;
            }
            i = i + 1;
        }
        best
    }

    /// The exit whose heading most closely matches `heading` among the
    /// exits in the same hemisphere as `heading`; `usize::MAX` when no
    /// exit shares the hemisphere.
    pub fn find_exit_from_heading(&self, heading: u32) -> (r: usize)
        ensures
            r == feh_result(self.links@, heading as int),
            spec_find_exit_from_heading(self.links@, heading as int) matches Option::Some(k) ==> r
                == k && r < self.links@.len(),
            spec_find_exit_from_heading(self.links@, heading as int) is None ==> r == usize::MAX,
    {
        let heading_hemi = hemisphere(heading);
        let ghost exits = self.links@;
        let ghost h = heading as int;
        let mut exit_index: usize = usize::MAX;
        let ghost mut best: Option<int> = Option::None;
        let mut i: usize = 0;
        while i < self.links.len()
            invariant
                self.links@ == exits,
                h == heading as int,
                heading_hemi == spec_hemisphere(h),
                i <= exits.len(),
                match best {
                    Option::None => exit_index == usize::MAX,
                    Option::Some(b) => 0 <= b < i && exit_index == b,
                },
                feh_from(exits, h, i as int, best) == feh_from(exits, h, 0, Option::None),
            decreases self.links@.len() - i,
        {
            let exit_hemi = hemisphere(self.links[i].exit);
            let accept: bool = if exit_hemi != heading_hemi {
                false
            } else if exit_index == usize::MAX {
                true
            } else {
                let db = diff_u32(self.links[exit_index].exit, heading);
                let di = diff_u32(self.links[i].exit, heading);
                di < db
            };
            if accept {
                exit_index = i;
                proof {
                    best = Option::Some(i as int);
                }
            }
            i = i + 1;
        }
        exit_index
    }

    /// The `n`th neighbour of `entry_index` counting counter-clockwise
    /// around the junction's exits.
    pub fn find_relative_exit(&self, entry_index: usize, relative_exit: usize) -> (r: usize)
        requires
            self.links@.len() > 0,
            entry_index < self.links@.len(),
        ensures
            r as int == (entry_index as int - relative_exit as int) % (self.links@.len() as int),
            r < self.links@.len(),
    {
        let n = self.links.len();
        let rm = relative_exit % n;
        let r = if entry_index >= rm {
            entry_index - rm
        } else {
            entry_index + (n - rm)
        };
        proof {
            let e = entry_index as int;
            let rel = relative_exit as int;
            let ni = n as int;
            let q = rel / ni;
            vstd::arithmetic::div_mod::lemma_fundamental_div_mod(rel, ni);
            assert(rel == ni * q + (rm as int));
            assert((r as int) < ni);
            if entry_index >= rm {
                assert(ni * (-q) + (r as int) == e - rel) by (nonlinear_arith)
                    requires
                        rel == ni * q + (rm as int),
                        r as int == e - rm as int,
                {}
                vstd::arithmetic::div_mod::lemma_mod_multiples_vanish(-q, r as int, ni);
            } else {
                assert(ni * (-q - 1) + (r as int) == e - rel) by (nonlinear_arith)
                    requires
                        rel == ni * q + (rm as int),
                        r as int == e + ni - rm as int,
                {}
                vstd::arithmetic::div_mod::lemma_mod_multiples_vanish(-q - 1, r as int, ni);
            }
            vstd::arithmetic::div_mod::lemma_small_mod(r as nat, ni as nat);
        }
        r
    }

    /// Resolve a relative turn: aim for the heading obtained by turning
    /// `turn_dir` against the reciprocal of the entry exit's heading, and
    /// pick the closest same-hemisphere exit.
    pub fn find_exit_from_turn_direction(&self, entry_index: usize, turn_dir: TurnDirection) -> (r:
        usize)
        requires
            entry_index < self.links@.len(),
        ensures
            r == feh_result(
                self.links@,
                spec_turn_heading(self.links@[entry_index as int].exit as int, turn_dir),
            ),
            spec_find_exit_from_heading(
                self.links@,
                spec_turn_heading(self.links@[entry_index as int].exit as int, turn_dir),
            ) matches Option::Some(k) ==> r == k && r < self.links@.len(),
            spec_find_exit_from_heading(
                self.links@,
                spec_turn_heading(self.links@[entry_index as int].exit as int, turn_dir),
            ) is None ==> r == usize::MAX,
    {
        let entry = Junction::reciprocal(self.links[entry_index].exit);
        let shifted: i32 = match turn_dir {
            TurnDirection::Straight => entry as i32,
            TurnDirection::Left => entry as i32 + 90,
            TurnDirection::Right => entry as i32 - 90,
            TurnDirection::UTurn => entry as i32 + 180,
        };
        let heading: u32 = if shifted < 0 {
            (shifted + 360) as u32
        } else if shifted >= 360 {
            (shifted - 360) as u32
        } else {
            shifted as u32
        };
        assert(heading as int == spec_turn_heading(
            self.links@[entry_index as int].exit as int,
            turn_dir,
        ));
        self.find_exit_from_heading(heading)
    }

    /// Resolve a compass intent: aim for the direction's fixed heading
    /// and pick the closest same-hemisphere exit.
    pub fn find_exit_from_compass(&self, dir: CompassDirection) -> (r: usize)
        ensures
            r == feh_result(self.links@, spec_compass_heading(dir) as int),
            spec_find_exit_from_heading(self.links@, spec_compass_heading(dir) as int) matches
                Option::Some(k) ==> r == k && r < self.links@.len(),
            spec_find_exit_from_heading(self.links@, spec_compass_heading(dir) as int) is None
                ==> r == usize::MAX,
    {
        let heading: u32 = match dir {
            CompassDirection::North => 0,
            CompassDirection::NorthEast => 315,
            CompassDirection::East => 270,
            CompassDirection::SouthEast => 270 - 45,
            CompassDirection::South => 180,
            CompassDirection::SouthWest => 180 - 45,
            CompassDirection::West => 90,
            CompassDirection::NorthWest => 45,
        };
        self.find_exit_from_heading(heading)
    }

    pub fn num_links(&self) -> (r: usize)
        ensures
            r == self.links@.len(),
    {
        self.links.len()
    }

    /// Append an exit toward link `id` with heading `exit_id`.
    pub fn add_link(&mut self, id: u16, exit_id: u32)
        ensures
            final(self).id == old(self).id,
            final(self).links@ == old(self).links@.push(Exit { link_id: id, exit: exit_id }),
    {
        self.links.push(Exit { link_id: id, exit: exit_id });
    }
}

/// Taking the reciprocal twice gives back the original heading, for any
/// heading already reduced into `[0, 360)`.
pub proof fn lemma_reciprocal_involution(h: int)
    requires
        0 <= h < 360,
    ensures
        spec_reciprocal(spec_reciprocal(h)) == h,
{
    vstd::arithmetic::div_mod::lemma_add_mod_noop(h + 180, 180, 360);
    vstd::arithmetic::div_mod::lemma_mod_twice(h + 180, 360);
    vstd::arithmetic::div_mod::lemma_add_mod_noop(h, 360, 360);
    vstd::arithmetic::div_mod::lemma_mod_add_multiples_vanish(h, 360);
    vstd::arithmetic::div_mod::lemma_small_mod(h as nat, 360nat);
}

} // verus!
