use vstd::prelude::*;
use crate::address::{first_at, find_char_from, is_digit_char, digit_val, scan_val,
    lemma_scan_val_snoc};

verus! {

/// A turn relative to the direction of travel into a junction.
#[derive(PartialEq, Eq, Structural, Debug, Copy, Clone)]
pub enum TurnDirection {
    Left,
    Right,
    Straight,
    UTurn,
}

/// One of the eight principal compass bearings.
#[derive(PartialEq, Eq, Structural, Debug, Copy, Clone)]
pub enum CompassDirection {
    North,
    NorthEast,
    East,
    SouthEast,
    South,
    SouthWest,
    West,
    NorthWest,
}

/// The intent expressed at one junction of a route.
#[derive(PartialEq, Eq, Structural, Debug, Copy, Clone)]
pub enum Turn {
    Relative(TurnDirection),
    Compass(CompassDirection),
    Exit(u8),
    Heading(u32),
}

/// How many junctions in a row a turn applies to.
#[derive(PartialEq, Eq, Structural, Debug, Copy, Clone)]
pub enum TurnMultiplicity {
    Count(u32),
    Always,
}

/// A turn together with its multiplicity.
#[derive(PartialEq, Eq, Structural, Debug, Copy, Clone)]
pub struct TurningPattern {
    pub turn: Turn,
    pub count: TurnMultiplicity,
}

/// A parsed route query: the link to start on, the starting position's
/// lateral offset and along-link distance as their raw tokens, the
/// direction of travel (+1 with the first link's nominal direction, -1
/// against it), and the turn patterns to apply in order.  The two
/// scalar tokens are kept as text: the evaluator never reads them, and
/// their numeric interpretation is left to the caller.
#[derive(Debug)]
pub struct Route {
    pub start_link: u16,
    pub offset_text: String,
    pub distance_text: String,
    pub trav_dir: i32,
    pub patterns: Vec<TurningPattern>,
}

impl Route {
    /// The route all fields default to: link 0, empty position tokens,
    /// forward travel, no patterns.
    pub fn empty() -> (r: Route)
        ensures
            r.start_link == 0,
            r.offset_text@ == Seq::<char>::empty(),
            r.distance_text@ == Seq::<char>::empty(),
            r.trav_dir == 1,
            r.patterns@ == Seq::<TurningPattern>::empty(),
    {
        Route {
            start_link: 0,
            offset_text: String::new(),
            distance_text: String::new(),
            trav_dir: 1,
            patterns: Vec::new(),
        }
    }
}

/// The phases a route string passes through while being read: the four
/// leading fields, the whitespace between fields, the turn patterns,
/// and the finished state.
#[derive(PartialEq, Eq, Structural, Debug, Copy, Clone)]
pub enum RouteParsing {
    ParsingStartLink,
    ParsingSpace,
    ParsingOffset,
    ParsingDistance,
    ParsingTravDir,
    ParsingTurnPattern,
    ParsingFinished,
}

/// The field separators of a route string: ASCII whitespace.
pub open spec fn is_ws_char(c: char) -> bool {
    c == ' ' || c == '\t' || c == '\n' || c == '\r' || c == '\u{0b}' || c == '\u{0c}'
}

/// The first index at or after `from` holding a non-whitespace
/// character, or the length.
pub open spec fn skip_ws(s: Seq<char>, from: int) -> int
    decreases s.len() - from,
{
    if from < 0 || from >= s.len() {
        s.len() as int
    } else if is_ws_char(s[from]) {
        skip_ws(s, from + 1)
    } else {
        from
    }
}

/// The first index at or after `from` holding whitespace, or the
/// length: past the end of the token starting at `from`.
pub open spec fn token_end(s: Seq<char>, from: int) -> int
    decreases s.len() - from,
{
    if from < 0 || from >= s.len() {
        s.len() as int
    } else if is_ws_char(s[from]) {
        from
    } else {
        token_end(s, from + 1)
    }
}

/// Skipping whitespace moves forward, at most to the end, and stops on
/// a non-whitespace character.
pub proof fn lemma_skip_ws_props(s: Seq<char>, i: int)
    requires
        0 <= i <= s.len(),
    ensures
        i <= skip_ws(s, i) <= s.len(),
        skip_ws(s, i) < s.len() ==> !is_ws_char(s[skip_ws(s, i)]),
    decreases s.len() - i,
{
    if i < s.len() && is_ws_char(s[i]) {
        lemma_skip_ws_props(s, i + 1);
    }
}

/// A token's end lies between its start and the end of the string, and
/// strictly after the start when a token really begins there.
pub proof fn lemma_token_end_props(s: Seq<char>, i: int)
    requires
        0 <= i <= s.len(),
    ensures
        i <= token_end(s, i) <= s.len(),
        i < s.len() && !is_ws_char(s[i]) ==> token_end(s, i) >= i + 1,
    decreases s.len() - i,
{
    if i < s.len() && !is_ws_char(s[i]) {
        lemma_token_end_props(s, i + 1);
    }
}

/// Reading digits onto a non-negative value keeps it non-negative.
pub proof fn lemma_scan_val_nonneg(v: int, s: Seq<char>)
    requires
        v >= 0,
        forall|i: int| 0 <= i < s.len() ==> is_digit_char(#[trigger] s[i]),
    ensures
        scan_val(v, s) >= 0,
    decreases s.len(),
{
    if s.len() > 0 {
        assert(forall|i: int| 0 <= i < s.drop_first().len() ==> s.drop_first()[i] == s[i + 1]);
        lemma_scan_val_nonneg(v * 10 + digit_val(s[0]), s.drop_first());
    }
}

/// The whitespace-separated tokens of `s` from index `i` on.
pub open spec fn tokens_from(s: Seq<char>, i: int) -> Seq<Seq<char>>
    decreases s.len() - i,
    via tokens_from_decreases
{
    let b = skip_ws(s, i);
    if i < 0 || b >= s.len() {
        Seq::empty()
    } else {
        let e = token_end(s, b);
        seq![s.subrange(b, e)] + tokens_from(s, e)
    }
}

#[via_fn]
proof fn tokens_from_decreases(s: Seq<char>, i: int) {
    if 0 <= i <= s.len() {
        lemma_skip_ws_props(s, i);
        let b = skip_ws(s, i);
        if b < s.len() {
            lemma_token_end_props(s, b);
        }
    }
}

/// A non-empty all-digit sequence.
pub open spec fn dec_digits_ok(t: Seq<char>) -> bool {
    t.len() > 0 && forall|i: int| 0 <= i < t.len() ==> is_digit_char(#[trigger] t[i])
}

/// A numeric token with an optional leading plus sign stripped.
pub open spec fn num_body(t: Seq<char>) -> Seq<char> {
    if t.len() > 0 && t[0] == '+' {
        t.drop_first()
    } else {
        t
    }
}

/// What an unsigned 32-bit decimal token denotes, if it parses.
pub open spec fn parse_u32_strict(t: Seq<char>) -> Option<u32> {
    let b = num_body(t);
    if dec_digits_ok(b) && scan_val(0, b) <= u32::MAX {
        Option::Some(scan_val(0, b) as u32)
    } else {
        Option::None
    }
}

/// What an unsigned 8-bit decimal token denotes, if it parses.
pub open spec fn parse_u8_strict(t: Seq<char>) -> Option<u8> {
    let b = num_body(t);
    if dec_digits_ok(b) && scan_val(0, b) <= u8::MAX {
        Option::Some(scan_val(0, b) as u8)
    } else {
        Option::None
    }
}

/// What an unsigned 16-bit decimal token denotes, with 0 for anything
/// that does not parse.
pub open spec fn parse_u16_or_zero(t: Seq<char>) -> u16 {
    let b = num_body(t);
    if dec_digits_ok(b) && scan_val(0, b) <= u16::MAX {
        scan_val(0, b) as u16
    } else {
        0
    }
}

/// What a signed 32-bit decimal token denotes, with 0 for anything that
/// does not parse.
pub open spec fn parse_i32_or_zero(t: Seq<char>) -> i32 {
    if t.len() > 0 && t[0] == '-' {
        let b = t.drop_first();
        if dec_digits_ok(b) && scan_val(0, b) <= 0x8000_0000 {
            (-scan_val(0, b)) as i32
        } else {
            0
        }
    } else {
        let b = num_body(t);
        if dec_digits_ok(b) && scan_val(0, b) <= i32::MAX {
            scan_val(0, b) as i32
        } else {
            0
        }
    }
}

/// What a turn-direction name denotes, if it is one.
pub open spec fn spec_parse_turn_direction(t: Seq<char>) -> Option<TurnDirection> {
    if t == "Left"@ {
        Option::Some(TurnDirection::Left)
    } else if t == "Right"@ {
        Option::Some(TurnDirection::Right)
    } else if t == "Straight"@ {
        Option::Some(TurnDirection::Straight)
    } else if t == "UTurn"@ {
        Option::Some(TurnDirection::UTurn)
    } else {
        Option::None
    }
}

/// What a compass-direction name denotes, if it is one.
pub open spec fn spec_parse_compass(t: Seq<char>) -> Option<CompassDirection> {
    if t == "North"@ {
        Option::Some(CompassDirection::North)
    } else if t == "NorthEast"@ {
        Option::Some(CompassDirection::NorthEast)
    } else if t == "East"@ {
        Option::Some(CompassDirection::East)
    } else if t == "SouthEast"@ {
        Option::Some(CompassDirection::SouthEast)
    } else if t == "South"@ {
        Option::Some(CompassDirection::South)
    } else if t == "SouthWest"@ {
        Option::Some(CompassDirection::SouthWest)
    } else if t == "West"@ {
        Option::Some(CompassDirection::West)
    } else if t == "NorthWest"@ {
        Option::Some(CompassDirection::NorthWest)
    } else {
        Option::None
    }
}

/// What a turn token denotes: a colon-separated tag and argument, with
/// exactly one colon, under one of the four known tags.
pub open spec fn spec_parse_turn(t: Seq<char>) -> Option<Turn> {
    let c1 = first_at(t, ':', 0);
    if c1 == t.len() || first_at(t, ':', c1 + 1) != t.len() {
        Option::None
    } else {
        let which = t.subrange(0, c1);
        let arg = t.subrange(c1 + 1, t.len() as int);
        if which == "Relative"@ {
            match spec_parse_turn_direction(arg) {
                Option::Some(d) => Option::Some(Turn::Relative(d)),
                Option::None => Option::None,
            }
        } else if which == "Compass"@ {
            match spec_parse_compass(arg) {
                Option::Some(d) => Option::Some(Turn::Compass(d)),
                Option::None => Option::None,
            }
        } else if which == "Exit"@ {
            match parse_u8_strict(arg) {
                Option::Some(n) => Option::Some(Turn::Exit(n)),
                Option::None => Option::None,
            }
        } else if which == "Heading"@ {
            match parse_u32_strict(arg) {
                Option::Some(h) => Option::Some(Turn::Heading(h)),
                Option::None => Option::None,
            }
        } else {
            Option::None
        }
    }
}

/// What a multiplicity token denotes: the bare word `Always`, or
/// `Count` with a 32-bit count behind one colon.
pub open spec fn spec_parse_mult(t: Seq<char>) -> Option<TurnMultiplicity> {
    let c1 = first_at(t, ':', 0);
    if c1 == t.len() {
        if t == "Always"@ {
            Option::Some(TurnMultiplicity::Always)
        } else {
            Option::None
        }
    } else if first_at(t, ':', c1 + 1) != t.len() {
        Option::None
    } else {
        let which = t.subrange(0, c1);
        let arg = t.subrange(c1 + 1, t.len() as int);
        if which == "Count"@ {
            match parse_u32_strict(arg) {
                Option::Some(n) => Option::Some(TurnMultiplicity::Count(n)),
                Option::None => Option::None,
            }
        } else {
            Option::None
        }
    }
}

/// What a pair of tokens denotes: a turning pattern when both parts
/// parse, and nothing otherwise.
pub open spec fn spec_parse_pair(t1: Seq<char>, t2: Seq<char>) -> Option<TurningPattern> {
    match (spec_parse_turn(t1), spec_parse_mult(t2)) {
        (Option::Some(turn), Option::Some(count)) => Option::Some(TurningPattern { turn, count }),
        _ => Option::None,
    }
}

/// The patterns denoted by a token list read two at a time: pairs that
/// do not parse are dropped, and a trailing unmatched token is ignored.
pub open spec fn patterns_of(toks: Seq<Seq<char>>) -> Seq<TurningPattern>
    decreases toks.len(),
{
    if toks.len() < 2 {
        Seq::empty()
    } else {
        (match spec_parse_pair(toks[0], toks[1]) {
            Option::Some(tp) => seq![tp],
            Option::None => Seq::empty(),
        }) + patterns_of(toks.skip(2))
    }
}

/// End of the first token (the start link).
pub open spec fn route_e0(s: Seq<char>) -> int {
    token_end(s, skip_ws(s, 0))
}

/// Start and end of the second token (the offset).
pub open spec fn route_b1(s: Seq<char>) -> int {
    skip_ws(s, route_e0(s))
}

pub open spec fn route_e1(s: Seq<char>) -> int {
    token_end(s, route_b1(s))
}

/// Start and end of the third token (the distance).
pub open spec fn route_b2(s: Seq<char>) -> int {
    skip_ws(s, route_e1(s))
}

pub open spec fn route_e2(s: Seq<char>) -> int {
    token_end(s, route_b2(s))
}

/// Start and end of the fourth token (the travel direction).
pub open spec fn route_b3(s: Seq<char>) -> int {
    skip_ws(s, route_e2(s))
}

pub open spec fn route_e3(s: Seq<char>) -> int {
    token_end(s, route_b3(s))
}

/// The start link a route string denotes: its first token, parsed as a
/// 16-bit number, taken whether whitespace or the end of the string
/// closes it; 0 when there is no token at all.
pub open spec fn spec_route_start_link(s: Seq<char>) -> u16 {
    if skip_ws(s, 0) < s.len() {
        parse_u16_or_zero(s.subrange(skip_ws(s, 0), route_e0(s)))
    } else {
        0
    }
}

/// The offset token: the second token, taken whether whitespace or the
/// end of the string closes it; empty when the string holds no second
/// token.
pub open spec fn spec_route_offset_text(s: Seq<char>) -> Seq<char> {
    if route_b1(s) < s.len() {
        s.subrange(route_b1(s), route_e1(s))
    } else {
        Seq::empty()
    }
}

/// The distance token: the third token, taken whether whitespace or
/// the end of the string closes it; empty when the string holds no
/// third token.
pub open spec fn spec_route_distance_text(s: Seq<char>) -> Seq<char> {
    if route_b2(s) < s.len() {
        s.subrange(route_b2(s), route_e2(s))
    } else {
        Seq::empty()
    }
}

/// The travel direction: the fourth token parsed as a signed number,
/// taken whether whitespace or the end of the string closes it; the
/// default 1 when the string holds no fourth token.
pub open spec fn spec_route_trav_dir(s: Seq<char>) -> i32 {
    if route_b3(s) < s.len() {
        parse_i32_or_zero(s.subrange(route_b3(s), route_e3(s)))
    } else {
        1
    }
}

/// The turn patterns: everything after the fourth token, read as pairs.
pub open spec fn spec_route_patterns(s: Seq<char>) -> Seq<TurningPattern> {
    patterns_of(tokens_from(s, route_e3(s)))
}

/// Whether a character separates route fields.
fn is_ws_ch(c: char) -> (r: bool)
    ensures
        r == is_ws_char(c),
{
    c == ' ' || c == '\t' || c == '\n' || c == '\r' || c == '\u{0b}' || c == '\u{0c}'
}

/// The first non-whitespace position at or after `from`.
fn skip_ws_from(s: &str, from: usize) -> (r: usize)
    requires
        from <= s@.len(),
    ensures
        r == skip_ws(s@, from as int),
        from <= r <= s@.len(),
        r < s@.len() ==> !is_ws_char(s@[r as int]),
{
    let n = s.unicode_len();
    let mut i = from;
    while i < n
        invariant
            n == s@.len(),
            from <= i <= n,
            skip_ws(s@, from as int) == skip_ws(s@, i as int),
        decreases n - i,
    {
        if !is_ws_ch(s.get_char(i)) {
            return i;
        }
        i = i + 1;
    }
    i
}

/// The end of the token starting at `from`.
fn token_end_from(s: &str, from: usize) -> (r: usize)
    requires
        from <= s@.len(),
    ensures
        r == token_end(s@, from as int),
        from <= r <= s@.len(),
    {
    let n = s.unicode_len();
    let mut i = from;
    while i < n
        invariant
            n == s@.len(),
            from <= i <= n,
            token_end(s@, from as int) == token_end(s@, i as int),
        decreases n - i,
    {
        if is_ws_ch(s.get_char(i)) {
            return i;
        }
        i = i + 1;
    }
    i
}

/// Whether two strings hold the same characters.
fn str_eq(a: &str, b: &str) -> (r: bool)
    ensures
        r == (a@ == b@),
{
    let na = a.unicode_len();
    let nb = b.unicode_len();
    if na != nb {
        proof {
            assert(a@ != b@);
        }
        return false;
    }
    let mut i: usize = 0;
    while i < na
        invariant
            na == a@.len(),
            na == b@.len(),
            i <= na,
            forall|k: int| 0 <= k < i ==> a@[k] == b@[k],
        decreases na - i,
    {
        if a.get_char(i) != b.get_char(i) {
            proof {
                assert(a@[i as int] != b@[i as int]);
            }
            return false;
        }
        i = i + 1;
    }
    proof {
        assert(a@ =~= b@);
    }
    true
}

/// A digit-run value saturated just above `u32::MAX`, which every
/// numeric field's bound check treats the same as the true value.
pub open spec fn clamped(x: int) -> int {
    if x > u32::MAX {
        0x1_0000_0000
    } else {
        x
    }
}

/// The value of the all-digit run from `from` to the end, saturated
/// just above `u32::MAX`, or nothing when the run is empty or holds a
/// stray character.  The saturation point is higher than every bound
/// the numeric fields check against.
fn digits_value(s: &str, from: usize) -> (r: Option<u64>)
    requires
        from <= s@.len(),
    ensures
        match r {
            Option::Some(v) => {
                let t = s@.subrange(from as int, s@.len() as int);
                &&& dec_digits_ok(t)
                &&& v == clamped(scan_val(0, t))
            },
            Option::None => !dec_digits_ok(s@.subrange(from as int, s@.len() as int)),
        },
{
    let ghost t = s@.subrange(from as int, s@.len() as int);
    let n = s.unicode_len();
    if from == n {
        proof {
            assert(t.len() == 0);
        }
        return Option::None;
    }
    let mut acc: u64 = 0;
    let mut i = from;
    while i < n
        invariant
            n == s@.len(),
            from <= i <= n,
            from < n,
            t == s@.subrange(from as int, s@.len() as int),
            forall|k: int| 0 <= k < i - from ==> is_digit_char(#[trigger] t[k]),
            acc == clamped(scan_val(0, t.subrange(0, i - from))),
            scan_val(0, t.subrange(0, i - from)) >= 0,
        decreases n - i,
    {
        let c = s.get_char(i);
        let u = c as u32;
        if !(48 <= u && u <= 57) {
            proof {
                assert(t[i - from] == s@[i as int]);
                assert(!is_digit_char(t[i - from]));
            }
            return Option::None;
        }
        let d = (u - 48) as u64;
        proof {
            let pre = t.subrange(0, i - from);
            assert(pre.push(t[i - from]) =~= t.subrange(0, i - from + 1));
            lemma_scan_val_snoc(0, pre, t[i - from]);
            assert(t[i - from] == s@[i as int]);
            assert(scan_val(0, t.subrange(0, i - from + 1)) == scan_val(0, pre) * 10 + digit_val(
                t[i - from],
            ));
        }
        acc = if acc > 0xFFFF_FFFF {
            0x1_0000_0000
        } else if acc * 10 + d > 0xFFFF_FFFF {
            0x1_0000_0000
        } else {
            acc * 10 + d
        };
        i = i + 1;
    }
    proof {
        assert(t.subrange(0, t.len() as int) =~= t);
        assert(t.len() > 0);
    }
    Option::Some(acc)
}

impl TurnDirection {
    /// Parse a turn-direction name.
    pub fn parse(s: &str) -> (r: Option<TurnDirection>)
        ensures
            r == spec_parse_turn_direction(s@),
    {
        if str_eq(s, "Left") {
            Option::Some(TurnDirection::Left)
        } else if str_eq(s, "Right") {
            Option::Some(TurnDirection::Right)
        } else if str_eq(s, "Straight") {
            Option::Some(TurnDirection::Straight)
        } else if str_eq(s, "UTurn") {
            Option::Some(TurnDirection::UTurn)
        } else {
            Option::None
        }
    }
}

impl CompassDirection {
    /// Parse a compass-direction name.
    pub fn parse(s: &str) -> (r: Option<CompassDirection>)
        ensures
            r == spec_parse_compass(s@),
    {
        if str_eq(s, "North") {
            Option::Some(CompassDirection::North)
        } else if str_eq(s, "NorthEast") {
            Option::Some(CompassDirection::NorthEast)
        } else if str_eq(s, "East") {
            Option::Some(CompassDirection::East)
        } else if str_eq(s, "SouthEast") {
            Option::Some(CompassDirection::SouthEast)
        } else if str_eq(s, "South") {
            Option::Some(CompassDirection::South)
        } else if str_eq(s, "SouthWest") {
            Option::Some(CompassDirection::SouthWest)
        } else if str_eq(s, "West") {
            Option::Some(CompassDirection::West)
        } else if str_eq(s, "NorthWest") {
            Option::Some(CompassDirection::NorthWest)
        } else {
            Option::None
        }
    }
}

/// Parse the decimal argument of a tagged token as a `u32`.
fn parse_u32_tok(s: &str, from: usize) -> (r: Option<u32>)
    requires
        from <= s@.len(),
    ensures
        r == parse_u32_strict(s@.subrange(from as int, s@.len() as int)),
{
    let n = s.unicode_len();
    let start = if from < n && s.get_char(from) == '+' {
        from + 1
    } else {
        from
    };
    proof {
        let t = s@.subrange(from as int, s@.len() as int);
        assert(s@.subrange(start as int, s@.len() as int) =~= num_body(t));
    }
    match digits_value(s, start) {
        Option::Some(v) => if v <= 0xFFFF_FFFF {
            Option::Some(v as u32)
        } else {
            Option::None
        },
        Option::None => Option::None,
    }
}

impl Turn {
    /// Parse a turn token: a tag and an argument around one colon.
    pub fn parse(s: &str) -> (r: Option<Turn>)
        ensures
            r == spec_parse_turn(s@),
    {
        let n = s.unicode_len();
        let c1 = find_char_from(s, 0, ':');
        if c1 == n {
            return Option::None;
        }
        let c2 = find_char_from(s, c1 + 1, ':');
        if c2 != n {
            return Option::None;
        }
        let which = s.substring_char(0, c1);
        let arg = s.substring_char(c1 + 1, n);
        proof {
            assert(which@ =~= s@.subrange(0, c1 as int));
            assert(arg@ =~= s@.subrange(c1 + 1, s@.len() as int));
        }
        if str_eq(which, "Relative") {
            match TurnDirection::parse(arg) {
                Option::Some(d) => Option::Some(Turn::Relative(d)),
                Option::None => Option::None,
            }
        } else if str_eq(which, "Compass") {
            match CompassDirection::parse(arg) {
                Option::Some(d) => Option::Some(Turn::Compass(d)),
                Option::None => Option::None,
            }
        } else if str_eq(which, "Exit") {
            proof {
                assert(arg@.subrange(0, arg@.len() as int) =~= arg@);
            }
            match parse_u32_tok(arg, 0) {
                Option::Some(v) => {
                    proof {
                        assert(parse_u32_strict(arg@) == Option::Some(v));
                        assert(dec_digits_ok(num_body(arg@)));
                        lemma_scan_val_nonneg(0, num_body(arg@));
                        assert(scan_val(0, num_body(arg@)) == v as int);
                    }
                    if v <= 255 {
                        proof {
                            assert(parse_u8_strict(arg@) == Option::Some(v as u8));
                        }
                        Option::Some(Turn::Exit(v as u8))
                    } else {
                        proof {
                            assert(parse_u8_strict(arg@) is None);
                        }
                        Option::None
                    }
                },
                Option::None => {
                    proof {
                        assert(parse_u8_strict(arg@) is None);
                    }
                    Option::None
                },
            }
        } else if str_eq(which, "Heading") {
            proof {
                assert(arg@.subrange(0, arg@.len() as int) =~= arg@);
            }
            match parse_u32_tok(arg, 0) {
                Option::Some(h) => Option::Some(Turn::Heading(h)),
                Option::None => Option::None,
            }
        } else {
            Option::None
        }
    }
}

impl TurnMultiplicity {
    /// Parse a multiplicity token: `Always`, or `Count` behind one
    /// colon.
    pub fn parse(s: &str) -> (r: Option<TurnMultiplicity>)
        ensures
            r == spec_parse_mult(s@),
    {
        let n = s.unicode_len();
        let c1 = find_char_from(s, 0, ':');
        if c1 == n {
            if str_eq(s, "Always") {
                return Option::Some(TurnMultiplicity::Always);
            }
            return Option::None;
        }
        let c2 = find_char_from(s, c1 + 1, ':');
        if c2 != n {
            return Option::None;
        }
        let which = s.substring_char(0, c1);
        let arg = s.substring_char(c1 + 1, n);
        proof {
            assert(which@ =~= s@.subrange(0, c1 as int));
            assert(arg@ =~= s@.subrange(c1 + 1, s@.len() as int));
            assert(arg@.subrange(0, arg@.len() as int) =~= arg@);
        }
        if str_eq(which, "Count") {
            match parse_u32_tok(arg, 0) {
                Option::Some(v) => Option::Some(TurnMultiplicity::Count(v)),
                Option::None => Option::None,
            }
        } else {
            Option::None
        }
    }
}

impl TurningPattern {
    /// Parse a turn token and a multiplicity token into a pattern.
    pub fn parse_pair(turn_tok: &str, mult_tok: &str) -> (r: Option<TurningPattern>)
        ensures
            r == spec_parse_pair(turn_tok@, mult_tok@),
    {
        match (Turn::parse(turn_tok), TurnMultiplicity::parse(mult_tok)) {
            (Option::Some(turn), Option::Some(count)) => Option::Some(
                TurningPattern { turn, count },
            ),
            _ => Option::None,
        }
    }
}

/// Parse the first token as the start link, defaulting to 0.
fn parse_u16_field(s: &str, from: usize, to: usize) -> (r: u16)
    requires
        from <= to <= s@.len(),
    ensures
        r == parse_u16_or_zero(s@.subrange(from as int, to as int)),
{
    let tok = s.substring_char(from, to);
    let n = tok.unicode_len();
    let start = if 0 < n && tok.get_char(0) == '+' {
        1
    } else {
        0
    };
    proof {
        assert(tok@.subrange(start as int, tok@.len() as int) =~= num_body(
            s@.subrange(from as int, to as int),
        ));
    }
    match digits_value(tok, start) {
        Option::Some(v) => if v <= 65535 {
            v as u16
        } else {
            0
        },
        Option::None => 0,
    }
}

/// Parse the fourth token as the signed travel direction, defaulting
/// to 0.
fn parse_i32_field(s: &str, from: usize, to: usize) -> (r: i32)
    requires
        from <= to <= s@.len(),
    ensures
        r == parse_i32_or_zero(s@.subrange(from as int, to as int)),
{
    let tok = s.substring_char(from, to);
    let n = tok.unicode_len();
    let ghost t = s@.subrange(from as int, to as int);
    if 0 < n && tok.get_char(0) == '-' {
        proof {
            assert(tok@.subrange(1, tok@.len() as int) =~= t.drop_first());
        }
        match digits_value(tok, 1) {
            Option::Some(v) => if v <= 0x8000_0000 {
                if v == 0x8000_0000 {
                    i32::MIN
                } else {
                    0 - (v as i32)
                }
            } else {
                0
            },
            Option::None => 0,
        }
    } else {
        let start = if 0 < n && tok.get_char(0) == '+' {
            1
        } else {
            0
        };
        proof {
            assert(tok@.subrange(start as int, tok@.len() as int) =~= num_body(t));
        }
        match digits_value(tok, start) {
            Option::Some(v) => if v <= 0x7FFF_FFFF {
                v as i32
            } else {
                0
            },
            Option::None => 0,
        }
    }
}

impl Route {
    /// Parse a route string: four whitespace-separated leading fields
    /// (start link, offset, distance, travel direction), then turn and
    /// multiplicity tokens read two at a time.  The parser never fails:
    /// a leading field supplied last without trailing whitespace still
    /// counts, fields missing or failing to parse take their defaults,
    /// pairs that do not parse are dropped, and a trailing unmatched
    /// token is ignored.
    pub fn parse(input: &str) -> (r: Route)
        ensures
            r.start_link == spec_route_start_link(input@),
            r.offset_text@ == spec_route_offset_text(input@),
            r.distance_text@ == spec_route_distance_text(input@),
            r.trav_dir == spec_route_trav_dir(input@),
            r.patterns@ == spec_route_patterns(input@),
    {
        let n = input.unicode_len();
        let p0 = skip_ws_from(input, 0);
        let e0 = token_end_from(input, p0);
        let start_link: u16 = if p0 < n {
            parse_u16_field(input, p0, e0)
        } else {
            0
        };
        let b1 = skip_ws_from(input, e0);
        let e1 = token_end_from(input, b1);
        let offset_text: String = if b1 < n {
            input.substring_char(b1, e1).to_owned()
        } else {
            String::new()
        };
        let b2 = skip_ws_from(input, e1);
        let e2 = token_end_from(input, b2);
        let distance_text: String = if b2 < n {
            input.substring_char(b2, e2).to_owned()
        } else {
            String::new()
        };
        let b3 = skip_ws_from(input, e2);
        let e3 = token_end_from(input, b3);
        let trav_dir: i32 = if b3 < n {
            parse_i32_field(input, b3, e3)
        } else {
            1
        };
        let mut patterns: Vec<TurningPattern> = Vec::new();
        let mut cur = e3;
        while cur < n
            invariant
                n == input@.len(),
                cur <= n,
                patterns@ + patterns_of(tokens_from(input@, cur as int)) == spec_route_patterns(
                    input@,
                ),
            decreases n - cur,
        {
            let tb = skip_ws_from(input, cur);
            if tb == n {
                proof {
                    assert(tokens_from(input@, cur as int) =~= Seq::<Seq<char>>::empty());
                    assert(tokens_from(input@, n as int) =~= Seq::<Seq<char>>::empty());
                    assert(patterns_of(Seq::<Seq<char>>::empty()) =~= Seq::<
                        TurningPattern,
                    >::empty());
                    assert(patterns@ + Seq::<TurningPattern>::empty() =~= patterns@);
                }
                cur = n;
            } else {
                let te = token_end_from(input, tb);
                let tb2 = skip_ws_from(input, te);
                proof {
                    lemma_token_end_props(input@, tb as int);
                    assert(te > tb);
                }
                if tb2 == n {
                    proof {
                        let toks = tokens_from(input@, cur as int);
                        assert(tokens_from(input@, te as int) =~= Seq::<Seq<char>>::empty());
                        assert(toks =~= seq![input@.subrange(tb as int, te as int)]);
                        assert(patterns_of(toks) =~= Seq::<TurningPattern>::empty());
                        assert(tokens_from(input@, n as int) =~= Seq::<Seq<char>>::empty());
                        assert(patterns_of(Seq::<Seq<char>>::empty()) =~= Seq::<
                            TurningPattern,
                        >::empty());
                        assert(patterns@ + Seq::<TurningPattern>::empty() =~= patterns@);
                    }
                    cur = n;
                } else {
                    let te2 = token_end_from(input, tb2);
                    let t1 = input.substring_char(tb, te);
                    let t2 = input.substring_char(tb2, te2);
                    let ghost toks = tokens_from(input@, cur as int);
                    proof {
                        lemma_token_end_props(input@, tb2 as int);
                        assert(te2 > tb2);
                        assert(toks == seq![input@.subrange(tb as int, te as int)] + tokens_from(
                            input@,
                            te as int,
                        ));
                        assert(tokens_from(input@, te as int) == seq![
                            input@.subrange(tb2 as int, te2 as int),
                        ] + tokens_from(input@, te2 as int));
                        assert(toks.len() >= 2);
                        assert(toks[0] == input@.subrange(tb as int, te as int));
                        assert(toks[1] == input@.subrange(tb2 as int, te2 as int));
                        assert(toks.skip(2) =~= tokens_from(input@, te2 as int));
                    }
                    let ghost pre_patterns = patterns@;
                    match TurningPattern::parse_pair(t1, t2) {
                        Option::Some(tp) => {
                            patterns.push(tp);
                            proof {
                                assert((pre_patterns + seq![tp]) + patterns_of(
                                    tokens_from(input@, te2 as int),
                                ) =~= pre_patterns + (seq![tp] + patterns_of(
                                    tokens_from(input@, te2 as int),
                                )));
                            }
                        },
                        Option::None => {
                            proof {
                                assert(pre_patterns + (Seq::<TurningPattern>::empty()
                                    + patterns_of(tokens_from(input@, te2 as int))) =~= pre_patterns
                                    + patterns_of(tokens_from(input@, te2 as int)));
                            }
                        },
                    }
                    cur = te2;
                }
            }
        }
        proof {
            assert(tokens_from(input@, cur as int) =~= Seq::<Seq<char>>::empty());
            assert(patterns_of(Seq::<Seq<char>>::empty()) =~= Seq::<TurningPattern>::empty());
            assert(patterns@ + Seq::<TurningPattern>::empty() =~= patterns@);
        }
        Route { start_link, offset_text, distance_text, trav_dir, patterns }
    }
}

} // verus!
