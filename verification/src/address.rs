use vstd::prelude::*;

verus! {

/// The mode of the lenient field scanners: outside a digit run, inside
/// one, or done with all fields.
#[derive(PartialEq, Eq, Structural, Debug, Copy, Clone)]
pub enum ParsingState {
    Initial,
    FoundDigit,
    Accepted,
}

/// An identifier for a network component.
#[derive(PartialEq, Eq, Structural, Debug, Copy, Clone, Hash)]
pub struct Identifier {
    /// A directed connection between two junctions.
    pub link: u16,
    /// A possibly curved portion of a link.
    pub tile: u16,
    /// An individual piece of road.
    pub segment: u16,
    /// A label for a lateral portion of a segment; the only signed field.
    pub lane: i16,
}

/// An indication of which fields of an `Identifier` are relevant for a
/// query.
#[derive(PartialEq, Eq, Structural, Debug, Copy, Clone, Hash)]
pub struct Mask {
    pub link: bool,
    pub tile: bool,
    pub segment: bool,
    pub lane: bool,
}

/// A pair of an `Identifier` and the `Mask` naming its active fields.
#[derive(PartialEq, Eq, Structural, Debug, Copy, Clone, Hash)]
pub struct LogicalAddress {
    pub id: Identifier,
    pub mask: Mask,
}

pub open spec fn is_digit_char(c: char) -> bool {
    48 <= c as u32 <= 57
}

pub open spec fn digit_val(c: char) -> int {
    c as u32 - 48
}

/// The state of the identifier scanner: the mode, the fields committed
/// so far, and a description of the digit-run window currently open.
/// The window covers the run's leading character plus one further
/// character per digit seen, so a stray character inside a run poisons
/// the window as soon as another digit follows it.
pub struct IdScan {
    pub mode: ParsingState,
    /// Fields committed so far (0 to 4).
    pub fi: int,
    pub link: int,
    pub tile: int,
    pub segment: int,
    pub lane: int,
    /// The open window begins with a minus sign.
    pub neg: bool,
    /// The value of the digits seen in the run, most significant first.
    pub val: int,
    /// At least one digit lies in the window.
    pub has_digit: bool,
    /// The window contains a character that is neither a digit nor the
    /// leading minus sign, so it does not parse as a number.
    pub junk: bool,
    /// A stray character has been seen after the window's end; the next
    /// digit would pull it into the window.
    pub junk_pending: bool,
    /// A minus sign appeared in a field that must be unsigned.
    pub err: bool,
}

pub open spec fn id_init() -> IdScan {
    IdScan {
        mode: ParsingState::Initial,
        fi: 0,
        link: 0,
        tile: 0,
        segment: 0,
        lane: 0,
        neg: false,
        val: 0,
        has_digit: false,
        junk: false,
        junk_pending: false,
        err: false,
    }
}

/// The number an unsigned field commits to: the window's value when the
/// window is a plain run of digits no larger than `u16::MAX`, and 0 for
/// anything that does not parse.
pub open spec fn run_u16(st: IdScan) -> int {
    if st.junk || !st.has_digit || st.neg || st.val > 65535 {
        0
    } else {
        st.val
    }
}

/// The number the lane field commits to: the window's signed value when
/// it parses as an `i16`, and 0 otherwise.
pub open spec fn run_i16(st: IdScan) -> int {
    if st.junk || !st.has_digit {
        0
    } else if st.neg {
        if st.val <= 32768 {
            -st.val
        } else {
            0
        }
    } else {
        if st.val <= 32767 {
            st.val
        } else {
            0
        }
    }
}

/// Close the open window and commit it to the next field in order.
pub open spec fn id_commit(st: IdScan) -> IdScan {
    IdScan {
        mode: ParsingState::Initial,
        fi: st.fi + 1,
        link: if st.fi == 0 {
            run_u16(st)
        } else {
            st.link
        },
        tile: if st.fi == 1 {
            run_u16(st)
        } else {
            st.tile
        },
        segment: if st.fi == 2 {
            run_u16(st)
        } else {
            st.segment
        },
        lane: if st.fi == 3 {
            run_i16(st)
        } else {
            st.lane
        },
        neg: false,
        val: 0,
        has_digit: false,
        junk: false,
        junk_pending: false,
        err: st.err,
    }
}

/// One step of the identifier scanner on character `c`.
pub open spec fn id_step(st: IdScan, c: char) -> IdScan {
    if st.err {
        st
    } else {
        match st.mode {
            ParsingState::Initial => {
                if is_digit_char(c) {
                    IdScan {
                        mode: ParsingState::FoundDigit,
                        neg: false,
                        val: digit_val(c),
                        has_digit: true,
                        junk: false,
                        junk_pending: false,
                        ..st
                    }
                } else if c == '-' && st.fi >= 3 {
                    IdScan {
                        mode: ParsingState::FoundDigit,
                        neg: true,
                        val: 0,
                        has_digit: false,
                        junk: false,
                        junk_pending: false,
                        ..st
                    }
                } else if c == '-' {
                    IdScan { err: true, ..st }
                } else {
                    st
                }
            },
            ParsingState::FoundDigit => {
                if is_digit_char(c) {
                    IdScan {
                        val: st.val * 10 + digit_val(c),
                        has_digit: true,
                        junk: st.junk || st.junk_pending,
                        junk_pending: false,
                        ..st
                    }
                } else if c == '.' {
                    if st.fi < 4 {
                        id_commit(st)
                    } else {
                        IdScan { mode: ParsingState::Accepted, ..st }
                    }
                } else {
                    IdScan { junk_pending: true, ..st }
                }
            },
            ParsingState::Accepted => st,
        }
    }
}

/// Run the identifier scanner over a whole character sequence.
pub open spec fn id_scan_seq(st: IdScan, s: Seq<char>) -> IdScan
    decreases s.len(),
{
    if s.len() == 0 {
        st
    } else {
        id_scan_seq(id_step(st, s[0]), s.drop_first())
    }
}

/// What `Identifier` a character sequence parses to: the committed
/// fields, with a run still open at the end of the input committed to
/// whichever of the four fields comes next, so that only fields really
/// missing from the input default to 0; `None` when a minus sign stood
/// in one of the three unsigned fields.
pub open spec fn spec_parse_identifier(s: Seq<char>) -> Option<Identifier> {
    let st = id_scan_seq(id_init(), s);
    if st.err {
        Option::None
    } else {
        let stf = if st.mode == ParsingState::FoundDigit && st.fi < 4 {
            id_commit(st)
        } else {
            st
        };
        Option::Some(
            Identifier {
                link: stf.link as u16,
                tile: stf.tile as u16,
                segment: stf.segment as u16,
                lane: stf.lane as i16,
            },
        )
    }
}

/// Scanning a concatenation scans the parts in order.
pub proof fn lemma_id_scan_append(st: IdScan, a: Seq<char>, b: Seq<char>)
    ensures
        id_scan_seq(st, a + b) == id_scan_seq(id_scan_seq(st, a), b),
    decreases a.len(),
{
    if a.len() == 0 {
        assert(a + b =~= b);
    } else {
        assert((a + b).drop_first() =~= a.drop_first() + b);
        lemma_id_scan_append(id_step(st, a[0]), a.drop_first(), b);
    }
}

/// Extending the scanned prefix by one character steps the scanner once.
pub proof fn lemma_id_scan_snoc(st: IdScan, s: Seq<char>, c: char)
    ensures
        id_scan_seq(st, s.push(c)) == id_step(id_scan_seq(st, s), c),
{
    lemma_id_scan_append(st, s, seq![c]);
    let st2 = id_scan_seq(st, s);
    assert(seq![c].drop_first() =~= Seq::<char>::empty());
    assert(seq![c][0] == c);
    assert(id_scan_seq(id_step(st2, c), Seq::<char>::empty()) == id_step(st2, c));
    assert(id_scan_seq(st2, seq![c]) == id_step(st2, c));
    assert(s.push(c) =~= s + seq![c]);
}

/// Once the scanner has rejected a minus sign it stays rejected.
pub proof fn lemma_id_scan_err_stable(st: IdScan, s: Seq<char>)
    requires
        st.err,
    ensures
        id_scan_seq(st, s).err,
    decreases s.len(),
{
    if s.len() > 0 {
        lemma_id_scan_err_stable(id_step(st, s[0]), s.drop_first());
    }
}

fn is_digit_ch(c: char) -> (r: bool)
    ensures
        r == is_digit_char(c),
{
    let u = c as u32;
    48 <= u && u <= 57
}

/// The exec counterpart of the scanner's run window.  `val` saturates
/// just above `u16::MAX`, which the commit rules cannot distinguish from
/// the true value.
pub open spec fn val_corr(spec_val: int, val: u32) -> bool {
    val == if spec_val > 65535 {
        65536int
    } else {
        spec_val
    }
}

/// The exec scanner variables agree with the specification state.
pub open spec fn id_corr(
    st: IdScan,
    mode: ParsingState,
    fi: u8,
    link: u16,
    tile: u16,
    segment: u16,
    lane: i16,
    neg: bool,
    val: u32,
    has_digit: bool,
    junk: bool,
    junk_pending: bool,
) -> bool {
    &&& !st.err
    &&& st.mode == mode
    &&& st.fi == fi as int
    &&& st.link == link as int
    &&& st.tile == tile as int
    &&& st.segment == segment as int
    &&& st.lane == lane as int
    &&& st.neg == neg
    &&& val_corr(st.val, val)
    &&& st.has_digit == has_digit
    &&& st.junk == junk
    &&& st.junk_pending == junk_pending
}

/// Commit an unsigned window as `run_u16` does.
fn commit_u16(neg: bool, val: u32, has_digit: bool, junk: bool, ghost_val: Ghost<int>) -> (r: u16)
    requires
        val_corr(ghost_val@, val),
    ensures
        forall|st: IdScan|
            st.neg == neg && st.val == ghost_val@ && st.has_digit == has_digit && st.junk == junk
                ==> r as int == run_u16(st),
{
    if junk || !has_digit || neg || val > 65535 {
        0
    } else {
        val as u16
    }
}

/// Commit the lane window as `run_i16` does.
fn commit_i16(neg: bool, val: u32, has_digit: bool, junk: bool, ghost_val: Ghost<int>) -> (r: i16)
    requires
        val_corr(ghost_val@, val),
    ensures
        forall|st: IdScan|
            st.neg == neg && st.val == ghost_val@ && st.has_digit == has_digit && st.junk == junk
                ==> r as int == run_i16(st),
{
    if junk || !has_digit {
        0
    } else if neg {
        if val == 32768 {
            i16::MIN
        } else if val < 32768 {
            0 - (val as i16)
        } else {
            0
        }
    } else {
        if val <= 32767 {
            val as i16
        } else {
            0
        }
    }
}

/// The state of the mask scanner: the mode, how many flags have been
/// committed, and the four flags.
pub struct MaskScan {
    pub mode: ParsingState,
    pub cnt: int,
    pub f0: bool,
    pub f1: bool,
    pub f2: bool,
    pub f3: bool,
}

pub open spec fn mask_init() -> MaskScan {
    MaskScan { mode: ParsingState::Initial, cnt: 0, f0: true, f1: true, f2: true, f3: true }
}

/// One step of the mask scanner: the first digit of each run commits the
/// next flag (zero means inactive); everything else moves the modes.
pub open spec fn mask_step(st: MaskScan, c: char) -> MaskScan {
    match st.mode {
        ParsingState::Initial => {
            if is_digit_char(c) {
                if st.cnt < 4 {
                    let flag = digit_val(c) != 0;
                    MaskScan {
                        mode: ParsingState::FoundDigit,
                        cnt: st.cnt + 1,
                        f0: if st.cnt == 0 {
                            flag
                        } else {
                            st.f0
                        },
                        f1: if st.cnt == 1 {
                            flag
                        } else {
                            st.f1
                        },
                        f2: if st.cnt == 2 {
                            flag
                        } else {
                            st.f2
                        },
                        f3: if st.cnt == 3 {
                            flag
                        } else {
                            st.f3
                        },
                    }
                } else {
                    MaskScan { mode: ParsingState::Accepted, ..st }
                }
            } else {
                st
            }
        },
        ParsingState::FoundDigit => {
            if c == '.' {
                MaskScan { mode: ParsingState::Initial, ..st }
            } else {
                st
            }
        },
        ParsingState::Accepted => st,
    }
}

pub open spec fn mask_scan_seq(st: MaskScan, s: Seq<char>) -> MaskScan
    decreases s.len(),
{
    if s.len() == 0 {
        st
    } else {
        mask_scan_seq(mask_step(st, s[0]), s.drop_first())
    }
}

/// What `Mask` a character sequence parses to; missing fields default to
/// active.
pub open spec fn spec_parse_mask(s: Seq<char>) -> Mask {
    let st = mask_scan_seq(mask_init(), s);
    Mask { link: st.f0, tile: st.f1, segment: st.f2, lane: st.f3 }
}

/// Extending the scanned prefix by one character steps the scanner once.
pub proof fn lemma_mask_scan_snoc(st: MaskScan, s: Seq<char>, c: char)
    ensures
        mask_scan_seq(st, s.push(c)) == mask_step(mask_scan_seq(st, s), c),
    decreases s.len(),
{
    if s.len() == 0 {
        assert(s.push(c).drop_first() =~= Seq::<char>::empty());
        assert(s.push(c)[0] == c);
        assert(mask_scan_seq(mask_step(st, c), Seq::<char>::empty()) == mask_step(st, c));
    } else {
        assert(s.push(c).drop_first() =~= s.drop_first().push(c));
        assert(s.push(c)[0] == s[0]);
        lemma_mask_scan_snoc(mask_step(st, s[0]), s.drop_first(), c);
    }
}

impl Mask {
    pub fn new(link: bool, tile: bool, segment: bool, lane: bool) -> (r: Mask)
        ensures
            r == (Mask { link, tile, segment, lane }),
    {
        Mask { link, tile, segment, lane }
    }

    /// Parse up to four dotted digit fields into flags: a zero digit
    /// switches the field off, any other digit leaves it on, and missing
    /// fields default to on.
    pub fn parse(s: &str) -> (r: Mask)
        ensures
            r == spec_parse_mask(s@),
    {
        let ghost sv = s@;
        let n = s.unicode_len();
        let mut mode = ParsingState::Initial;
        let mut cnt: u8 = 0;
        let mut flags: [bool; 4] = [true, true, true, true];
        let mut i: usize = 0;
        while i < n
            invariant
                n == sv.len(),
                sv == s@,
                i <= n,
                cnt <= 4,
                ({
                    let st = mask_scan_seq(mask_init(), sv.subrange(0, i as int));
                    &&& st.mode == mode
                    &&& st.cnt == cnt as int
                    &&& st.f0 == flags[0]
                    &&& st.f1 == flags[1]
                    &&& st.f2 == flags[2]
                    &&& st.f3 == flags[3]
                }),
            decreases n - i,
        {
            let c = s.get_char(i);
            proof {
                assert(sv.subrange(0, i as int).push(c) =~= sv.subrange(0, i + 1));
                lemma_mask_scan_snoc(mask_init(), sv.subrange(0, i as int), c);
            }
            match mode {
                ParsingState::Initial => {
                    if is_digit_ch(c) {
                        if cnt < 4 {
                            let flag = c as u32 - 48 != 0;
                            if cnt == 0 {
                                flags[0] = flag;
                            } else if cnt == 1 {
                                flags[1] = flag;
                            } else if cnt == 2 {
                                flags[2] = flag;
                            } else {
                                flags[3] = flag;
                            }
                            mode = ParsingState::FoundDigit;
                            cnt = cnt + 1;
                        } else {
                            mode = ParsingState::Accepted;
                        }
                    }
                },
                ParsingState::FoundDigit => {
                    if c == '.' {
                        mode = ParsingState::Initial;
                    }
                },
                ParsingState::Accepted => {},
            }
            i = i + 1;
        }
        proof {
            assert(sv.subrange(0, n as int) =~= sv);
        }
        Mask { link: flags[0], tile: flags[1], segment: flags[2], lane: flags[3] }
    }
}

/// The index of the first occurrence of `c` in `s` at or after `from`,
/// or `s.len()` when there is none.
pub open spec fn first_at(s: Seq<char>, c: char, from: int) -> int
    decreases s.len() - from,
{
    if from < 0 || from >= s.len() {
        s.len() as int
    } else if s[from] == c {
        from
    } else {
        first_at(s, c, from + 1)
    }
}

pub proof fn lemma_first_at_bounds(s: Seq<char>, c: char, from: int)
    requires
        0 <= from <= s.len(),
    ensures
        from <= first_at(s, c, from) <= s.len(),
        first_at(s, c, from) < s.len() ==> s[first_at(s, c, from)] == c,
    decreases s.len() - from,
{
    if from < s.len() && s[from] != c {
        lemma_first_at_bounds(s, c, from + 1);
    }
}

/// Appending to a sequence leaves an already-found first occurrence in
/// place, and otherwise continues the search in the appended part.
pub proof fn lemma_first_at_append(s: Seq<char>, u: Seq<char>, c: char, from: int)
    requires
        0 <= from <= s.len(),
    ensures
        first_at(s + u, c, from) == if first_at(s, c, from) < s.len() {
            first_at(s, c, from)
        } else {
            s.len() + first_at(u, c, 0)
        },
    decreases s.len() - from,
{
    if from < s.len() {
        assert((s + u)[from] == s[from]);
        if s[from] != c {
            lemma_first_at_append(s, u, c, from + 1);
        } else {
            lemma_first_at_bounds(s, c, from);
        }
    } else {
        lemma_first_at_shift(s, u, c, 0);
    }
}

/// Searching the appended part of a concatenation shifts indices by the
/// length of the front part.
pub proof fn lemma_first_at_shift(s: Seq<char>, u: Seq<char>, c: char, j: int)
    requires
        0 <= j,
    ensures
        first_at(s + u, c, s.len() + j) == s.len() + first_at(u, c, j),
    decreases u.len() - j,
{
    if j < u.len() {
        assert((s + u)[s.len() + j] == u[j]);
        if u[j] != c {
            lemma_first_at_shift(s, u, c, j + 1);
        }
    }
}

/// The mask portion of a logical-address string whose first `/` stands
/// at `p`: the text between the first and second `/`, or the all-active
/// default when there is no `/` at all.
pub open spec fn spec_mask_part(s: Seq<char>, p: int) -> Seq<char> {
    if p == s.len() {
        "1.1.1.1"@
    } else {
        s.subrange(p + 1, first_at(s, '/', p + 1))
    }
}

/// What a logical-address string parses to: the part before the first
/// `/` as an identifier, the part after it as a mask (defaulting to
/// all-active), or one of the two rejection messages.
pub open spec fn spec_parse_logical(s: Seq<char>) -> Result<LogicalAddress, Seq<char>> {
    let p = first_at(s, '/', 0);
    if p == 0 {
        Result::Err("Expected some content before the '/'"@)
    } else {
        match spec_parse_identifier(s.subrange(0, p)) {
            Option::None => Result::Err("Expected whole number, got minus sign"@),
            Option::Some(id) => Result::Ok(
                LogicalAddress { id, mask: spec_parse_mask(spec_mask_part(s, p)) },
            ),
        }
    }
}

/// Find the first occurrence of `c` at or after `from`, or the string's
/// character length.
pub(crate) fn find_char_from(s: &str, from: usize, c: char) -> (r: usize)
    requires
        from <= s@.len(),
    ensures
        r == first_at(s@, c, from as int),
        from <= r <= s@.len(),
        r < s@.len() ==> s@[r as int] == c,
{
    let n = s.unicode_len();
    let mut i = from;
    while i < n
        invariant
            n == s@.len(),
            from <= i <= n,
            first_at(s@, c, from as int) == first_at(s@, c, i as int),
        decreases n - i,
    {
        if s.get_char(i) == c {
            return i;
        }
        i = i + 1;
    }
    i
}

impl LogicalAddress {
    pub fn new(id: Identifier, mask: Mask) -> (r: LogicalAddress)
        ensures
            r == (LogicalAddress { id, mask }),
    {
        LogicalAddress { id, mask }
    }

    /// Parse `"<id>[/<mask>]"`.  An empty part before the `/` is
    /// rejected; a missing mask defaults to all-active; an identifier
    /// rejection is passed through.
    pub fn parse(s: &str) -> (r: Result<LogicalAddress, &'static str>)
        ensures
            match r {
                Result::Ok(a) => spec_parse_logical(s@) == Result::<LogicalAddress, Seq<char>>::Ok(
                    a,
                ),
                Result::Err(m) => spec_parse_logical(s@) == Result::<
                    LogicalAddress,
                    Seq<char>,
                >::Err(m@),
            },
    {
        let n = s.unicode_len();
        let p = find_char_from(s, 0, '/');
        if p == 0 {
            return Result::Err("Expected some content before the '/'");
        }
        let id_str = s.substring_char(0, p);
        let ident = match Identifier::parse(id_str) {
            Result::Ok(ident) => ident,
            Result::Err(m) => {
                proof {
                    assert(id_str@ =~= s@.subrange(0, p as int));
                }
                return Result::Err(m);
            },
        };
        proof {
            assert(id_str@ =~= s@.subrange(0, p as int));
        }
        let mask = if p == n {
            Mask::parse("1.1.1.1")
        } else {
            let q = find_char_from(s, p + 1, '/');
            let mask_str = s.substring_char(p + 1, q);
            proof {
                assert(mask_str@ =~= spec_mask_part(s@, p as int));
            }
            Mask::parse(mask_str)
        };
        Result::Ok(LogicalAddress { id: ident, mask })
    }
}

/// Appending an explicit all-active mask to any input changes nothing:
/// either the input already had a mask, which the suffix cannot reach,
/// or the suffix spells exactly the default.
pub proof fn lemma_mask_default(s: Seq<char>)
    ensures
        spec_parse_logical(s) == spec_parse_logical(s + "/1.1.1.1"@),
{
    reveal_strlit("/1.1.1.1");
    reveal_strlit("1.1.1.1");
    let u = "/1.1.1.1"@;
    let t = s + u;
    let p = first_at(s, '/', 0);
    lemma_first_at_bounds(s, '/', 0);
    lemma_first_at_append(s, u, '/', 0);
    assert(u[0] == '/');
    let pt = first_at(t, '/', 0);
    if p == 0 {
        assert(pt == 0);
    } else {
        assert(t.subrange(0, pt) =~= s.subrange(0, p));
        if p < s.len() {
            lemma_first_at_bounds(s, '/', p + 1);
            lemma_first_at_append(s, u, '/', p + 1);
            let q = first_at(s, '/', p + 1);
            let qt = first_at(t, '/', p + 1);
            if q < s.len() {
                assert(qt == q);
            } else {
                assert(qt == s.len() + first_at(u, '/', 0));
                assert(qt == s.len());
            }
            assert(t.subrange(p + 1, qt) =~= s.subrange(p + 1, q));
        } else {
            assert(pt == s.len());
            assert(pt < t.len());
            lemma_first_at_shift(s, u, '/', 1);
            assert(forall|j: int| 1 <= j < u.len() ==> u[j] != '/');
            lemma_first_at_no_hit(u, '/', 1);
            assert(first_at(u, '/', 1) == u.len());
            assert(first_at(t, '/', pt + 1) == s.len() + u.len());
            assert(t.subrange(pt + 1, s.len() + u.len() as int) =~= "1.1.1.1"@);
            assert(spec_mask_part(t, pt) == "1.1.1.1"@);
            assert(spec_mask_part(s, p) == "1.1.1.1"@);
        }
    }
}

/// The digit character for a value from 0 to 9.
pub open spec fn digit_char(d: int) -> char {
    if d == 0 {
        '0'
    } else if d == 1 {
        '1'
    } else if d == 2 {
        '2'
    } else if d == 3 {
        '3'
    } else if d == 4 {
        '4'
    } else if d == 5 {
        '5'
    } else if d == 6 {
        '6'
    } else if d == 7 {
        '7'
    } else if d == 8 {
        '8'
    } else {
        '9'
    }
}

/// The decimal rendering of a non-negative number, most significant
/// digit first.
pub open spec fn dec_str(n: int) -> Seq<char>
    decreases n,
{
    if n < 10 {
        seq![digit_char(n)]
    } else {
        dec_str(n / 10).push(digit_char(n % 10))
    }
}

/// The decimal rendering of a possibly negative number.
pub open spec fn signed_dec_str(n: int) -> Seq<char> {
    if n < 0 {
        seq!['-'] + dec_str(-n)
    } else {
        dec_str(n)
    }
}

/// The canonical dotted text of a four-field identifier.
pub open spec fn identifier_text(a: int, b: int, c: int, d: int) -> Seq<char> {
    dec_str(a) + seq!['.'] + dec_str(b) + seq!['.'] + dec_str(c) + seq!['.'] + signed_dec_str(d)
}

/// The value accumulated by reading digits onto a running value.
pub open spec fn scan_val(v: int, s: Seq<char>) -> int
    decreases s.len(),
{
    if s.len() == 0 {
        v
    } else {
        scan_val(v * 10 + digit_val(s[0]), s.drop_first())
    }
}

pub proof fn lemma_scan_val_snoc(v: int, s: Seq<char>, c: char)
    ensures
        scan_val(v, s.push(c)) == scan_val(v, s) * 10 + digit_val(c),
    decreases s.len(),
{
    if s.len() == 0 {
        assert(s.push(c)[0] == c);
        assert(s.push(c).drop_first() =~= Seq::<char>::empty());
        assert(scan_val(v * 10 + digit_val(c), Seq::<char>::empty()) == v * 10 + digit_val(c));
        assert(scan_val(v, s) == v);
    } else {
        assert(s.push(c)[0] == s[0]);
        assert(s.push(c).drop_first() =~= s.drop_first().push(c));
        lemma_scan_val_snoc(v * 10 + digit_val(s[0]), s.drop_first(), c);
        assert(scan_val(v, s.push(c)) == scan_val(v * 10 + digit_val(s[0]), s.drop_first().push(c)));
        assert(scan_val(v, s) == scan_val(v * 10 + digit_val(s[0]), s.drop_first()));
    }
}

proof fn lemma_dec_str_digits(n: int)
    requires
        n >= 0,
    ensures
        dec_str(n).len() >= 1,
        forall|i: int| 0 <= i < dec_str(n).len() ==> is_digit_char(#[trigger] dec_str(n)[i]),
    decreases n,
{
    if n >= 10 {
        lemma_dec_str_digits(n / 10);
        assert(forall|i: int|
            0 <= i < dec_str(n / 10).len() ==> dec_str(n)[i] == dec_str(n / 10)[i]);
        assert(dec_str(n).last() == digit_char(n % 10));
        assert(is_digit_char(digit_char(n % 10)));
    }
}

proof fn lemma_scan_val_dec(n: int)
    requires
        n >= 0,
    ensures
        scan_val(0, dec_str(n)) == n,
    decreases n,
{
    if n < 10 {
        assert(seq![digit_char(n)].drop_first() =~= Seq::<char>::empty());
        assert(seq![digit_char(n)][0] == digit_char(n));
        assert(digit_val(digit_char(n)) == n);
        assert(scan_val(n, Seq::<char>::empty()) == n);
        assert(scan_val(0, dec_str(n)) == scan_val(digit_val(digit_char(n)), Seq::<char>::empty()));
    } else {
        lemma_scan_val_dec(n / 10);
        lemma_scan_val_snoc(0, dec_str(n / 10), digit_char(n % 10));
        assert(digit_val(digit_char(n % 10)) == n % 10);
        vstd::arithmetic::div_mod::lemma_fundamental_div_mod(n, 10);
    }
}

/// Reading a run of digits from inside a run keeps the mode and fields
/// and accumulates the digits onto the running value.
proof fn lemma_id_scan_digit_run(st: IdScan, s: Seq<char>)
    requires
        !st.err,
        st.mode == ParsingState::FoundDigit,
        !st.junk_pending,
        forall|i: int| 0 <= i < s.len() ==> is_digit_char(#[trigger] s[i]),
    ensures
        id_scan_seq(st, s) == (IdScan {
            val: scan_val(st.val, s),
            has_digit: st.has_digit || s.len() > 0,
            ..st
        }),
    decreases s.len(),
{
    if s.len() == 0 {
        assert(id_scan_seq(st, s) == st);
        assert((IdScan { val: scan_val(st.val, s), has_digit: st.has_digit, ..st }) == st);
    } else {
        let st1 = id_step(st, s[0]);
        assert(st1 == (IdScan {
            val: st.val * 10 + digit_val(s[0]),
            has_digit: true,
            junk: st.junk,
            junk_pending: false,
            ..st
        }));
        lemma_id_scan_digit_run(st1, s.drop_first());
    }
}

/// Reading a whole rendered number from between fields opens a run that
/// holds exactly that number.
proof fn lemma_id_scan_number(st: IdScan, n: int)
    requires
        !st.err,
        st.mode == ParsingState::Initial,
        0 <= n,
    ensures
        id_scan_seq(st, dec_str(n)) == (IdScan {
            mode: ParsingState::FoundDigit,
            neg: false,
            val: n,
            has_digit: true,
            junk: false,
            junk_pending: false,
            ..st
        }),
{
    let s = dec_str(n);
    lemma_dec_str_digits(n);
    lemma_scan_val_dec(n);
    let st1 = id_step(st, s[0]);
    assert(is_digit_char(s[0]));
    lemma_id_scan_digit_run(st1, s.drop_first());
    assert(scan_val(digit_val(s[0]), s.drop_first()) == scan_val(0, s));
}

/// Parsing the canonical dotted text of four in-range fields gives back
/// exactly those fields.
pub proof fn lemma_identifier_round_trip(a: int, b: int, c: int, d: int)
    requires
        0 <= a <= 65535,
        0 <= b <= 65535,
        0 <= c <= 65535,
        -32768 <= d <= 32767,
    ensures
        spec_parse_identifier(identifier_text(a, b, c, d)) == Option::Some(
            Identifier { link: a as u16, tile: b as u16, segment: c as u16, lane: d as i16 },
        ),
{
    let pa = dec_str(a);
    let pb = dec_str(b);
    let pc = dec_str(c);
    let pd = signed_dec_str(d);
    let s = identifier_text(a, b, c, d);
    let s1 = pa.push('.');
    let s2 = (s1 + pb).push('.');
    let s3 = (s2 + pc).push('.');
    assert(s =~= s3 + pd);

    lemma_id_scan_number(id_init(), a);
    let sta = id_scan_seq(id_init(), pa);
    lemma_id_scan_snoc(id_init(), pa, '.');
    let st1 = id_scan_seq(id_init(), s1);
    assert(st1 == id_commit(sta));
    assert(st1.fi == 1 && st1.link == a && st1.mode == ParsingState::Initial && !st1.err);

    lemma_id_scan_append(id_init(), s1, pb);
    lemma_id_scan_number(st1, b);
    let stb = id_scan_seq(st1, pb);
    lemma_id_scan_snoc(id_init(), s1 + pb, '.');
    let st2 = id_scan_seq(id_init(), s2);
    assert(st2 == id_commit(stb));
    assert(st2.fi == 2 && st2.link == a && st2.tile == b && st2.mode == ParsingState::Initial
        && !st2.err);

    lemma_id_scan_append(id_init(), s2, pc);
    lemma_id_scan_number(st2, c);
    let stc = id_scan_seq(st2, pc);
    lemma_id_scan_snoc(id_init(), s2 + pc, '.');
    let st3 = id_scan_seq(id_init(), s3);
    assert(st3 == id_commit(stc));
    assert(st3.fi == 3 && st3.link == a && st3.tile == b && st3.segment == c && st3.mode
        == ParsingState::Initial && !st3.err);

    lemma_id_scan_append(id_init(), s3, pd);
    let stf = id_scan_seq(id_init(), s);
    if d >= 0 {
        lemma_id_scan_number(st3, d);
        assert(stf == id_scan_seq(st3, pd));
        assert(stf.mode == ParsingState::FoundDigit && stf.fi == 3 && !stf.err);
        assert(run_i16(stf) == d);
    } else {
        assert(pd[0] == '-');
        assert(pd.drop_first() =~= dec_str(-d));
        let stn = id_step(st3, '-');
        assert(stn.mode == ParsingState::FoundDigit && stn.neg && stn.val == 0 && !stn.err);
        lemma_dec_str_digits(-d);
        lemma_scan_val_dec(-d);
        lemma_id_scan_digit_run(stn, dec_str(-d));
        assert(stf == id_scan_seq(st3, pd));
        assert(stf.mode == ParsingState::FoundDigit && stf.fi == 3 && !stf.err);
        assert(stf.val == -d && stf.neg && stf.has_digit && !stf.junk);
        assert(run_i16(stf) == d);
    }
}

/// When no character from `from` on matches, the search runs to the end.
pub proof fn lemma_first_at_no_hit(s: Seq<char>, c: char, from: int)
    requires
        0 <= from,
        forall|j: int| from <= j < s.len() ==> s[j] != c,
    ensures
        first_at(s, c, from) == s.len(),
    decreases s.len() - from,
{
    if from < s.len() {
        lemma_first_at_no_hit(s, c, from + 1);
    }
}

impl Identifier {
    pub fn new(link: u16, tile: u16, segment: u16, lane: i16) -> (r: Identifier)
        ensures
            r == (Identifier { link, tile, segment, lane }),
    {
        Identifier { link, tile, segment, lane }
    }

    /// Parse a dotted sequence of up to four decimal fields, such as
    /// `"2.10.2.-1"`.  Only the fourth field may carry a minus sign; a
    /// minus sign anywhere else is the one rejected input.  A field
    /// supplied last without a closing separator still counts; fields
    /// that do not parse as numbers, and missing trailing fields,
    /// default to 0.
    pub fn parse(s: &str) -> (r: Result<Identifier, &'static str>)
        ensures
            match r {
                Result::Ok(id) => spec_parse_identifier(s@) == Option::Some(id),
                Result::Err(m) => spec_parse_identifier(s@) is None && m@
                    == "Expected whole number, got minus sign"@,
            },
    {
        let ghost sv = s@;
        let n = s.unicode_len();
        let mut mode = ParsingState::Initial;
        let mut fi: u8 = 0;
        let mut link: u16 = 0;
        let mut tile: u16 = 0;
        let mut segment: u16 = 0;
        let mut lane: i16 = 0;
        let mut neg: bool = false;
        let mut val: u32 = 0;
        let mut has_digit: bool = false;
        let mut junk: bool = false;
        let mut junk_pending: bool = false;
        let mut i: usize = 0;
        while i < n
            invariant
                n == sv.len(),
                sv == s@,
                i <= n,
                id_corr(
                    id_scan_seq(id_init(), sv.subrange(0, i as int)),
                    mode,
                    fi,
                    link,
                    tile,
                    segment,
                    lane,
                    neg,
                    val,
                    has_digit,
                    junk,
                    junk_pending,
                ),
                fi <= 4,
            decreases n - i,
        {
            let ghost st = id_scan_seq(id_init(), sv.subrange(0, i as int));
            let c = s.get_char(i);
            proof {
                assert(sv.subrange(0, i as int).push(c) =~= sv.subrange(0, i + 1));
                lemma_id_scan_snoc(id_init(), sv.subrange(0, i as int), c);
            }
            match mode {
                ParsingState::Initial => {
                    if is_digit_ch(c) {
                        mode = ParsingState::FoundDigit;
                        neg = false;
                        val = c as u32 - 48;
                        has_digit = true;
                        junk = false;
                        junk_pending = false;
                    } else if c == '-' && fi >= 3 {
                        mode = ParsingState::FoundDigit;
                        neg = true;
                        val = 0;
                        has_digit = false;
                        junk = false;
                        junk_pending = false;
                    } else if c == '-' {
                        proof {
                            lemma_id_scan_err_stable(
                                id_step(st, c),
                                sv.subrange(i + 1, n as int),
                            );
                            assert(sv.subrange(0, i + 1) + sv.subrange(i + 1, n as int) =~= sv);
                            lemma_id_scan_append(
                                id_init(),
                                sv.subrange(0, i + 1),
                                sv.subrange(i + 1, n as int),
                            );
                        }
                        return Result::Err("Expected whole number, got minus sign");
                    }
                },
                ParsingState::FoundDigit => {
                    if is_digit_ch(c) {
                        let d = c as u32 - 48;
                        val = if val > 65535 {
                            65536
                        } else if val * 10 + d > 65535 {
                            65536
                        } else {
                            val * 10 + d
                        };
                        has_digit = true;
                        junk = junk || junk_pending;
                        junk_pending = false;
                    } else if c == '.' {
                        if fi < 4 {
                            if fi == 0 {
                                link = commit_u16(neg, val, has_digit, junk, Ghost(st.val));
                            } else if fi == 1 {
                                tile = commit_u16(neg, val, has_digit, junk, Ghost(st.val));
                            } else if fi == 2 {
                                segment = commit_u16(neg, val, has_digit, junk, Ghost(st.val));
                            } else {
                                lane = commit_i16(neg, val, has_digit, junk, Ghost(st.val));
                            }
                            fi = fi + 1;
                            mode = ParsingState::Initial;
                            neg = false;
                            val = 0;
                            has_digit = false;
                            junk = false;
                            junk_pending = false;
                        } else {
                            mode = ParsingState::Accepted;
                        }
                    } else {
                        junk_pending = true;
                    }
                },
                ParsingState::Accepted => {},
            }
            i = i + 1;
        }
        proof {
            assert(sv.subrange(0, n as int) =~= sv);
        }
        let ghost stf = id_scan_seq(id_init(), sv);
        let is_found = match mode {
            ParsingState::FoundDigit => true,
            _ => false,
        };
        if is_found {
            if fi == 0 {
                link = commit_u16(neg, val, has_digit, junk, Ghost(stf.val));
            } else if fi == 1 {
                tile = commit_u16(neg, val, has_digit, junk, Ghost(stf.val));
            } else if fi == 2 {
                segment = commit_u16(neg, val, has_digit, junk, Ghost(stf.val));
            } else if fi == 3 {
                lane = commit_i16(neg, val, has_digit, junk, Ghost(stf.val));
            }
        }
        Result::Ok(Identifier { link, tile, segment, lane })
    }
}

} // verus!
