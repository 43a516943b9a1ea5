//! The modal parser: lines of G-code into canonical commands, keeping the
//! modal state (motion, plane, units, distance mode, position, feed, spindle
//! speed and tool) from one line to the next.

use vstd::prelude::*;

use crate::decimal::{spec_rounded_add, Decimal};
use crate::domain::{
    command_views, spec_to_mm, ArcDefinition, CanonicalCommand, CommandView, DistanceMode,
    MotionMode, Plane, Units, Vec3,
};
use crate::lexer::{
    lemma_lex_words_well_formed, lex_chars, lex_error_text, lex_spec, lexed_number, token_views,
    words_well_formed, LexErrorView, Token, TokenView,
};
use crate::modal::{spec_default_state, ModalState};
use crate::text::{chars_of, char_vec_views, lines, split_lines};
use crate::words::{last_value, values, words_map, words_of, WordMap};

verus! {

// ---------------------------------------------------------------------------
// What a line does, stated over the tokens of the line.
// ---------------------------------------------------------------------------

/// `x` clamped into the range of `u32`.
pub open spec fn clamp_u32(x: int) -> u32 {
    if x < 0 {
        0
    } else if x > u32::MAX {
        u32::MAX
    } else {
        x as u32
    }
}

/// The code of a G or M value: its nearest integer, when the value lies
/// within `10^-9` of it.
pub open spec fn code_of(v: Decimal) -> Option<int> {
    if v.spec_near_integer() {
        Some(v.spec_round())
    } else {
        None
    }
}

/// The effect of one G code on the modes; codes without a meaning here
/// change nothing.
pub open spec fn apply_g_code(st: ModalState, code: int) -> ModalState {
    if code == 0 {
        ModalState { motion: MotionMode::Rapid, ..st }
    } else if code == 1 {
        ModalState { motion: MotionMode::Linear, ..st }
    } else if code == 2 {
        ModalState { motion: MotionMode::ArcClockwise, ..st }
    } else if code == 3 {
        ModalState { motion: MotionMode::ArcCounterClockwise, ..st }
    } else if code == 17 {
        ModalState { plane: Plane::Xy, ..st }
    } else if code == 18 {
        ModalState { plane: Plane::Xz, ..st }
    } else if code == 19 {
        ModalState { plane: Plane::Yz, ..st }
    } else if code == 20 {
        ModalState { units: Units::Inch, ..st }
    } else if code == 21 {
        ModalState { units: Units::Millimeter, ..st }
    } else if code == 90 {
        ModalState { distance: DistanceMode::Absolute, ..st }
    } else if code == 91 {
        ModalState { distance: DistanceMode::Incremental, ..st }
    } else {
        st
    }
}

/// The G values applied in order; the first value that is not a code stops
/// them and is returned, the earlier ones staying applied.
pub open spec fn apply_g_values(st: ModalState, gs: Seq<Decimal>) -> (ModalState, Option<Decimal>)
    decreases gs.len(),
{
    if gs.len() == 0 {
        (st, None)
    } else {
        let (s1, failed) = apply_g_values(st, gs.drop_last());
        if failed is Some {
            (s1, failed)
        } else {
            match code_of(gs.last()) {
                Some(code) => (apply_g_code(s1, code), None),
                None => (s1, Some(gs.last())),
            }
        }
    }
}

/// The last `F` sets the feed (in millimetres), the last `S` the spindle
/// speed, and the last `T`, when not negative, the tool: its rounded value.
pub open spec fn apply_scalar_words(st: ModalState, w: Map<char, Seq<Decimal>>) -> ModalState {
    let s1 = match last_value(w, 'F') {
        Some(f) => ModalState { feed_mm_min: Some(spec_to_mm(st.units, f)), ..st },
        None => st,
    };
    let s2 = match last_value(w, 'S') {
        Some(r) => ModalState { spindle_rpm: Some(r), ..s1 },
        None => s1,
    };
    match last_value(w, 'T') {
        Some(t) => if t.mantissa >= 0 {
            ModalState { selected_tool: Some(clamp_u32(t.spec_round())), ..s2 }
        } else {
            s2
        },
        None => s2,
    }
}

/// The new coordinate on one axis: the current one when the axis has no
/// word, else the last value in millimetres, absolute or added to the
/// current one.
pub open spec fn coordinate(st: ModalState, w: Map<char, Seq<Decimal>>, address: char, current: Decimal) -> Decimal {
    match last_value(w, address) {
        None => current,
        Some(raw) => {
            let mm = spec_to_mm(st.units, raw);
            match st.distance {
                DistanceMode::Absolute => mm,
                DistanceMode::Incremental => spec_rounded_add(current, mm),
            }
        },
    }
}

/// The last value of an address, zero when it has none.
pub open spec fn value_or_zero(w: Map<char, Seq<Decimal>>, address: char) -> Decimal {
    match last_value(w, address) {
        Some(v) => v,
        None => Decimal { mantissa: 0, scale: 0 },
    }
}

/// The arc of an arc move: the `R` radius when given, else the `I`, `J`, `K`
/// centre offsets (zero when absent), all in millimetres; none for other
/// motions.
pub open spec fn arc_of(st: ModalState, w: Map<char, Seq<Decimal>>) -> Option<ArcDefinition> {
    if st.motion == MotionMode::ArcClockwise || st.motion == MotionMode::ArcCounterClockwise {
        match last_value(w, 'R') {
            Some(r) => Some(ArcDefinition::Radius(spec_to_mm(st.units, r))),
            None => Some(
                ArcDefinition::CenterOffset {
                    i: spec_to_mm(st.units, value_or_zero(w, 'I')),
                    j: spec_to_mm(st.units, value_or_zero(w, 'J')),
                    k: spec_to_mm(st.units, value_or_zero(w, 'K')),
                },
            ),
        }
    } else {
        None
    }
}

/// The move of a line with coordinates, and the state with its end as the
/// new position.
pub open spec fn build_move(st: ModalState, w: Map<char, Seq<Decimal>>) -> (ModalState, CommandView) {
    let start = st.position_mm;
    let end = Vec3 {
        x: coordinate(st, w, 'X', start.x),
        y: coordinate(st, w, 'Y', start.y),
        z: coordinate(st, w, 'Z', start.z),
    };
    (
        ModalState { position_mm: end, ..st },
        CommandView::Move {
            mode: st.motion,
            plane: st.plane,
            start,
            end,
            arc: arc_of(st, w),
            feed_mm_min: st.feed_mm_min,
        },
    )
}

/// The command of one M value: `M3` and `M4` start the spindle clockwise or
/// counter-clockwise, `M5` stops it, `M6` changes the tool, `M2` and `M30`
/// end the program; other values, and values that are no code, give none.
pub open spec fn m_command(st: ModalState, v: Decimal) -> Seq<CommandView> {
    match code_of(v) {
        Some(code) => if code == 3 {
            seq![CommandView::Spindle { enabled: true, clockwise: true, rpm: st.spindle_rpm }]
        } else if code == 4 {
            seq![CommandView::Spindle { enabled: true, clockwise: false, rpm: st.spindle_rpm }]
        } else if code == 5 {
            seq![CommandView::Spindle { enabled: false, clockwise: true, rpm: st.spindle_rpm }]
        } else if code == 6 {
            seq![CommandView::ToolChange]
        } else if code == 2 || code == 30 {
            seq![CommandView::ProgramEnd]
        } else {
            Seq::empty()
        },
        None => Seq::empty(),
    }
}

/// The commands of the M values, in order.
pub open spec fn m_commands(st: ModalState, ms: Seq<Decimal>) -> Seq<CommandView>
    decreases ms.len(),
{
    if ms.len() == 0 {
        Seq::empty()
    } else {
        m_commands(st, ms.drop_last()) + m_command(st, ms.last())
    }
}

/// A comment command for each comment of the line, in order.
pub open spec fn comment_commands(ts: Seq<TokenView>) -> Seq<CommandView>
    decreases ts.len(),
{
    if ts.len() == 0 {
        Seq::empty()
    } else {
        let rest = comment_commands(ts.drop_last());
        match ts.last() {
            TokenView::Comment(s) => rest.push(CommandView::Comment(s)),
            TokenView::Word(_) => rest,
        }
    }
}

/// The line has an `X`, `Y` or `Z` word.
pub open spec fn has_motion(w: Map<char, Seq<Decimal>>) -> bool {
    w.contains_key('X') || w.contains_key('Y') || w.contains_key('Z')
}

/// The parse of one line: its commands, and its words by address.
#[verifier::ext_equal]
pub struct ParsedLineView {
    pub commands: Seq<CommandView>,
    pub words: Map<char, Seq<Decimal>>,
}

/// The message of a G value that is not a whole code.
pub open spec fn non_integer_text(v: Decimal) -> Seq<char> {
    "Nicht ganzzahliger G/M-Code wird noch nicht unterstützt: "@ + v.spec_text()
}

/// The line's commands after the tool selection and the move: the M
/// commands, then the comments; a line without any command gives `NoOp`.
pub open spec fn finish_line(st: ModalState, ts: Seq<TokenView>, before: Seq<CommandView>) -> (
    ModalState,
    Result<ParsedLineView, Seq<char>>,
) {
    let w = words_map(ts);
    let all = before + m_commands(st, values(w, 'M')) + comment_commands(ts);
    (
        st,
        Ok(
            ParsedLineView {
                commands: if all.len() == 0 {
                    seq![CommandView::NoOp]
                } else {
                    all
                },
                words: w,
            },
        ),
    )
}

/// What a lexed line does to the state, and what it gives: the G codes set
/// the modes, then the `F`, `S` and `T` words their settings; a `T` word
/// selects the tool in force, coordinates make a move, then come the M
/// commands and the comments.
pub open spec fn parse_tokens(st: ModalState, ts: Seq<TokenView>) -> (
    ModalState,
    Result<ParsedLineView, Seq<char>>,
) {
    let w = words_map(ts);
    let (s1, failed) = apply_g_values(st, values(w, 'G'));
    match failed {
        Some(v) => (s1, Err(non_integer_text(v))),
        None => {
            let s2 = apply_scalar_words(s1, w);
            let tool: Seq<CommandView> = if w.contains_key('T') && s2.selected_tool is Some {
                seq![CommandView::SelectTool(s2.selected_tool->0)]
            } else {
                Seq::empty()
            };
            if has_motion(w) {
                let (s3, mv) = build_move(s2, w);
                finish_line(s3, ts, tool.push(mv))
            } else {
                finish_line(s2, ts, tool)
            }
        },
    }
}

/// What a line of text does to the state, and what it gives; a line that
/// does not lex leaves the state as it was.
pub open spec fn parse_line_spec(st: ModalState, cs: Seq<char>) -> (
    ModalState,
    Result<ParsedLineView, Seq<char>>,
) {
    match lex_spec(cs) {
        Err(e) => (st, Err(lex_error_text(e))),
        Ok(ts) => parse_tokens(st, ts),
    }
}

/// The lines parsed in order; the first error stops the program and is
/// returned, the state keeping what the lines before it did.
pub open spec fn parse_lines(st: ModalState, ls: Seq<Seq<char>>) -> (
    ModalState,
    Result<Seq<ParsedLineView>, Seq<char>>,
)
    decreases ls.len(),
{
    if ls.len() == 0 {
        (st, Ok(Seq::empty()))
    } else {
        let (s1, r) = parse_line_spec(st, ls[0]);
        match r {
            Err(e) => (s1, Err(e)),
            Ok(line) => {
                let (s2, rest) = parse_lines(s1, ls.drop_first());
                (
                    s2,
                    match rest {
                        Ok(more) => Ok(seq![line] + more),
                        Err(e) => Err(e),
                    },
                )
            },
        }
    }
}

// ---------------------------------------------------------------------------
// Facts about lexed words.
// ---------------------------------------------------------------------------

/// Every value of every address is a number as the lexer makes it.
pub open spec fn words_small(w: Map<char, Seq<Decimal>>) -> bool {
    forall|c: char, k: int|
        0 <= k < values(w, c).len() ==> lexed_number(#[trigger] values(w, c)[k])
}

proof fn lemma_words_of_small(ts: Seq<TokenView>, c: char)
    requires
        words_well_formed(ts),
    ensures
        forall|k: int| 0 <= k < words_of(ts, c).len() ==> lexed_number(#[trigger] words_of(ts, c)[k]),
    decreases ts.len(),
{
    if ts.len() > 0 {
        let d = ts.drop_last();
        assert forall|k: int| 0 <= k < d.len() implies match #[trigger] d[k] {
            TokenView::Word(w) => crate::text::is_ascii_upper(w.address) && lexed_number(w.value),
            TokenView::Comment(_) => true,
        } by {
            assert(d[k] == ts[k]);
        }
        lemma_words_of_small(d, c);
        let last = ts.last();
        assert(ts[ts.len() - 1] == last);
        let rest = words_of(d, c);
        let all = words_of(ts, c);
        assert forall|k: int| 0 <= k < all.len() implies lexed_number(#[trigger] all[k]) by {
            if k < rest.len() {
                assert(all[k] == rest[k]);
            }
        }
    }
}

/// Once a G value fails, the later values change nothing.
proof fn lemma_g_failure_sticks(st: ModalState, gs: Seq<Decimal>, i: int)
    requires
        0 <= i <= gs.len(),
        apply_g_values(st, gs.take(i)).1 is Some,
    ensures
        apply_g_values(st, gs) == apply_g_values(st, gs.take(i)),
    decreases gs.len() - i,
{
    if i < gs.len() {
        assert(gs.take(i + 1).drop_last() =~= gs.take(i));
        lemma_g_failure_sticks(st, gs, i + 1);
    } else {
        assert(gs.take(i) =~= gs);
    }
}

pub proof fn lemma_words_small(ts: Seq<TokenView>)
    requires
        words_well_formed(ts),
    ensures
        words_small(words_map(ts)),
{
    assert forall|c: char, k: int| 0 <= k < values(words_map(ts), c).len() implies lexed_number(
        #[trigger] values(words_map(ts), c)[k],
    ) by {
        lemma_words_of_small(ts, c);
    }
}

pub proof fn lemma_last_small(w: Map<char, Seq<Decimal>>, c: char)
    requires
        words_small(w),
    ensures
        last_value(w, c) matches Some(v) ==> lexed_number(v),
{
    if let Some(v) = last_value(w, c) {
        assert(v == values(w, c)[values(w, c).len() - 1]);
    }
}

/// Every coordinate of a point is [`Decimal::bounded`].
pub open spec fn point_bounded(p: Vec3) -> bool {
    p.x.bounded() && p.y.bounded() && p.z.bounded()
}

proof fn lemma_mm_bounded(units: Units, v: Decimal)
    requires
        lexed_number(v),
    ensures
        spec_to_mm(units, v).bounded(),
{
    assert(-2_540_000_000_000_000_000_000_000_000_000_000_000 < v.mantissa * 254
        < 2_540_000_000_000_000_000_000_000_000_000_000_000) by (nonlinear_arith)
        requires
            -10_000_000_000_000_000_000_000_000_000_000_000 < v.mantissa
                < 10_000_000_000_000_000_000_000_000_000_000_000,
    ;
}

/// The coordinate of an axis stays bounded when the current one is.
proof fn lemma_coordinate_bounded(st: ModalState, w: Map<char, Seq<Decimal>>, address: char, current: Decimal)
    requires
        words_small(w),
        current.bounded(),
    ensures
        coordinate(st, w, address, current).bounded(),
{
    lemma_last_small(w, address);
    if let Some(raw) = last_value(w, address) {
        lemma_mm_bounded(st.units, raw);
        if st.distance == DistanceMode::Incremental {
            crate::decimal::lemma_rounded_add_bounded(current, spec_to_mm(st.units, raw));
        }
    }
}

// ---------------------------------------------------------------------------
// The parser.
// ---------------------------------------------------------------------------

/// The parse of one line: its commands, and its words by address.
#[derive(Clone, Debug)]
pub struct ParsedLine {
    pub commands: Vec<CanonicalCommand>,
    pub words: WordMap,
}

impl View for ParsedLine {
    type V = ParsedLineView;

    open spec fn view(&self) -> ParsedLineView {
        ParsedLineView { commands: command_views(self.commands@), words: self.words@ }
    }
}

/// The view of the result of parsing a line.
pub open spec fn line_result_view(r: Result<ParsedLine, String>) -> Result<ParsedLineView, Seq<char>> {
    match r {
        Ok(l) => Ok(l@),
        Err(e) => Err(e@),
    }
}

/// The views of parsed lines.
pub open spec fn line_views(v: Seq<ParsedLine>) -> Seq<ParsedLineView> {
    v.map_values(|l: ParsedLine| l@)
}

/// The view of the result of parsing a program.
pub open spec fn program_result_view(r: Result<Vec<ParsedLine>, String>) -> Result<
    Seq<ParsedLineView>,
    Seq<char>,
> {
    match r {
        Ok(ls) => Ok(line_views(ls@)),
        Err(e) => Err(e@),
    }
}

/// A G-code parser that keeps the modal state between lines.
#[derive(Debug)]
pub struct Parser {
    state: ModalState,
}

impl Parser {
    /// The position's coordinates stay within the bounds of a sum.
    #[verifier::type_invariant]
    spec fn position_in_range(self) -> bool {
        point_bounded(self.state.position_mm)
    }
}

impl Default for ParsedLine {
    fn default() -> (r: Self)
        ensures
            r@.commands.len() == 0,
            r@.words == Map::<char, Seq<Decimal>>::empty(),
    {
        ParsedLine { commands: Vec::new(), words: WordMap::new() }
    }
}

impl Default for Parser {
    fn default() -> (r: Self)
        ensures
            r@ == spec_default_state(),
    {
        Parser::new()
    }
}

impl View for Parser {
    type V = ModalState;

    closed spec fn view(&self) -> ModalState {
        self.state
    }
}

proof fn lemma_command_views_push(v: Seq<CanonicalCommand>, c: CanonicalCommand)
    ensures
        command_views(v.push(c)) == command_views(v).push(c@),
{
    assert(command_views(v.push(c)) =~= command_views(v).push(c@));
}

/// The code of a G or M value, as [`code_of`] says.
fn rounded_code(value: Decimal) -> (r: Option<i128>)
    requires
        value.wf(),
    ensures
        match r {
            Some(c) => code_of(value) == Some(c as int),
            None => code_of(value) is None,
        },
{
    let (code, near) = value.round();
    if near {
        Some(code)
    } else {
        None
    }
}

fn clamp_to_u32(x: i128) -> (r: u32)
    ensures
        r == clamp_u32(x as int),
{
    if x < 0 {
        0
    } else if x > 4294967295 {
        4294967295
    } else {
        x as u32
    }
}

impl Parser {
    /// A parser at the start of a program.
    pub fn new() -> (r: Parser)
        ensures
            r@ == spec_default_state(),
    {
        Parser { state: ModalState::default() }
    }

    /// The modal state in force.
    pub fn state(&self) -> (r: &ModalState)
        ensures
            *r == self@,
    {
        &self.state
    }

    /// Returns to the state at the start of a program.
    pub fn reset(&mut self)
        ensures
            final(self)@ == spec_default_state(),
    {
        self.state = ModalState::default();
    }

    fn apply_g_code(&mut self, code: i128)
        ensures
            final(self).state == apply_g_code(old(self).state, code as int),
    {
        proof {
            use_type_invariant(&*self);
        }
        if code == 0 {
            self.state.motion = MotionMode::Rapid;
        } else if code == 1 {
            self.state.motion = MotionMode::Linear;
        } else if code == 2 {
            self.state.motion = MotionMode::ArcClockwise;
        } else if code == 3 {
            self.state.motion = MotionMode::ArcCounterClockwise;
        } else if code == 17 {
            self.state.plane = Plane::Xy;
        } else if code == 18 {
            self.state.plane = Plane::Xz;
        } else if code == 19 {
            self.state.plane = Plane::Yz;
        } else if code == 20 {
            self.state.units = Units::Inch;
        } else if code == 21 {
            self.state.units = Units::Millimeter;
        } else if code == 90 {
            self.state.distance = DistanceMode::Absolute;
        } else if code == 91 {
            self.state.distance = DistanceMode::Incremental;
        }
    }

    /// Applies the G words in order; returns the first value that is no code.
    fn apply_g_codes(&mut self, words: &WordMap) -> (r: Option<Decimal>)
        requires
            words_small(words@),
        ensures
            (final(self).state, r) == apply_g_values(old(self).state, values(words@, 'G')),
            r matches Some(v) ==> v.wf(),
    {
        proof {
            use_type_invariant(&*self);
        }
        let ghost st0 = self.state;
        match words.get('G') {
            None => {
                proof {
                    assert(values(words@, 'G') =~= Seq::<Decimal>::empty());
                }
                None
            },
            Some(gs) => {
                let mut i: usize = 0;
                let mut failed: Option<Decimal> = None;
                assert(gs@.take(0) =~= Seq::<Decimal>::empty());
                while i < gs.len() && failed.is_none()
                    invariant
                        i <= gs@.len(),
                        gs@ == values(words@, 'G'),
                        words_small(words@),
                        (self.state, failed) == apply_g_values(st0, gs@.take(i as int)),
                        failed matches Some(v) ==> v.wf(),
                    decreases gs@.len() - i,
                {
                    let g = gs[i];
                    proof {
                        assert(gs@.take(i + 1).drop_last() =~= gs@.take(i as int));
                        assert(gs@.take(i + 1).last() == g);
                        assert(lexed_number(values(words@, 'G')[i as int]));
                    }
                    match rounded_code(g) {
                        None => {
                            failed = Some(g);
                        },
                        Some(code) => {
                            self.apply_g_code(code);
                        },
                    }
                    i = i + 1;
                }
                proof {
                    if failed is Some {
                        lemma_g_failure_sticks(st0, gs@, i as int);
                    } else {
                        assert(gs@.take(gs@.len() as int) =~= gs@);
                    }
                }
                failed
            },
        }
    }

    /// Applies the last `F`, `S` and `T` words.
    fn apply_scalar_words(&mut self, words: &WordMap)
        requires
            words_small(words@),
        ensures
            final(self).state == apply_scalar_words(old(self).state, words@),
    {
        proof {
            use_type_invariant(&*self);
            lemma_last_small(words@, 'F');
            lemma_last_small(words@, 'S');
            lemma_last_small(words@, 'T');
        }
        if let Some(feed) = words.last('F') {
            self.state.feed_mm_min = Some(self.state.units.to_mm(feed));
        }
        if let Some(rpm) = words.last('S') {
            self.state.spindle_rpm = Some(rpm);
        }
        if let Some(tool) = words.last('T') {
            if tool.is_non_negative() {
                let (rounded, _) = tool.round();
                self.state.selected_tool = Some(clamp_to_u32(rounded));
            }
        }
    }

    /// The new coordinate of one axis, as [`coordinate`] says.
    fn coordinate(&self, words: &WordMap, address: char, current: Decimal) -> (r: Decimal)
        requires
            words_small(words@),
            current.bounded(),
        ensures
            r == coordinate(self.state, words@, address, current),
            r.bounded(),
    {
        proof {
            lemma_last_small(words@, address);
            lemma_coordinate_bounded(self.state, words@, address, current);
        }
        match words.last(address) {
            None => current,
            Some(raw) => {
                proof {
                    lemma_mm_bounded(self.state.units, raw);
                }
                let mm = self.state.units.to_mm(raw);
                match self.state.distance {
                    DistanceMode::Absolute => mm,
                    DistanceMode::Incremental => current.rounded_add(&mm),
                }
            },
        }
    }

    /// The last value of an address in millimetres, zero when absent.
    fn offset(&self, words: &WordMap, address: char) -> (r: Decimal)
        requires
            words_small(words@),
        ensures
            r == spec_to_mm(self.state.units, value_or_zero(words@, address)),
    {
        proof {
            lemma_last_small(words@, address);
        }
        let v = match words.last(address) {
            Some(v) => v,
            None => Decimal::zero(),
        };
        self.state.units.to_mm(v)
    }

    /// The move of a line with coordinates; the position becomes its end.
    fn build_move(&mut self, words: &WordMap) -> (r: CanonicalCommand)
        requires
            words_small(words@),
        ensures
            (final(self).state, r@) == build_move(old(self).state, words@),
    {
        proof {
            use_type_invariant(&*self);
        }
        let start = self.state.position_mm;
        let x = self.coordinate(words, 'X', start.x);
        let y = self.coordinate(words, 'Y', start.y);
        let z = self.coordinate(words, 'Z', start.z);
        let end = Vec3::new(x, y, z);
        let arc = if self.state.motion == MotionMode::ArcClockwise || self.state.motion
            == MotionMode::ArcCounterClockwise {
            proof {
                lemma_last_small(words@, 'R');
            }
            match words.last('R') {
                Some(r) => Some(ArcDefinition::Radius(self.state.units.to_mm(r))),
                None => Some(
                    ArcDefinition::CenterOffset {
                        i: self.offset(words, 'I'),
                        j: self.offset(words, 'J'),
                        k: self.offset(words, 'K'),
                    },
                ),
            }
        } else {
            None
        };
        self.state.position_mm = end;
        CanonicalCommand::Move {
            mode: self.state.motion,
            plane: self.state.plane,
            start,
            end,
            arc,
            feed_mm_min: self.state.feed_mm_min,
        }
    }

    /// Appends the commands of the M words.
    fn apply_m_codes(&self, words: &WordMap, out: &mut Vec<CanonicalCommand>)
        requires
            words_small(words@),
        ensures
            command_views(final(out)@) == command_views(old(out)@) + m_commands(
                self.state,
                values(words@, 'M'),
            ),
    {
        let ghost out0 = command_views(out@);
        let ms: Vec<Decimal> = match words.get('M') {
            Some(ms) => ms.clone(),
            None => Vec::new(),
        };
        assert(ms@ =~= values(words@, 'M'));
        let mut i: usize = 0;
        assert(out0 + m_commands(self.state, ms@.take(0)) =~= out0);
        while i < ms.len()
            invariant
                i <= ms@.len(),
                ms@ == values(words@, 'M'),
                words_small(words@),
                command_views(out@) == out0 + m_commands(self.state, ms@.take(i as int)),
            decreases ms@.len() - i,
        {
            let m = ms[i];
            let ghost before = out@;
            proof {
                assert(ms@.take(i + 1).drop_last() =~= ms@.take(i as int));
                assert(lexed_number(values(words@, 'M')[i as int]));
            }
            let rpm = self.state.spindle_rpm;
            match rounded_code(m) {
                Some(code) => {
                    if code == 3 {
                        out.push(CanonicalCommand::Spindle { enabled: true, clockwise: true, rpm });
                    } else if code == 4 {
                        out.push(CanonicalCommand::Spindle { enabled: true, clockwise: false, rpm });
                    } else if code == 5 {
                        out.push(CanonicalCommand::Spindle { enabled: false, clockwise: true, rpm });
                    } else if code == 6 {
                        out.push(CanonicalCommand::ToolChange);
                    } else if code == 2 || code == 30 {
                        out.push(CanonicalCommand::ProgramEnd);
                    }
                },
                None => {},
            }
            proof {
                if out@.len() > before.len() {
                    lemma_command_views_push(before, out@.last());
                    assert(out@ =~= before.push(out@.last()));
                }
                assert(command_views(out@) =~= out0 + m_commands(self.state, ms@.take(i + 1)));
            }
            i = i + 1;
        }
        proof {
            assert(ms@.take(ms@.len() as int) =~= ms@);
        }
    }
}

/// Whether the line has an `X`, `Y` or `Z` word.
fn has_motion_coordinates(words: &WordMap) -> (r: bool)
    ensures
        r == has_motion(words@),
{
    words.contains_key('X') || words.contains_key('Y') || words.contains_key('Z')
}

/// Appends a comment command for each comment token, in order.
fn push_comments(tokens: &Vec<Token>, out: &mut Vec<CanonicalCommand>)
    ensures
        command_views(final(out)@) == command_views(old(out)@) + comment_commands(token_views(tokens@)),
{
    let ghost out0 = command_views(out@);
    let ghost ts = token_views(tokens@);
    let mut i: usize = 0;
    assert(out0 + comment_commands(ts.take(0)) =~= out0);
    while i < tokens.len()
        invariant
            i <= tokens@.len(),
            ts == token_views(tokens@),
            command_views(out@) == out0 + comment_commands(ts.take(i as int)),
        decreases tokens@.len() - i,
    {
        let ghost before = out@;
        proof {
            assert(ts.take(i + 1).drop_last() =~= ts.take(i as int));
            assert(ts.take(i + 1).last() == tokens@[i as int]@);
        }
        match &tokens[i] {
            Token::Comment(text) => {
                let c = CanonicalCommand::Comment(text.clone());
                out.push(c);
                proof {
                    lemma_command_views_push(before, c);
                }
            },
            Token::Word(_) => {},
        }
        proof {
            assert(command_views(out@) =~= out0 + comment_commands(ts.take(i + 1)));
        }
        i = i + 1;
    }
    proof {
        assert(ts.take(tokens@.len() as int) =~= ts);
    }
}

/// The message of a G value that is not a whole code.
fn non_integer_message(v: Decimal) -> (r: String)
    requires
        v.wf(),
    ensures
        r@ == non_integer_text(v),
{
    let mut r = "Nicht ganzzahliger G/M-Code wird noch nicht unterstützt: ".to_owned();
    let text = v.to_text();
    r.append(text.as_str());
    r
}

impl Parser {
    /// Parses the characters of one line, as [`parse_line_spec`] says.
    fn parse_chars(&mut self, cs: &Vec<char>) -> (r: Result<ParsedLine, String>)
        ensures
            (final(self)@, line_result_view(r)) == parse_line_spec(old(self)@, cs@),
    {
        proof {
            use_type_invariant(&*self);
        }
        let tokens = match lex_chars(cs) {
            Ok(t) => t,
            Err(e) => {
                return Err(e.message());
            },
        };
        let ghost ts = token_views(tokens@);
        let ghost st0 = self.state;
        proof {
            lemma_lex_words_well_formed(cs@, 0);
            lemma_words_small(ts);
        }
        let words = WordMap::from_tokens(&tokens);
        if let Some(v) = self.apply_g_codes(&words) {
            return Err(non_integer_message(v));
        }
        let ghost s1 = self.state;
        self.apply_scalar_words(&words);
        let ghost s2 = self.state;
        let mut commands: Vec<CanonicalCommand> = Vec::new();
        if words.contains_key('T') {
            if let Some(tool) = self.state.selected_tool {
                commands.push(CanonicalCommand::SelectTool(tool));
            }
        }
        let ghost tool_cmds = command_views(commands@);
        proof {
            let w = words@;
            let expected: Seq<CommandView> = if w.contains_key('T') && s2.selected_tool is Some {
                seq![CommandView::SelectTool(s2.selected_tool->0)]
            } else {
                Seq::empty()
            };
            assert(tool_cmds =~= expected);
        }
        if has_motion_coordinates(&words) {
            let ghost before = commands@;
            let c = self.build_move(&words);
            commands.push(c);
            proof {
                lemma_command_views_push(before, c);
            }
        }
        let ghost s3 = self.state;
        let ghost before_m = command_views(commands@);
        self.apply_m_codes(&words, &mut commands);
        push_comments(&tokens, &mut commands);
        let ghost all = command_views(commands@);
        if commands.len() == 0 {
            commands.push(CanonicalCommand::NoOp);
        }
        proof {
            assert(all =~= before_m + m_commands(s3, values(words@, 'M')) + comment_commands(ts));
            if all.len() == 0 {
                assert(command_views(commands@) =~= seq![CommandView::NoOp]);
            }
        }
        let line = ParsedLine { commands, words };
        proof {
            let (fs, fr) = parse_line_spec(st0, cs@);
            assert(fs == self.state);
            assert(fr == line_result_view(Ok::<ParsedLine, String>(line)));
        }
        Ok(line)
    }

    /// Parses one line of G-code, as [`parse_line_spec`] says: the state is
    /// updated as the line says, also when a later part of the line fails.
    pub fn parse_line(&mut self, source: &str) -> (r: Result<ParsedLine, String>)
        ensures
            (final(self)@, line_result_view(r)) == parse_line_spec(old(self)@, source@),
    {
        let cs = chars_of(source);
        self.parse_chars(&cs)
    }

    /// Parses a program line by line, as [`parse_lines`] says: the first
    /// line that fails stops it.
    pub fn parse_program(&mut self, source: &str) -> (r: Result<Vec<ParsedLine>, String>)
        ensures
            (final(self)@, program_result_view(r)) == parse_lines(old(self)@, lines(source@)),
    {
        let cs = chars_of(source);
        let ls = split_lines(&cs);
        let ghost all = lines(source@);
        let ghost st0 = self.state;
        let mut out: Vec<ParsedLine> = Vec::new();
        let mut failure: Option<String> = None;
        let mut i: usize = 0;
        proof {
            assert(all.skip(0) =~= all);
            lemma_prepend_lines(Seq::empty(), parse_lines(st0, all));
        }
        while i < ls.len() && failure.is_none()
            invariant
                i <= ls@.len(),
                char_vec_views(ls@) == all,
                failure is None ==> parse_lines(st0, all) == prepend_lines(
                    line_views(out@),
                    parse_lines(self.state, all.skip(i as int)),
                ),
                failure matches Some(e) ==> parse_lines(st0, all) == (
                    self.state,
                    Err::<Seq<ParsedLineView>, Seq<char>>(e@),
                ),
            decreases ls@.len() - i,
        {
            let ghost before = out@;
            let ghost st = self.state;
            proof {
                assert(ls@[i as int]@ == all[i as int]);
                assert(all.skip(i as int).drop_first() =~= all.skip(i + 1));
                assert(all.skip(i as int)[0] == all[i as int]);
            }
            match self.parse_chars(&ls[i]) {
                Ok(line) => {
                    out.push(line);
                    proof {
                        assert(line_views(out@) =~= line_views(before).push(line@));
                        lemma_prepend_step(
                            line_views(before),
                            line@,
                            parse_lines(self.state, all.skip(i + 1)),
                        );
                    }
                },
                Err(e) => {
                    failure = Some(e);
                },
            }
            i = i + 1;
        }
        match failure {
            Some(e) => Err(e),
            None => {
                proof {
                    assert(all.skip(i as int) =~= Seq::<Seq<char>>::empty());
                    assert(line_views(out@) + Seq::<ParsedLineView>::empty() =~= line_views(out@));
                }
                Ok(out)
            },
        }
    }
}

/// The lines `done` followed by what `r` parses, or `r`'s error.
pub open spec fn prepend_lines(
    done: Seq<ParsedLineView>,
    r: (ModalState, Result<Seq<ParsedLineView>, Seq<char>>),
) -> (ModalState, Result<Seq<ParsedLineView>, Seq<char>>) {
    (
        r.0,
        match r.1 {
            Ok(more) => Ok(done + more),
            Err(e) => Err(e),
        },
    )
}

proof fn lemma_prepend_lines(done: Seq<ParsedLineView>, r: (ModalState, Result<Seq<ParsedLineView>, Seq<char>>))
    requires
        done.len() == 0,
    ensures
        prepend_lines(done, r) == r,
{
    if let Ok(more) = r.1 {
        assert(done + more =~= more);
    }
}

proof fn lemma_prepend_step(
    done: Seq<ParsedLineView>,
    line: ParsedLineView,
    r: (ModalState, Result<Seq<ParsedLineView>, Seq<char>>),
)
    ensures
        prepend_lines(
            done,
            (
                r.0,
                match r.1 {
                    Ok(more) => Ok(seq![line] + more),
                    Err(e) => Err(e),
                },
            ),
        ) == prepend_lines(done.push(line), r),
{
    if let Ok(more) = r.1 {
        assert(done + (seq![line] + more) =~= done.push(line) + more);
    }
}

} // verus!
