//! Laws of the parser that span lines, calls and modes.

use vstd::prelude::*;

use crate::decimal::{spec_rounded_add, Decimal};
use crate::domain::{spec_to_mm, ArcDefinition, CommandView, DistanceMode, MotionMode, Plane, Units, Vec3};
use crate::lexer::{lex_spec, TokenView};
use crate::modal::ModalState;
use crate::parser::{
    apply_g_values, apply_scalar_words, build_move, code_of, comment_commands, coordinate, m_command,
    m_commands, parse_line_spec, parse_lines, parse_tokens, prepend_lines, ParsedLineView,
};
use crate::text::{lemma_next_newline_bounds, lines, lines_from, next_newline};
use crate::motion::{plan_spec, step_of};
use crate::words::{last_value, values, words_map};

verus! {

/// A line without G words keeps the motion, plane, units and distance mode
/// in force.
pub proof fn law_modes_persist_without_g_words(st: ModalState, ts: Seq<TokenView>)
    requires
        !words_map(ts).contains_key('G'),
    ensures
        ({
            let s1 = parse_tokens(st, ts).0;
            &&& s1.motion == st.motion
            &&& s1.plane == st.plane
            &&& s1.units == st.units
            &&& s1.distance == st.distance
        }),
{
    assert(values(words_map(ts), 'G') =~= Seq::<Decimal>::empty());
}

/// G codes change only the modes.
pub proof fn lemma_g_values_keep_settings(st: ModalState, gs: Seq<Decimal>)
    ensures
        ({
            let s1 = apply_g_values(st, gs).0;
            &&& s1.position_mm == st.position_mm
            &&& s1.feed_mm_min == st.feed_mm_min
            &&& s1.spindle_rpm == st.spindle_rpm
            &&& s1.selected_tool == st.selected_tool
        }),
    decreases gs.len(),
{
    if gs.len() > 0 {
        lemma_g_values_keep_settings(st, gs.drop_last());
    }
}

proof fn lemma_m_commands_no_move(st: ModalState, ms: Seq<Decimal>)
    ensures
        forall|k: int| 0 <= k < m_commands(st, ms).len() ==> !(#[trigger] m_commands(st, ms)[k] is Move),
    decreases ms.len(),
{
    if ms.len() > 0 {
        lemma_m_commands_no_move(st, ms.drop_last());
        let a = m_commands(st, ms.drop_last());
        let b = m_command(st, ms.last());
        assert forall|k: int| 0 <= k < (a + b).len() implies !(#[trigger] (a + b)[k] is Move) by {
            if k >= a.len() {
                assert((a + b)[k] == b[k - a.len()]);
            } else {
                assert((a + b)[k] == a[k]);
            }
        }
    }
}

proof fn lemma_comments_no_move(ts: Seq<TokenView>)
    ensures
        forall|k: int| 0 <= k < comment_commands(ts).len() ==> !(#[trigger] comment_commands(ts)[k] is Move),
    decreases ts.len(),
{
    if ts.len() > 0 {
        lemma_comments_no_move(ts.drop_last());
    }
}

/// Every move of a line starts at the position before the line and ends at
/// the position after it: the moves of a program form one connected path.
pub proof fn law_moves_chain(st: ModalState, ts: Seq<TokenView>)
    requires
        parse_tokens(st, ts).1 is Ok,
    ensures
        ({
            let (s1, r) = parse_tokens(st, ts);
            let cmds = r->Ok_0.commands;
            forall|k: int|
                0 <= k < cmds.len() && (#[trigger] cmds[k]) is Move ==> cmds[k]->start
                    == st.position_mm && cmds[k]->end == s1.position_mm
        }),
{
    let w = words_map(ts);
    let (g_state, failed) = apply_g_values(st, values(w, 'G'));
    lemma_g_values_keep_settings(st, values(w, 'G'));
    let s2 = apply_scalar_words(g_state, w);
    assert(s2.position_mm == st.position_mm);
    let tool: Seq<CommandView> = if w.contains_key('T') && s2.selected_tool is Some {
        seq![CommandView::SelectTool(s2.selected_tool->0)]
    } else {
        Seq::empty()
    };
    let (s1, r) = parse_tokens(st, ts);
    let cmds = r->Ok_0.commands;
    let s3 = if crate::parser::has_motion(w) {
        build_move(s2, w).0
    } else {
        s2
    };
    let before: Seq<CommandView> = if crate::parser::has_motion(w) {
        tool.push(build_move(s2, w).1)
    } else {
        tool
    };
    let mc = m_commands(s3, values(w, 'M'));
    let cc = comment_commands(ts);
    lemma_m_commands_no_move(s3, values(w, 'M'));
    lemma_comments_no_move(ts);
    let all = before + mc + cc;
    assert(s1 == s3);
    assert forall|k: int|
        0 <= k < cmds.len() && (#[trigger] cmds[k]) is Move implies cmds[k]->start
            == st.position_mm && cmds[k]->end == s1.position_mm by {
        if all.len() > 0 {
            assert(cmds == all);
            if k >= before.len() + mc.len() {
                assert(all[k] == cc[k - before.len() - mc.len()]);
            } else if k >= before.len() {
                assert(all[k] == mc[k - before.len()]);
            } else {
                assert(all[k] == before[k]);
            }
        }
    }
}

/// Every line that parses gives at least one command.
pub proof fn law_line_gives_a_command(st: ModalState, ts: Seq<TokenView>)
    requires
        parse_tokens(st, ts).1 is Ok,
    ensures
        parse_tokens(st, ts).1->Ok_0.commands.len() >= 1,
{
}

/// The coordinate of a point on the axis of an address letter.
pub open spec fn axis(p: Vec3, address: char) -> Decimal {
    if address == 'X' {
        p.x
    } else if address == 'Y' {
        p.y
    } else {
        p.z
    }
}

/// An axis letter.
pub open spec fn is_axis(address: char) -> bool {
    address == 'X' || address == 'Y' || address == 'Z'
}

/// The position after a line, on each axis: unchanged when the line has no
/// word for the axis; else the last value in millimetres, or, in
/// incremental mode, the position before plus that value, as
/// [`spec_rounded_add`] adds them.
pub proof fn law_axis_target(st: ModalState, ts: Seq<TokenView>, address: char)
    requires
        parse_tokens(st, ts).1 is Ok,
        is_axis(address),
    ensures
        ({
            let s1 = parse_tokens(st, ts).0;
            let before = axis(st.position_mm, address);
            let after = axis(s1.position_mm, address);
            match last_value(words_map(ts), address) {
                None => after == before,
                Some(v) => match s1.distance {
                    DistanceMode::Absolute => after == spec_to_mm(s1.units, v),
                    DistanceMode::Incremental => after == spec_rounded_add(
                        before,
                        spec_to_mm(s1.units, v),
                    ),
                },
            }
        }),
{
    let w = words_map(ts);
    lemma_g_values_keep_settings(st, values(w, 'G'));
    if !crate::parser::has_motion(w) {
        assert(!w.contains_key(address));
    }
}

/// The motion a G code selects, if any.
pub open spec fn motion_setting(code: int) -> Option<MotionMode> {
    if code == 0 {
        Some(MotionMode::Rapid)
    } else if code == 1 {
        Some(MotionMode::Linear)
    } else if code == 2 {
        Some(MotionMode::ArcClockwise)
    } else if code == 3 {
        Some(MotionMode::ArcCounterClockwise)
    } else {
        None
    }
}

/// The plane a G code selects, if any.
pub open spec fn plane_setting(code: int) -> Option<Plane> {
    if code == 17 {
        Some(Plane::Xy)
    } else if code == 18 {
        Some(Plane::Xz)
    } else if code == 19 {
        Some(Plane::Yz)
    } else {
        None
    }
}

/// The units a G code selects, if any.
pub open spec fn units_setting(code: int) -> Option<Units> {
    if code == 20 {
        Some(Units::Inch)
    } else if code == 21 {
        Some(Units::Millimeter)
    } else {
        None
    }
}

/// The distance mode a G code selects, if any.
pub open spec fn distance_setting(code: int) -> Option<DistanceMode> {
    if code == 90 {
        Some(DistanceMode::Absolute)
    } else if code == 91 {
        Some(DistanceMode::Incremental)
    } else {
        None
    }
}

/// The setting of the last G value that selects one, or `d`.
pub open spec fn last_setting<T>(gs: Seq<Decimal>, pick: spec_fn(int) -> Option<T>, d: T) -> T
    decreases gs.len(),
{
    if gs.len() == 0 {
        d
    } else {
        match code_of(gs.last()) {
            Some(c) => match pick(c) {
                Some(v) => v,
                None => last_setting(gs.drop_last(), pick, d),
            },
            None => last_setting(gs.drop_last(), pick, d),
        }
    }
}

proof fn lemma_last_setting_idempotent<T>(gs: Seq<Decimal>, pick: spec_fn(int) -> Option<T>, d: T)
    ensures
        last_setting(gs, pick, last_setting(gs, pick, d)) == last_setting(gs, pick, d),
    decreases gs.len(),
{
    if gs.len() > 0 {
        lemma_last_setting_idempotent(gs.drop_last(), pick, d);
        let l = last_setting(gs, pick, d);
        match code_of(gs.last()) {
            Some(c) => match pick(c) {
                Some(v) => {},
                None => {
                    assert(last_setting(gs, pick, l) == last_setting(gs.drop_last(), pick, l));
                },
            },
            None => {},
        }
    }
}

/// Whether G values fail does not depend on the state.
proof fn lemma_g_failure_independent(x: ModalState, y: ModalState, gs: Seq<Decimal>)
    ensures
        apply_g_values(x, gs).1 == apply_g_values(y, gs).1,
    decreases gs.len(),
{
    if gs.len() > 0 {
        lemma_g_failure_independent(x, y, gs.drop_last());
    }
}

/// The G values set each mode to the last value that selects one.
proof fn lemma_g_values_shape(st: ModalState, gs: Seq<Decimal>)
    requires
        apply_g_values(st, gs).1 is None,
    ensures
        apply_g_values(st, gs).0 == (ModalState {
            motion: last_setting(gs, |c: int| motion_setting(c), st.motion),
            plane: last_setting(gs, |c: int| plane_setting(c), st.plane),
            units: last_setting(gs, |c: int| units_setting(c), st.units),
            distance: last_setting(gs, |c: int| distance_setting(c), st.distance),
            ..st
        }),
    decreases gs.len(),
{
    if gs.len() > 0 {
        let (s1, failed) = apply_g_values(st, gs.drop_last());
        assert(failed is None);
        lemma_g_values_shape(st, gs.drop_last());
    }
}

/// Parsing a line again, when the first parse ends in absolute mode, leaves
/// the state as the first parse left it: absolute lines are repeatable.
pub proof fn law_absolute_line_is_idempotent(st: ModalState, ts: Seq<TokenView>)
    requires
        parse_tokens(st, ts).1 is Ok,
        parse_tokens(st, ts).0.distance == DistanceMode::Absolute,
    ensures
        parse_tokens(parse_tokens(st, ts).0, ts).0 == parse_tokens(st, ts).0,
{
    let w = words_map(ts);
    let gs = values(w, 'G');
    let s1 = parse_tokens(st, ts).0;
    let g1 = apply_g_values(st, gs).0;
    lemma_g_values_shape(st, gs);
    lemma_g_values_keep_settings(st, gs);
    lemma_g_failure_independent(st, s1, gs);
    lemma_g_values_shape(s1, gs);
    lemma_last_setting_idempotent(gs, |c: int| motion_setting(c), st.motion);
    lemma_last_setting_idempotent(gs, |c: int| plane_setting(c), st.plane);
    lemma_last_setting_idempotent(gs, |c: int| units_setting(c), st.units);
    lemma_last_setting_idempotent(gs, |c: int| distance_setting(c), st.distance);
    let s2 = apply_scalar_words(g1, w);
    assert(apply_g_values(s1, gs).0 == s1);
    assert(apply_scalar_words(s1, w) == s1);
}

proof fn lemma_next_newline_shift(p: Seq<char>, s: Seq<char>, k: int)
    requires
        0 <= k <= s.len(),
    ensures
        next_newline(p + s, p.len() + k) == p.len() + next_newline(s, k),
    decreases s.len() - k,
{
    if k < s.len() {
        assert((p + s)[p.len() + k] == s[k]);
        if s[k] != '\n' {
            lemma_next_newline_shift(p, s, k + 1);
        }
    }
}

proof fn lemma_lines_shift(p: Seq<char>, s: Seq<char>, j: int)
    requires
        0 <= j <= s.len(),
    ensures
        lines_from(p + s, p.len() + j) == lines_from(s, j),
    decreases s.len() - j,
{
    let ps = p + s;
    if j < s.len() {
        lemma_next_newline_shift(p, s, j);
        lemma_next_newline_bounds(s, j);
        let k = next_newline(s, j);
        if k < s.len() {
            lemma_lines_shift(p, s, k + 1);
            assert(ps.subrange(p.len() + j, p.len() + k) =~= s.subrange(j, k));
            if k > j {
                assert(ps.subrange(p.len() + j, p.len() + k - 1) =~= s.subrange(j, k - 1));
                assert(ps[p.len() + k - 1] == s[k - 1]);
            }
        } else {
            assert(ps.subrange(p.len() + j, ps.len() as int) =~= s.subrange(j, s.len() as int));
        }
    }
}

proof fn lemma_lines_concat(p: Seq<char>, s: Seq<char>, i: int)
    requires
        p.len() > 0,
        p.last() == '\n',
        0 <= i <= p.len(),
    ensures
        lines_from(p + s, i) == lines_from(p, i) + lines_from(s, 0),
    decreases p.len() - i,
{
    let ps = p + s;
    if i == p.len() {
        lemma_lines_shift(p, s, 0);
        assert(lines_from(p, i) + lines_from(s, 0) =~= lines_from(s, 0));
    } else {
        lemma_next_newline_bounds(p, i);
        lemma_next_newline_agrees(p, s, i);
        let k = next_newline(p, i);
        assert(k < p.len());
        lemma_lines_concat(p, s, k + 1);
        assert(ps.subrange(i, k) =~= p.subrange(i, k));
        if k > i {
            assert(ps.subrange(i, k - 1) =~= p.subrange(i, k - 1));
            assert(ps[k - 1] == p[k - 1]);
        }
        let line = if k > i && p[k - 1] == '\r' {
            p.subrange(i, k - 1)
        } else {
            p.subrange(i, k)
        };
        assert(seq![line] + (lines_from(p, k + 1) + lines_from(s, 0)) =~= (seq![line] + lines_from(p, k + 1)) + lines_from(s, 0));
    }
}

proof fn lemma_next_newline_agrees(p: Seq<char>, s: Seq<char>, i: int)
    requires
        p.len() > 0,
        p.last() == '\n',
        0 <= i < p.len(),
    ensures
        next_newline(p + s, i) == next_newline(p, i),
        next_newline(p, i) < p.len(),
    decreases p.len() - i,
{
    assert((p + s)[i] == p[i]);
    if p[i] != '\n' {
        lemma_next_newline_agrees(p, s, i + 1);
    }
}

/// The text `p` followed by `s` has the lines of `p`, then those of `s`,
/// when `p` is empty or ends with a line feed.
pub proof fn law_lines_of_concatenation(p: Seq<char>, s: Seq<char>)
    requires
        p.len() == 0 || p.last() == '\n',
    ensures
        lines(p + s) == lines(p) + lines(s),
{
    if p.len() == 0 {
        assert(p + s =~= s);
        assert(lines(p) + lines(s) =~= lines(s));
    } else {
        lemma_lines_concat(p, s, 0);
    }
}

/// Parsing `r1`'s state further with the lines `l2`, after the lines that
/// gave `r1`.
pub open spec fn then_lines(
    r1: (ModalState, Result<Seq<ParsedLineView>, Seq<char>>),
    l2: Seq<Seq<char>>,
) -> (ModalState, Result<Seq<ParsedLineView>, Seq<char>>) {
    match r1.1 {
        Err(e) => (r1.0, Err(e)),
        Ok(done) => prepend_lines(done, parse_lines(r1.0, l2)),
    }
}

proof fn lemma_parse_lines_append(st: ModalState, l1: Seq<Seq<char>>, l2: Seq<Seq<char>>)
    ensures
        parse_lines(st, l1 + l2) == then_lines(parse_lines(st, l1), l2),
    decreases l1.len(),
{
    if l1.len() == 0 {
        assert(l1 + l2 =~= l2);
        let r = parse_lines(st, l2);
        if let Ok(more) = r.1 {
            assert(Seq::<ParsedLineView>::empty() + more =~= more);
        }
    } else {
        assert((l1 + l2)[0] == l1[0]);
        assert((l1 + l2).drop_first() =~= l1.drop_first() + l2);
        let (s1, r) = parse_line_spec(st, l1[0]);
        if let Ok(line) = r {
            lemma_parse_lines_append(s1, l1.drop_first(), l2);
            let inner = parse_lines(s1, l1.drop_first());
            if let Ok(a) = inner.1 {
                let rest = parse_lines(inner.0, l2);
                if let Ok(b) = rest.1 {
                    assert(seq![line] + (a + b) =~= (seq![line] + a) + b);
                }
            }
        }
    }
}

/// Parsing a program whose first part ends with a line feed gives what
/// parsing the first part and then, with the state it left, the second part
/// gives: the lines of both, or the first error.
pub proof fn law_program_in_parts(st: ModalState, p: Seq<char>, s: Seq<char>)
    requires
        p.len() == 0 || p.last() == '\n',
    ensures
        parse_lines(st, lines(p + s)) == then_lines(parse_lines(st, lines(p)), lines(s)),
{
    law_lines_of_concatenation(p, s);
    lemma_parse_lines_append(st, lines(p), lines(s));
}

/// Every command has a step or none; no arc move lacks its definition.
pub open spec fn steps_defined(cs: Seq<CommandView>) -> bool {
    forall|k: int| 0 <= k < cs.len() ==> (#[trigger] step_of(cs[k])) is Ok
}

proof fn lemma_plan_never_stops(cs: Seq<CommandView>)
    requires
        steps_defined(cs),
    ensures
        !plan_spec(cs).1,
    decreases cs.len(),
{
    if cs.len() > 0 {
        let d = cs.drop_last();
        assert forall|k: int| 0 <= k < d.len() implies (#[trigger] step_of(d[k])) is Ok by {
            assert(d[k] == cs[k]);
        }
        lemma_plan_never_stops(d);
        assert(step_of(cs[cs.len() - 1]) is Ok);
    }
}

proof fn lemma_line_steps_defined(st: ModalState, ts: Seq<TokenView>)
    requires
        parse_tokens(st, ts).1 is Ok,
    ensures
        steps_defined(parse_tokens(st, ts).1->Ok_0.commands),
{
    let w = words_map(ts);
    let (g_state, failed) = apply_g_values(st, values(w, 'G'));
    let s2 = apply_scalar_words(g_state, w);
    let tool: Seq<CommandView> = if w.contains_key('T') && s2.selected_tool is Some {
        seq![CommandView::SelectTool(s2.selected_tool->0)]
    } else {
        Seq::empty()
    };
    let cmds = parse_tokens(st, ts).1->Ok_0.commands;
    let s3 = if crate::parser::has_motion(w) {
        build_move(s2, w).0
    } else {
        s2
    };
    let before: Seq<CommandView> = if crate::parser::has_motion(w) {
        tool.push(build_move(s2, w).1)
    } else {
        tool
    };
    let mc = m_commands(s3, values(w, 'M'));
    let cc = comment_commands(ts);
    lemma_m_commands_no_move(s3, values(w, 'M'));
    lemma_comments_no_move(ts);
    let all = before + mc + cc;
    assert forall|k: int| 0 <= k < cmds.len() implies (#[trigger] step_of(cmds[k])) is Ok by {
        if all.len() > 0 {
            assert(cmds == all);
            if k >= before.len() + mc.len() {
                assert(all[k] == cc[k - before.len() - mc.len()]);
            } else if k >= before.len() {
                assert(all[k] == mc[k - before.len()]);
            } else {
                assert(all[k] == before[k]);
            }
        }
    }
}

/// The commands of parsed lines, in order.
pub open spec fn all_commands(lines: Seq<ParsedLineView>) -> Seq<CommandView>
    decreases lines.len(),
{
    if lines.len() == 0 {
        Seq::empty()
    } else {
        lines[0].commands + all_commands(lines.drop_first())
    }
}

proof fn lemma_program_steps_defined(st: ModalState, ls: Seq<Seq<char>>)
    requires
        parse_lines(st, ls).1 is Ok,
    ensures
        steps_defined(all_commands(parse_lines(st, ls).1->Ok_0)),
    decreases ls.len(),
{
    if ls.len() > 0 {
        let (s1, r) = parse_line_spec(st, ls[0]);
        let line = r->Ok_0;
        if let Ok(ts) = crate::lexer::lex_spec(ls[0]) {
            lemma_line_steps_defined(st, ts);
        }
        lemma_program_steps_defined(s1, ls.drop_first());
        let more = parse_lines(s1, ls.drop_first()).1->Ok_0;
        let lines = parse_lines(st, ls).1->Ok_0;
        assert(lines =~= seq![line] + more);
        assert(lines.drop_first() =~= more);
        let all = all_commands(lines);
        let a = line.commands;
        let b = all_commands(more);
        assert(all == a + b);
        assert forall|k: int| 0 <= k < all.len() implies (#[trigger] step_of(all[k])) is Ok by {
            if k < a.len() {
                assert(all[k] == a[k]);
            } else {
                assert(all[k] == b[k - a.len()]);
            }
        }
    }
}

/// Every arc move the parser makes carries its definition, so planning the
/// moves of a parsed program never stops at an arc without one.
pub proof fn law_parsed_program_plans_fully(st: ModalState, ls: Seq<Seq<char>>)
    requires
        parse_lines(st, ls).1 is Ok,
    ensures
        !plan_spec(all_commands(parse_lines(st, ls).1->Ok_0)).1,
{
    lemma_program_steps_defined(st, ls);
    lemma_plan_never_stops(all_commands(parse_lines(st, ls).1->Ok_0));
}

/// A line that does not lex changes nothing of the state.
pub proof fn law_lex_error_keeps_state(st: ModalState, cs: Seq<char>)
    requires
        crate::lexer::lex_spec(cs) is Err,
    ensures
        parse_line_spec(st, cs).0 == st,
        parse_line_spec(st, cs).1 is Err,
{
}

/// The state before line `i` of a program: what the lines before it leave.
pub open spec fn state_before(st: ModalState, ls: Seq<Seq<char>>, i: int) -> ModalState {
    parse_lines(st, ls.take(i)).0
}

proof fn lemma_state_before_next(st: ModalState, ls: Seq<Seq<char>>, i: int)
    requires
        0 <= i < ls.len(),
        parse_line_spec(st, ls[0]).1 is Ok,
    ensures
        state_before(st, ls, i + 1) == state_before(parse_line_spec(st, ls[0]).0, ls.drop_first(), i),
{
    let t = ls.take(i + 1);
    assert(t[0] == ls[0]);
    assert(t.drop_first() =~= ls.drop_first().take(i));
}

/// Parsing a program is parsing its lines one after the other, each with
/// the state the lines before it left: the program parses when every line
/// does, giving their results in order and the state after the last line;
/// otherwise it gives the error of the first line that fails, with the
/// state that line left, the lines before it having parsed.
pub proof fn law_program_line_by_line(st: ModalState, ls: Seq<Seq<char>>)
    ensures
        ({
            let (s_end, r) = parse_lines(st, ls);
            match r {
                Ok(v) => {
                    &&& v.len() == ls.len()
                    &&& s_end == state_before(st, ls, ls.len() as int)
                    &&& forall|i: int|
                        0 <= i < ls.len() ==> #[trigger] parse_line_spec(state_before(st, ls, i), ls[i])
                            == (state_before(st, ls, i + 1), Ok::<ParsedLineView, Seq<char>>(v[i]))
                },
                Err(e) => exists|k: int|
                    {
                        &&& 0 <= k < ls.len()
                        &&& forall|i: int|
                            0 <= i < k ==> (#[trigger] parse_line_spec(state_before(st, ls, i), ls[i])).1 is Ok
                        &&& parse_line_spec(state_before(st, ls, k), ls[k]) == (
                            s_end,
                            Err::<ParsedLineView, Seq<char>>(e),
                        )
                    },
            }
        }),
    decreases ls.len(),
{
    assert(ls.take(0) =~= Seq::<Seq<char>>::empty());
    assert(state_before(st, ls, 0) == st);
    if ls.len() == 0 {
        return;
    }
    let (s1, r) = parse_line_spec(st, ls[0]);
    let rest = ls.drop_first();
    match r {
        Err(e) => {
            assert(parse_line_spec(state_before(st, ls, 0), ls[0]) == (
                parse_lines(st, ls).0,
                Err::<ParsedLineView, Seq<char>>(e),
            ));
        },
        Ok(line) => {
            law_program_line_by_line(s1, rest);
            assert forall|i: int| 0 <= i < ls.len() implies state_before(st, ls, i + 1)
                == state_before(s1, rest, i) by {
                lemma_state_before_next(st, ls, i);
            }
            let (s_end, rr) = parse_lines(s1, rest);
            match rr {
                Ok(more) => {
                    let v = seq![line] + more;
                    assert(parse_lines(st, ls).1 == Ok::<Seq<ParsedLineView>, Seq<char>>(v));
                    assert(ls.take(ls.len() as int) =~= ls);
                    assert(rest.take(rest.len() as int) =~= rest);
                    assert forall|i: int| 0 <= i < ls.len() implies #[trigger] parse_line_spec(
                        state_before(st, ls, i),
                        ls[i],
                    ) == (state_before(st, ls, i + 1), Ok::<ParsedLineView, Seq<char>>(v[i])) by {
                        if i == 0 {
                            assert(state_before(s1, rest, 0) == s1) by {
                                assert(rest.take(0) =~= Seq::<Seq<char>>::empty());
                            }
                        } else {
                            assert(state_before(st, ls, i) == state_before(s1, rest, i - 1)) by {
                                lemma_state_before_next(st, ls, i - 1);
                            }
                            assert(ls[i] == rest[i - 1]);
                            assert(v[i] == more[i - 1]);
                            assert(parse_line_spec(state_before(s1, rest, i - 1), rest[i - 1]) == (
                                state_before(s1, rest, i),
                                Ok::<ParsedLineView, Seq<char>>(more[i - 1]),
                            ));
                        }
                    }
                },
                Err(e) => {
                    let k0 = choose|k: int|
                        {
                            &&& 0 <= k < rest.len()
                            &&& forall|i: int|
                                0 <= i < k ==> (#[trigger] parse_line_spec(
                                    state_before(s1, rest, i),
                                    rest[i],
                                )).1 is Ok
                            &&& parse_line_spec(state_before(s1, rest, k), rest[k]) == (
                                s_end,
                                Err::<ParsedLineView, Seq<char>>(e),
                            )
                        };
                    let k = k0 + 1;
                    lemma_state_before_next(st, ls, k0);
                    assert(ls[k] == rest[k0]);
                    assert forall|i: int| 0 <= i < k implies (#[trigger] parse_line_spec(
                        state_before(st, ls, i),
                        ls[i],
                    )).1 is Ok by {
                        if i > 0 {
                            lemma_state_before_next(st, ls, i - 1);
                            assert(ls[i] == rest[i - 1]);
                            assert((parse_line_spec(state_before(s1, rest, i - 1), rest[i - 1])).1 is Ok);
                        }
                    }
                },
            }
        },
    }
}

/// A line fails only when it does not lex or when one of its G values is
/// not a whole code; every other line parses.
pub proof fn law_line_fails_only_on_lex_or_g(st: ModalState, cs: Seq<char>)
    ensures
        parse_line_spec(st, cs).1 is Err <==> (lex_spec(cs) is Err || apply_g_values(
            st,
            values(words_map(lex_spec(cs)->Ok_0), 'G'),
        ).1 is Some),
{
}

/// Ten times the factor from the units to millimetres: 254 for inches,
/// 10 for millimetres.
pub open spec fn mm_factor(units: Units) -> int {
    if units == Units::Inch {
        254
    } else {
        10
    }
}

/// `v` is `raw` times `factor / 10`, compared by value.
pub open spec fn scaled_by(v: Decimal, raw: Decimal, factor: int) -> bool {
    v.mantissa * crate::decimal::pow10(raw.scale as nat) * 10 == raw.mantissa * factor
        * crate::decimal::pow10(v.scale as nat)
}

/// The arc definition of a move made from the words `w` with the units and
/// motion in force: none for straight motions; for arcs the last `R` value
/// as radius when there is one, else the last `I`, `J`, `K` values as
/// centre offsets (zero when absent), each converted to millimetres.
pub open spec fn arc_in_mm(
    arc: Option<ArcDefinition>,
    motion: MotionMode,
    units: Units,
    w: Map<char, Seq<Decimal>>,
) -> bool {
    let factor = mm_factor(units);
    if motion == MotionMode::ArcClockwise || motion == MotionMode::ArcCounterClockwise {
        match last_value(w, 'R') {
            Some(raw) => arc matches Some(ArcDefinition::Radius(rad)) && scaled_by(rad, raw, factor),
            None => arc matches Some(ArcDefinition::CenterOffset { i, j, k }) && offset_in_mm(
                i,
                last_value(w, 'I'),
                factor,
            ) && offset_in_mm(j, last_value(w, 'J'), factor) && offset_in_mm(
                k,
                last_value(w, 'K'),
                factor,
            ),
        }
    } else {
        arc is None
    }
}

/// An offset is its word's value converted, or zero without a word.
pub open spec fn offset_in_mm(v: Decimal, raw: Option<Decimal>, factor: int) -> bool {
    match raw {
        Some(r) => scaled_by(v, r, factor),
        None => v.mantissa == 0,
    }
}

proof fn lemma_to_mm_scaled(units: Units, raw: Decimal)
    requires
        crate::lexer::lexed_number(raw),
    ensures
        scaled_by(spec_to_mm(units, raw), raw, mm_factor(units)),
{
    let v = spec_to_mm(units, raw);
    let factor = mm_factor(units);
    let p = crate::decimal::pow10(raw.scale as nat);
    if units == Units::Inch {
        assert(crate::decimal::pow10((raw.scale + 1) as nat) == 10 * p);
        assert(v.mantissa == raw.mantissa * 254);
        assert(v.scale == raw.scale + 1);
        assert(v.mantissa * p * 10 == raw.mantissa * factor * (10 * p)) by (nonlinear_arith)
            requires
                v.mantissa == raw.mantissa * 254,
                factor == 254,
        ;
    } else {
        assert(v == raw);
        assert(v.mantissa * p * 10 == raw.mantissa * factor * p) by (nonlinear_arith)
            requires
                v.mantissa == raw.mantissa,
                factor == 10,
        ;
    }
}

/// The arc definition of every move of a line is in millimetres: for an
/// arc move the last `R` value as radius, else the last `I`, `J`, `K`
/// values as centre offsets, each 25.4 times its value under `G20` and the
/// value itself under `G21`, as the end point's coordinates are; a
/// straight move has none.
pub proof fn law_arc_definition_in_mm(st: ModalState, cs: Seq<char>)
    requires
        parse_line_spec(st, cs).1 is Ok,
    ensures
        ({
            let (s1, r) = parse_line_spec(st, cs);
            let cmds = r->Ok_0.commands;
            let w = words_map(lex_spec(cs)->Ok_0);
            forall|k: int|
                0 <= k < cmds.len() && (#[trigger] cmds[k]) is Move ==> arc_in_mm(
                    cmds[k]->arc,
                    s1.motion,
                    s1.units,
                    w,
                )
        }),
{
    let ts = lex_spec(cs)->Ok_0;
    crate::lexer::lemma_lex_words_well_formed(cs, 0);
    crate::parser::lemma_words_small(ts);
    let w = words_map(ts);
    crate::parser::lemma_last_small(w, 'R');
    crate::parser::lemma_last_small(w, 'I');
    crate::parser::lemma_last_small(w, 'J');
    crate::parser::lemma_last_small(w, 'K');
    let (g_state, failed) = apply_g_values(st, values(w, 'G'));
    let s2 = apply_scalar_words(g_state, w);
    let tool: Seq<CommandView> = if w.contains_key('T') && s2.selected_tool is Some {
        seq![CommandView::SelectTool(s2.selected_tool->0)]
    } else {
        Seq::empty()
    };
    let (s1, r) = parse_line_spec(st, cs);
    let cmds = r->Ok_0.commands;
    let s3 = if crate::parser::has_motion(w) {
        build_move(s2, w).0
    } else {
        s2
    };
    let before: Seq<CommandView> = if crate::parser::has_motion(w) {
        tool.push(build_move(s2, w).1)
    } else {
        tool
    };
    let mc = m_commands(s3, values(w, 'M'));
    let cc = comment_commands(ts);
    lemma_m_commands_no_move(s3, values(w, 'M'));
    lemma_comments_no_move(ts);
    let all = before + mc + cc;
    assert(s1 == s3);
    assert forall|k: int| 0 <= k < cmds.len() && (#[trigger] cmds[k]) is Move implies arc_in_mm(
        cmds[k]->arc,
        s1.motion,
        s1.units,
        w,
    ) by {
        assert(all.len() > 0);
        assert(cmds == all);
        if k >= before.len() + mc.len() {
            assert(all[k] == cc[k - before.len() - mc.len()]);
        } else if k >= before.len() {
            assert(all[k] == mc[k - before.len()]);
        } else {
            assert(all[k] == before[k]);
            assert(crate::parser::has_motion(w));
            assert(k == tool.len());
            assert(cmds[k]->arc == crate::parser::arc_of(s2, w));
            if let Some(raw) = last_value(w, 'R') {
                lemma_to_mm_scaled(s2.units, raw);
            }
            if let Some(raw) = last_value(w, 'I') {
                lemma_to_mm_scaled(s2.units, raw);
            }
            if let Some(raw) = last_value(w, 'J') {
                lemma_to_mm_scaled(s2.units, raw);
            }
            if let Some(raw) = last_value(w, 'K') {
                lemma_to_mm_scaled(s2.units, raw);
            }
        }
    }
}

/// Under absolute distances, an axis word sets the position on its axis to
/// its value in millimetres (25.4 times it under `G20`), and an `F` word
/// sets the feed to its value in millimetres per minute.
pub proof fn law_words_in_mm(st: ModalState, cs: Seq<char>, address: char)
    requires
        parse_line_spec(st, cs).1 is Ok,
        is_axis(address),
    ensures
        ({
            let s1 = parse_line_spec(st, cs).0;
            let w = words_map(lex_spec(cs)->Ok_0);
            let factor = mm_factor(s1.units);
            &&& (s1.distance == DistanceMode::Absolute && last_value(w, address) is Some)
                ==> scaled_by(axis(s1.position_mm, address), last_value(w, address)->0, factor)
            &&& last_value(w, 'F') is Some ==> (s1.feed_mm_min is Some && scaled_by(
                s1.feed_mm_min->0,
                last_value(w, 'F')->0,
                factor,
            ))
        }),
{
    let ts = lex_spec(cs)->Ok_0;
    crate::lexer::lemma_lex_words_well_formed(cs, 0);
    crate::parser::lemma_words_small(ts);
    let w = words_map(ts);
    crate::parser::lemma_last_small(w, address);
    crate::parser::lemma_last_small(w, 'F');
    law_axis_target(st, ts, address);
    let s1 = parse_line_spec(st, cs).0;
    if let Some(v) = last_value(w, address) {
        lemma_to_mm_scaled(s1.units, v);
    }
    if let Some(v) = last_value(w, 'F') {
        lemma_to_mm_scaled(s1.units, v);
    }
}

} // verus!
