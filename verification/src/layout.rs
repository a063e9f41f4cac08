//! Integer layout for sequence diagrams: assigns coordinates to participant
//! boxes and message arrows, then draws them onto a `TextCanvas`.
//!
//! The geometry is the least solution of a chain of constraints: participant
//! boxes stand left to right with at least one column between them, every
//! message spans from the center of its left participant to the center of its
//! right one, and a message that needs more room than the natural spacing
//! gives pushes its right participant (and everything beyond) rightward.
//! Widths are rounded up to even numbers so every box center is a whole
//! column.

use crate::canvas::{blank_grid, blit, join_rows, rows_fit_h, Draw, Rect, TextCanvas};
use vstd::prelude::*;
use vstd::string::{StrSliceExecFns, StringExecFns};

verus! {

/// Most characters a participant label or message payload may hold.
pub const MAX_TEXT: usize = 10000;

/// Most participants a layout may hold.
pub const MAX_PARTICIPANTS: usize = 30000;

/// Most messages a layout may hold.
pub const MAX_MESSAGES: usize = 10000;

/// The style of a message's arrow shaft.
#[derive(Debug, Clone, Copy, PartialEq, Eq, Structural)]
pub enum EdgeStyle {
    Continuous,
    Dashed,
}

/// A named column of the diagram, drawn as a box at the top and bottom joined
/// by a vertical lifeline.
pub struct Participant {
    pub id: String,
    pub name: String,
}

/// A horizontal arrow between the lifelines of two participants, named by
/// their positions in the layout's participant list; a self-loop when the two
/// positions are equal.
pub struct Message {
    pub source: usize,
    pub target: usize,
    pub payload: String,
    pub edge_style: EdgeStyle,
}

/// The mathematical shadow of a `Participant`.
pub ghost struct PartV {
    pub id: Seq<char>,
    pub name: Seq<char>,
}

/// The mathematical shadow of a `Message`.
pub ghost struct MsgV {
    pub source: int,
    pub target: int,
    pub payload: Seq<char>,
    pub dashed: bool,
}

impl View for Participant {
    type V = PartV;

    open spec fn view(&self) -> PartV {
        PartV { id: self.id@, name: self.name@ }
    }
}

impl View for Message {
    type V = MsgV;

    open spec fn view(&self) -> MsgV {
        MsgV {
            source: self.source as int,
            target: self.target as int,
            payload: self.payload@,
            dashed: self.edge_style is Dashed,
        }
    }
}

/// `n` rounded up to an even number.
pub open spec fn even_up(n: int) -> int {
    if n % 2 == 0 {
        n
    } else {
        n + 1
    }
}

/// A participant box's width: the label, one space of padding at the left,
/// one or two at the right, and the two borders.
pub open spec fn pwidth(p: PartV) -> int {
    even_up(p.name.len() as int) + 4
}

/// A message whose source and target coincide, drawn as a loop glyph.
pub open spec fn is_self_msg(m: MsgV) -> bool {
    m.source == m.target
}

/// Rows a message occupies.
pub open spec fn mheight(m: MsgV) -> int {
    if is_self_msg(m) {
        4
    } else {
        3
    }
}

/// The narrowest span a message accepts: room for the payload plus the loop
/// glyph and spacing, or plus the arrow heads and spacing.
pub open spec fn mnat(m: MsgV) -> int {
    even_up(m.payload.len() as int) + if is_self_msg(m) {
        6int
    } else {
        4int
    }
}

/// The leftmost of a message's two participant positions.
pub open spec fn lo_idx(m: MsgV) -> int {
    if m.source <= m.target {
        m.source
    } else {
        m.target
    }
}

/// The rightmost of a message's two participant positions.
pub open spec fn hi_idx(m: MsgV) -> int {
    if m.source <= m.target {
        m.target
    } else {
        m.source
    }
}

/// The least center column participant `k` may have so that each of the first
/// `i` messages ending at `k` has its natural span; `0` when none does.
pub open spec fn need_center(parts: Seq<PartV>, msgs: Seq<MsgV>, k: int, i: int) -> int
    decreases k, i, 0int,
{
    if i <= 0 {
        0
    } else {
        let m = msgs[i - 1];
        let prev = need_center(parts, msgs, k, i - 1);
        if !is_self_msg(m) && hi_idx(m) == k && 0 <= lo_idx(m) < k {
            let cand = part_center(parts, msgs, lo_idx(m)) + 1 + mnat(m);
            if cand > prev {
                cand
            } else {
                prev
            }
        } else {
            prev
        }
    }
}

/// The left edge of participant `k`'s box: the least column at least one past
/// the previous box that also honours every message ending at `k`.
pub open spec fn part_left(parts: Seq<PartV>, msgs: Seq<MsgV>, k: int) -> int
    decreases k, msgs.len() as int + 1, 0int,
{
    if k < 0 {
        0
    } else {
        let base = if k == 0 {
            0int
        } else {
            part_left(parts, msgs, k - 1) + pwidth(parts[k - 1]) + 1
        };
        let need = need_center(parts, msgs, k, msgs.len() as int) - pwidth(parts[k]) / 2;
        if need > base {
            need
        } else {
            base
        }
    }
}

/// The center column of participant `k`: its lifeline's column.
pub open spec fn part_center(parts: Seq<PartV>, msgs: Seq<MsgV>, k: int) -> int
    decreases k, msgs.len() as int + 2, 0int,
{
    if k < 0 {
        0
    } else {
        part_left(parts, msgs, k) + pwidth(parts[k]) / 2
    }
}

/// The top row of message `i`: messages stack directly under the participant
/// boxes, in order, with no gap.
pub open spec fn msg_top(msgs: Seq<MsgV>, i: int) -> int
    decreases i,
{
    if i <= 0 {
        3
    } else {
        msg_top(msgs, i - 1) + mheight(msgs[i - 1])
    }
}

/// The left edge of message `i`: one past its left participant's lifeline.
pub open spec fn msg_left(parts: Seq<PartV>, msgs: Seq<MsgV>, i: int) -> int {
    part_center(parts, msgs, lo_idx(msgs[i])) + 1
}

/// The span of message `i`: up to its right participant's lifeline, or its
/// natural span for a self-loop.
pub open spec fn msg_width(parts: Seq<PartV>, msgs: Seq<MsgV>, i: int) -> int {
    let m = msgs[i];
    if is_self_msg(m) {
        mnat(m)
    } else {
        part_center(parts, msgs, hi_idx(m)) - msg_left(parts, msgs, i)
    }
}

/// The largest right edge among the first `k` participant boxes.
pub open spec fn parts_max_right(parts: Seq<PartV>, msgs: Seq<MsgV>, k: int) -> int
    decreases k,
{
    if k <= 0 {
        0
    } else {
        let r = part_left(parts, msgs, k - 1) + pwidth(parts[k - 1]);
        let prev = parts_max_right(parts, msgs, k - 1);
        if r > prev {
            r
        } else {
            prev
        }
    }
}

/// The largest right edge among the first `i` messages.
pub open spec fn msgs_max_right(parts: Seq<PartV>, msgs: Seq<MsgV>, i: int) -> int
    decreases i,
{
    if i <= 0 {
        0
    } else {
        let r = msg_left(parts, msgs, i - 1) + msg_width(parts, msgs, i - 1);
        let prev = msgs_max_right(parts, msgs, i - 1);
        if r > prev {
            r
        } else {
            prev
        }
    }
}

/// The canvas width: one past the rightmost element, `0` for an empty layout.
pub open spec fn canvas_width(parts: Seq<PartV>, msgs: Seq<MsgV>) -> int {
    if parts.len() == 0 && msgs.len() == 0 {
        0
    } else {
        let pm = parts_max_right(parts, msgs, parts.len() as int);
        let mm = msgs_max_right(parts, msgs, msgs.len() as int);
        (if pm > mm {
            pm
        } else {
            mm
        }) + 1
    }
}

/// The canvas height: three rows under the lowest element for the footer
/// boxes, `0` for an empty layout.
pub open spec fn canvas_height(parts: Seq<PartV>, msgs: Seq<MsgV>) -> int {
    if parts.len() == 0 && msgs.len() == 0 {
        0
    } else {
        let pb = if parts.len() > 0 {
            3int
        } else {
            0int
        };
        let mb = if msgs.len() > 0 {
            msg_top(msgs, msgs.len() as int)
        } else {
            0int
        };
        (if pb > mb {
            pb
        } else {
            mb
        }) + 3
    }
}

/// Every label, payload, participant count and message count is within the
/// layout's capacity, and every message names existing participants.
pub open spec fn bounded_inputs(parts: Seq<PartV>, msgs: Seq<MsgV>) -> bool {
    &&& parts.len() <= MAX_PARTICIPANTS
    &&& msgs.len() <= MAX_MESSAGES
    &&& forall|k: int| 0 <= k < parts.len() ==> (#[trigger] parts[k].name).len() <= MAX_TEXT
    &&& forall|i: int| 0 <= i < msgs.len() ==> (#[trigger] msgs[i].payload).len() <= MAX_TEXT
    &&& forall|i: int|
        0 <= i < msgs.len() ==> 0 <= (#[trigger] msgs[i]).source < parts.len() && 0 <= msgs[i].target
            < parts.len()
}

/// Box widths are at least 4 and at most `MAX_TEXT + 4`.
pub proof fn lemma_pwidth(p: PartV)
    ensures
        pwidth(p) >= 4,
        p.name.len() <= MAX_TEXT ==> pwidth(p) <= MAX_TEXT + 4,
{
}

/// Natural message spans are at least 4 and at most `MAX_TEXT + 6`.
pub proof fn lemma_mnat(m: MsgV)
    ensures
        mnat(m) >= 4,
        is_self_msg(m) ==> mnat(m) >= 6,
        m.payload.len() <= MAX_TEXT ==> mnat(m) <= MAX_TEXT + 6,
{
}

/// Lefts are non-negative and centers sit at least two columns in.
pub proof fn lemma_left_nonneg(parts: Seq<PartV>, msgs: Seq<MsgV>, k: int)
    requires
        0 <= k,
    ensures
        part_left(parts, msgs, k) >= 0,
        part_center(parts, msgs, k) >= 2,
    decreases k,
{
    lemma_pwidth(parts[k]);
    if k > 0 {
        lemma_left_nonneg(parts, msgs, k - 1);
        lemma_pwidth(parts[k - 1]);
    }
}

/// Each center is strictly right of the previous one.
pub proof fn lemma_center_step(parts: Seq<PartV>, msgs: Seq<MsgV>, k: int)
    requires
        1 <= k,
    ensures
        part_center(parts, msgs, k - 1) + 1 <= part_center(parts, msgs, k),
    decreases k,
{
    lemma_pwidth(parts[k]);
    lemma_pwidth(parts[k - 1]);
    lemma_left_nonneg(parts, msgs, k - 1);
}

/// Centers do not decrease left to right.
pub proof fn lemma_center_mono(parts: Seq<PartV>, msgs: Seq<MsgV>, j: int, k: int)
    requires
        0 <= j <= k,
    ensures
        part_left(parts, msgs, k) >= 0,
        part_center(parts, msgs, j) <= part_center(parts, msgs, k),
        part_center(parts, msgs, j) >= 2,
    decreases k - j,
{
    lemma_left_nonneg(parts, msgs, j);
    lemma_left_nonneg(parts, msgs, k);
    if j < k {
        lemma_center_mono(parts, msgs, j, k - 1);
        lemma_center_step(parts, msgs, k);
    }
}

/// The pressure from messages on participant `k` grows with the number of
/// messages considered.
pub proof fn lemma_need_mono(parts: Seq<PartV>, msgs: Seq<MsgV>, k: int, i1: int, i2: int)
    requires
        0 <= i1 <= i2,
    ensures
        need_center(parts, msgs, k, i1) <= need_center(parts, msgs, k, i2),
        need_center(parts, msgs, k, i1) >= 0,
    decreases i2,
{
    if i2 > 0 {
        if i1 == i2 {
            lemma_need_mono(parts, msgs, k, i1 - 1, i2 - 1);
        } else {
            lemma_need_mono(parts, msgs, k, i1, i2 - 1);
        }
    }
}

/// The pressure on participant `k` never asks for more than a bounded step
/// past the previous participant's center.
pub proof fn lemma_need_bound(parts: Seq<PartV>, msgs: Seq<MsgV>, k: int, i: int)
    requires
        0 <= i <= msgs.len(),
        1 <= k,
        forall|t: int| 0 <= t < msgs.len() ==> (#[trigger] msgs[t].payload).len() <= MAX_TEXT,
    ensures
        need_center(parts, msgs, k, i) <= part_center(parts, msgs, k - 1) + 1 + MAX_TEXT + 6,
    decreases i,
{
    lemma_center_mono(parts, msgs, k - 1, k - 1);
    if i > 0 {
        lemma_need_bound(parts, msgs, k, i - 1);
        let m = msgs[i - 1];
        if !is_self_msg(m) && hi_idx(m) == k && 0 <= lo_idx(m) < k {
            lemma_center_mono(parts, msgs, lo_idx(m), k - 1);
            lemma_mnat(m);
        }
    }
}

/// Every center stays under a fixed cap: the layout's coordinates fit
/// comfortably in 32 bits.
pub proof fn lemma_center_cap(parts: Seq<PartV>, msgs: Seq<MsgV>, k: int)
    requires
        bounded_inputs(parts, msgs),
        0 <= k < parts.len(),
    ensures
        part_center(parts, msgs, k) <= 5002 + k * 10008,
        part_center(parts, msgs, k) < 310000000,
        part_left(parts, msgs, k) >= 0,
    decreases k,
{
    lemma_pwidth(parts[k]);
    lemma_center_mono(parts, msgs, k, k);
    if k == 0 {
        lemma_need_mono(parts, msgs, 0, 0, msgs.len() as int);
        assert(need_center(parts, msgs, 0, msgs.len() as int) == 0) by {
            lemma_need_zero(parts, msgs, msgs.len() as int);
        }
    } else {
        lemma_center_cap(parts, msgs, k - 1);
        lemma_pwidth(parts[k - 1]);
        lemma_need_bound(parts, msgs, k, msgs.len() as int);
        assert(5002 + (k - 1) * 10008 + 10008 == 5002 + k * 10008) by (nonlinear_arith);
        assert(k * 10008 <= 29999 * 10008) by (nonlinear_arith)
            requires
                0 <= k <= 29999,
        ;
    }
}

/// No message presses on the leftmost participant.
pub proof fn lemma_need_zero(parts: Seq<PartV>, msgs: Seq<MsgV>, i: int)
    ensures
        need_center(parts, msgs, 0, i) == 0,
    decreases i,
{
    if i > 0 {
        lemma_need_zero(parts, msgs, i - 1);
    }
}

/// A participant's center honours all the pressure on it.
pub proof fn lemma_center_ge_need(parts: Seq<PartV>, msgs: Seq<MsgV>, k: int)
    requires
        0 <= k,
    ensures
        part_center(parts, msgs, k) >= need_center(parts, msgs, k, msgs.len() as int),
{
}

/// A directional message gets at least its natural span.
pub proof fn lemma_msg_width(parts: Seq<PartV>, msgs: Seq<MsgV>, i: int)
    requires
        0 <= i < msgs.len(),
        !is_self_msg(msgs[i]),
        0 <= lo_idx(msgs[i]),
        hi_idx(msgs[i]) < parts.len(),
    ensures
        msg_width(parts, msgs, i) >= mnat(msgs[i]),
{
    let m = msgs[i];
    assert(need_center(parts, msgs, hi_idx(m), i + 1) >= part_center(parts, msgs, lo_idx(m)) + 1
        + mnat(m)) by {
        lemma_need_mono(parts, msgs, hi_idx(m), i, i);
    }
    lemma_need_mono(parts, msgs, hi_idx(m), i + 1, msgs.len() as int);
    lemma_center_ge_need(parts, msgs, hi_idx(m));
}

/// Message tops start under the header boxes and grow by each message's
/// height; all stay within a fixed cap.
pub proof fn lemma_msg_top(msgs: Seq<MsgV>, i: int)
    requires
        0 <= i <= msgs.len(),
        msgs.len() <= MAX_MESSAGES,
    ensures
        3 <= msg_top(msgs, i),
        msg_top(msgs, i) <= 3 + 4 * i,
        msg_top(msgs, i) <= 3 + 4 * MAX_MESSAGES,
    decreases i,
{
    if i > 0 {
        lemma_msg_top(msgs, i - 1);
    }
}

/// The running maximum of box right edges tops each box's right edge.
pub proof fn lemma_parts_max_ge(parts: Seq<PartV>, msgs: Seq<MsgV>, k: int, n: int)
    requires
        0 <= k < n,
    ensures
        parts_max_right(parts, msgs, n) >= part_left(parts, msgs, k) + pwidth(parts[k]),
        parts_max_right(parts, msgs, n) >= parts_max_right(parts, msgs, k),
    decreases n,
{
    if k < n - 1 {
        lemma_parts_max_ge(parts, msgs, k, n - 1);
    }
}

/// The running maximum of message right edges tops each message's right edge.
pub proof fn lemma_msgs_max_ge(parts: Seq<PartV>, msgs: Seq<MsgV>, i: int, n: int)
    requires
        0 <= i < n,
    ensures
        msgs_max_right(parts, msgs, n) >= msg_left(parts, msgs, i) + msg_width(parts, msgs, i),
    decreases n,
{
    if i < n - 1 {
        lemma_msgs_max_ge(parts, msgs, i, n - 1);
    }
}

/// Message tops do not decrease.
pub proof fn lemma_msg_top_mono(msgs: Seq<MsgV>, i: int, j: int)
    requires
        0 <= i <= j,
    ensures
        msg_top(msgs, i) <= msg_top(msgs, j),
    decreases j - i,
{
    if i < j {
        lemma_msg_top_mono(msgs, i, j - 1);
    }
}

/// The character `c`, `n` times.
pub open spec fn repeat_char(c: char, n: int) -> Seq<char> {
    Seq::new(
        if n <= 0 {
            0
        } else {
            n as nat
        },
        |i: int| c,
    )
}

/// The three rows of a participant box of width `w`: borders, then the label
/// after one space of padding.
pub open spec fn box_rows(name: Seq<char>, w: int) -> Seq<Seq<char>> {
    seq![
        seq!['\u{250c}'] + repeat_char('\u{2500}', w - 2) + seq!['\u{2510}'],
        seq!['\u{2502}', ' '] + name + repeat_char(' ', w - 3 - name.len()) + seq!['\u{2502}'],
        seq!['\u{2514}'] + repeat_char('\u{2500}', w - 2) + seq!['\u{2518}'],
    ]
}

/// The shaft row of a directional message of span `w`: a filler line with an
/// arrow head at the target's end.
pub open spec fn arrow_row(w: int, dashed: bool, rtl: bool) -> Seq<char> {
    let fill = if dashed {
        '-'
    } else {
        '\u{2500}'
    };
    if rtl {
        seq!['\u{25c0}'] + repeat_char(fill, w - 1)
    } else {
        repeat_char(fill, w - 1) + seq!['\u{25b6}']
    }
}

/// The three-row self-loop glyph.
pub open spec fn loop_rows() -> Seq<Seq<char>> {
    seq![
        seq!['\u{2500}', '\u{2510}'],
        seq![' ', '\u{2502}'],
        seq!['\u{25c0}', '\u{2518}'],
    ]
}

/// `grid` with a lifeline cell written in each of the first `r` rows of
/// column `col`.
pub open spec fn vline(grid: Seq<Seq<char>>, col: int, r: int) -> Seq<Seq<char>>
    decreases r,
{
    if r <= 0 {
        grid
    } else {
        blit(vline(grid, col, r - 1), col, r - 1, seq![seq!['\u{2502}']])
    }
}

/// `grid` after drawing the first `k` participants: for each, its full-height
/// lifeline, then its header box at the top and its footer box in the bottom
/// three rows.
pub open spec fn draw_parts(
    parts: Seq<PartV>,
    msgs: Seq<MsgV>,
    grid: Seq<Seq<char>>,
    k: int,
    hh: int,
) -> Seq<Seq<char>>
    decreases k,
{
    if k <= 0 {
        grid
    } else {
        let g1 = draw_parts(parts, msgs, grid, k - 1, hh);
        let p = parts[k - 1];
        let left = part_left(parts, msgs, k - 1);
        let center = part_center(parts, msgs, k - 1);
        let rows = box_rows(p.name, pwidth(p));
        let g2 = vline(g1, center, hh);
        let g3 = blit(g2, left, 0, rows);
        blit(g3, left, hh - 3, rows)
    }
}

/// `grid` after drawing the first `i` messages, each into its own region: a
/// self-loop as the loop glyph with the payload beside it, a directional
/// message as its payload centered over its shaft.
pub open spec fn draw_msgs(
    parts: Seq<PartV>,
    msgs: Seq<MsgV>,
    grid: Seq<Seq<char>>,
    i: int,
) -> Seq<Seq<char>>
    decreases i,
{
    if i <= 0 {
        grid
    } else {
        let g1 = draw_msgs(parts, msgs, grid, i - 1);
        let m = msgs[i - 1];
        let left = msg_left(parts, msgs, i - 1);
        let top = msg_top(msgs, i - 1);
        let w = msg_width(parts, msgs, i - 1);
        if is_self_msg(m) {
            let g2 = blit(g1, left, top, loop_rows());
            blit(g2, left + 3, top + 1, seq![m.payload])
        } else {
            let pad = (w - m.payload.len()) / 2;
            let g2 = blit(g1, left + pad, top, seq![m.payload]);
            blit(g2, left, top + 1, seq![arrow_row(w, m.dashed, m.source > m.target)])
        }
    }
}

/// The finished frame: lifelines and boxes, then messages in input order,
/// rows joined by newlines.
pub open spec fn spec_render(parts: Seq<PartV>, msgs: Seq<MsgV>) -> Seq<char> {
    let ww = canvas_width(parts, msgs);
    let hh = canvas_height(parts, msgs);
    let g0 = blank_grid(ww, hh);
    let g1 = draw_parts(parts, msgs, g0, parts.len() as int, hh);
    let g2 = draw_msgs(parts, msgs, g1, msgs.len() as int);
    join_rows(g2)
}

/// Append `n` copies of `c` to `s`.
fn push_repeat(s: &mut String, c: char, n: usize)
    ensures
        final(s)@ == old(s)@ + repeat_char(c, n as int),
{
    for i in 0..n
        invariant
            s@ == old(s)@ + repeat_char(c, i as int),
    {
        s.push(c);
        proof {
            assert(s@ =~= old(s)@ + repeat_char(c, i + 1));
        }
    }
    proof {
        assert(s@ =~= old(s)@ + repeat_char(c, n as int));
    }
}

/// The top border of a box of width `w`.
fn box_row_top(w: usize) -> (r: String)
    requires
        2 <= w,
    ensures
        r@ == box_rows(Seq::<char>::empty(), w as int)[0],
{
    let mut s = String::new();
    s.push('\u{250c}');
    push_repeat(&mut s, '\u{2500}', w - 2);
    s.push('\u{2510}');
    proof {
        assert(s@ =~= seq!['\u{250c}'] + repeat_char('\u{2500}', w - 2) + seq!['\u{2510}']);
    }
    s
}

/// The label row of a box of width `w`.
fn box_row_mid(name: &str, w: usize) -> (r: String)
    requires
        name@.len() + 3 <= w,
    ensures
        r@ == box_rows(name@, w as int)[1],
{
    let mut s = String::new();
    s.push('\u{2502}');
    s.push(' ');
    s.append(name);
    let len = name.unicode_len();
    push_repeat(&mut s, ' ', w - 3 - len);
    s.push('\u{2502}');
    proof {
        assert(s@ =~= seq!['\u{2502}', ' '] + name@ + repeat_char(' ', w - 3 - name@.len())
            + seq!['\u{2502}']);
    }
    s
}

/// The bottom border of a box of width `w`.
fn box_row_bot(w: usize) -> (r: String)
    requires
        2 <= w,
    ensures
        r@ == box_rows(Seq::<char>::empty(), w as int)[2],
{
    let mut s = String::new();
    s.push('\u{2514}');
    push_repeat(&mut s, '\u{2500}', w - 2);
    s.push('\u{2518}');
    proof {
        assert(s@ =~= seq!['\u{2514}'] + repeat_char('\u{2500}', w - 2) + seq!['\u{2518}']);
    }
    s
}

/// The shaft row of a directional message.
fn arrow_string(w: usize, dashed: bool, rtl: bool) -> (r: String)
    requires
        1 <= w,
    ensures
        r@ == arrow_row(w as int, dashed, rtl),
{
    let fill = if dashed {
        '-'
    } else {
        '\u{2500}'
    };
    let mut s = String::new();
    if rtl {
        s.push('\u{25c0}');
        push_repeat(&mut s, fill, w - 1);
        proof {
            assert(s@ =~= seq!['\u{25c0}'] + repeat_char(fill, w - 1));
        }
    } else {
        push_repeat(&mut s, fill, w - 1);
        s.push('\u{25b6}');
        proof {
            assert(s@ =~= repeat_char(fill, w - 1) + seq!['\u{25b6}']);
        }
    }
    s
}

/// The mathematical values of a participant list.
pub open spec fn part_views(v: Seq<Participant>) -> Seq<PartV> {
    Seq::new(v.len(), |i: int| v[i]@)
}

/// The mathematical values of a message list.
pub open spec fn msg_views(v: Seq<Message>) -> Seq<MsgV> {
    Seq::new(v.len(), |i: int| v[i]@)
}

/// `lefts`, `centers` and `widths` hold each participant's computed geometry.
pub open spec fn cols_ok(
    parts: Seq<PartV>,
    msgs: Seq<MsgV>,
    lefts: Seq<usize>,
    centers: Seq<usize>,
    widths: Seq<usize>,
) -> bool {
    &&& lefts.len() == parts.len()
    &&& centers.len() == parts.len()
    &&& widths.len() == parts.len()
    &&& forall|k: int| 0 <= k < parts.len() ==> #[trigger] lefts[k] == part_left(parts, msgs, k)
    &&& forall|k: int| 0 <= k < parts.len() ==> #[trigger] centers[k] == part_center(parts, msgs, k)
    &&& forall|k: int| 0 <= k < parts.len() ==> #[trigger] widths[k] == pwidth(parts[k])
}

/// The four geometry vectors hold each message's computed region.
pub open spec fn mgeom_ok(
    parts: Seq<PartV>,
    msgs: Seq<MsgV>,
    mlefts: Seq<usize>,
    mtops: Seq<usize>,
    mwidths: Seq<usize>,
    mheights: Seq<usize>,
) -> bool {
    &&& mlefts.len() == msgs.len()
    &&& mtops.len() == msgs.len()
    &&& mwidths.len() == msgs.len()
    &&& mheights.len() == msgs.len()
    &&& forall|i: int| 0 <= i < msgs.len() ==> #[trigger] mlefts[i] == msg_left(parts, msgs, i)
    &&& forall|i: int| 0 <= i < msgs.len() ==> #[trigger] mtops[i] == msg_top(msgs, i)
    &&& forall|i: int| 0 <= i < msgs.len() ==> #[trigger] mwidths[i] == msg_width(parts, msgs, i)
    &&& forall|i: int| 0 <= i < msgs.len() ==> #[trigger] mheights[i] == mheight(msgs[i])
}

/// Compute each participant's left edge, center column and box width: the
/// least solution of the spacing constraints and the message pressure.
fn columns(participants: &Vec<Participant>, messages: &Vec<Message>) -> (r: (
    Vec<usize>,
    Vec<usize>,
    Vec<usize>,
))
    requires
        bounded_inputs(part_views(participants@), msg_views(messages@)),
    ensures
        cols_ok(part_views(participants@), msg_views(messages@), r.0@, r.1@, r.2@),
{
    let ghost parts = part_views(participants@);
    let ghost msgs = msg_views(messages@);
    let n = participants.len();
    let m = messages.len();
    let mut lefts: Vec<usize> = Vec::new();
    let mut centers: Vec<usize> = Vec::new();
    let mut widths: Vec<usize> = Vec::new();
    for k in 0..n
        invariant
            n == parts.len(),
            m == msgs.len(),
            parts == part_views(participants@),
            msgs == msg_views(messages@),
            bounded_inputs(parts, msgs),
            forall|j: int| 0 <= j < k ==> #[trigger] lefts@[j] == part_left(parts, msgs, j),
            forall|j: int| 0 <= j < k ==> #[trigger] centers@[j] == part_center(parts, msgs, j),
            forall|j: int| 0 <= j < k ==> #[trigger] widths@[j] == pwidth(parts[j]),
            lefts@.len() == k,
            centers@.len() == k,
            widths@.len() == k,
    {
        proof {
            lemma_center_cap(parts, msgs, k as int);
            if k > 0 {
                lemma_center_cap(parts, msgs, k as int - 1);
            }
        }
        let nm_len = participants[k].name.as_str().unicode_len();
        let pw = nm_len + nm_len % 2 + 4;
        proof {
            assert(parts[k as int] == participants@[k as int]@);
            assert(pw == pwidth(parts[k as int]));
        }
        let base: usize = if k == 0 {
            0
        } else {
            lefts[k - 1] + widths[k - 1] + 1
        };
        let mut need: usize = 0;
        for i in 0..m
            invariant
                n == parts.len(),
                m == msgs.len(),
                parts == part_views(participants@),
                msgs == msg_views(messages@),
                bounded_inputs(parts, msgs),
                0 <= k < n,
                forall|j: int| 0 <= j < k ==> #[trigger] centers@[j] == part_center(parts, msgs, j),
                centers@.len() == k,
                need == need_center(parts, msgs, k as int, i as int),
                need <= 320000000,
        {
            proof {
                if k >= 1 {
                    lemma_need_bound(parts, msgs, k as int, i as int + 1);
                    lemma_center_cap(parts, msgs, k as int - 1);
                } else {
                    lemma_need_zero(parts, msgs, i as int + 1);
                }
            }
            let msg = &messages[i];
            proof {
                assert(msgs[i as int] == messages@[i as int]@);
            }
            if msg.source != msg.target {
                let lo = if msg.source <= msg.target {
                    msg.source
                } else {
                    msg.target
                };
                let hi = if msg.source <= msg.target {
                    msg.target
                } else {
                    msg.source
                };
                if hi == k {
                    let plen = msg.payload.as_str().unicode_len();
                    let natw = plen + plen % 2 + 4;
                    proof {
                        lemma_center_cap(parts, msgs, lo as int);
                        assert(natw == mnat(msgs[i as int]));
                    }
                    let cand = centers[lo] + 1 + natw;
                    if cand > need {
                        need = cand;
                    }
                }
            }
        }
        let halfw = pw / 2;
        let left: usize = if need > halfw {
            let pushed = need - halfw;
            if pushed > base {
                pushed
            } else {
                base
            }
        } else {
            base
        };
        proof {
            assert(left == part_left(parts, msgs, k as int));
        }
        lefts.push(left);
        centers.push(left + halfw);
        widths.push(pw);
    }
    (lefts, centers, widths)
}

/// Compute each message's region and the bottom row of the last one.
fn msg_geometry(
    participants: &Vec<Participant>,
    messages: &Vec<Message>,
    centers: &Vec<usize>,
) -> (r: (Vec<usize>, Vec<usize>, Vec<usize>, Vec<usize>, usize))
    requires
        bounded_inputs(part_views(participants@), msg_views(messages@)),
        centers@.len() == participants@.len(),
        forall|k: int|
            0 <= k < participants@.len() ==> #[trigger] centers@[k] == part_center(
                part_views(participants@),
                msg_views(messages@),
                k,
            ),
    ensures
        mgeom_ok(part_views(participants@), msg_views(messages@), r.0@, r.1@, r.2@, r.3@),
        r.4 == msg_top(msg_views(messages@), messages@.len() as int),
{
    let ghost parts = part_views(participants@);
    let ghost msgs = msg_views(messages@);
    let m = messages.len();
    let mut mlefts: Vec<usize> = Vec::new();
    let mut mtops: Vec<usize> = Vec::new();
    let mut mwidths: Vec<usize> = Vec::new();
    let mut mheights: Vec<usize> = Vec::new();
    let mut top: usize = 3;
    for i in 0..m
        invariant
            m == msgs.len(),
            parts == part_views(participants@),
            msgs == msg_views(messages@),
            bounded_inputs(parts, msgs),
            centers@.len() == parts.len(),
            forall|k: int|
                0 <= k < parts.len() ==> #[trigger] centers@[k] == part_center(parts, msgs, k),
            mlefts@.len() == i,
            mtops@.len() == i,
            mwidths@.len() == i,
            mheights@.len() == i,
            forall|j: int| 0 <= j < i ==> #[trigger] mlefts@[j] == msg_left(parts, msgs, j),
            forall|j: int| 0 <= j < i ==> #[trigger] mtops@[j] == msg_top(msgs, j),
            forall|j: int| 0 <= j < i ==> #[trigger] mwidths@[j] == msg_width(parts, msgs, j),
            forall|j: int| 0 <= j < i ==> #[trigger] mheights@[j] == mheight(msgs[j]),
            top == msg_top(msgs, i as int),
    {
        proof {
            lemma_msg_top(msgs, i as int);
            lemma_msg_top(msgs, i as int + 1);
        }
        let msg = &messages[i];
        proof {
            assert(msgs[i as int] == messages@[i as int]@);
        }
        let plen = msg.payload.as_str().unicode_len();
        proof {
            assert(msgs[i as int].payload.len() <= MAX_TEXT);
        }
        let left: usize;
        let w: usize;
        let h: usize;
        if msg.source == msg.target {
            proof {
                lemma_center_cap(parts, msgs, msg.source as int);
            }
            left = centers[msg.source] + 1;
            w = plen + plen % 2 + 6;
            h = 4;
        } else {
            let lo = if msg.source <= msg.target {
                msg.source
            } else {
                msg.target
            };
            let hi = if msg.source <= msg.target {
                msg.target
            } else {
                msg.source
            };
            proof {
                lemma_center_cap(parts, msgs, lo as int);
                lemma_msg_width(parts, msgs, i as int);
                lemma_mnat(msgs[i as int]);
            }
            left = centers[lo] + 1;
            w = centers[hi] - left;
            h = 3;
        }
        mlefts.push(left);
        mtops.push(top);
        mwidths.push(w);
        mheights.push(h);
        top = top + h;
    }
    (mlefts, mtops, mwidths, mheights, top)
}

/// Draw one row of text at `(x, y)`; it must fit.
fn draw1(canvas: &mut TextCanvas, x: usize, y: usize, s: &str)
    requires
        old(canvas).inv(),
        old(canvas).bounds_spec().left == 0,
        old(canvas).bounds_spec().top == 0,
        x + s@.len() <= old(canvas).bounds_spec().width,
        y + 1 <= old(canvas).bounds_spec().height,
    ensures
        final(canvas).inv(),
        final(canvas).bounds_spec() == old(canvas).bounds_spec(),
        final(canvas).grid() == blit(old(canvas).grid(), x as int, y as int, seq![s@]),
{
    let mut rows: Vec<&str> = Vec::new();
    rows.push(s);
    let sl = rows.as_slice();
    proof {
        assert(sl.deep_view() =~= seq![s@]);
        assert(rows_fit_h(sl.deep_view(), x as int, old(canvas).bounds_spec().width as int));
    }
    let res = canvas.draw(x, y, sl);
    proof {
        assert(res is Ok);
    }
}

/// Draw three rows of text at `(x, y)`; they must fit.
fn draw3(canvas: &mut TextCanvas, x: usize, y: usize, s0: &str, s1: &str, s2: &str)
    requires
        old(canvas).inv(),
        old(canvas).bounds_spec().left == 0,
        old(canvas).bounds_spec().top == 0,
        x + s0@.len() <= old(canvas).bounds_spec().width,
        x + s1@.len() <= old(canvas).bounds_spec().width,
        x + s2@.len() <= old(canvas).bounds_spec().width,
        y + 3 <= old(canvas).bounds_spec().height,
    ensures
        final(canvas).inv(),
        final(canvas).bounds_spec() == old(canvas).bounds_spec(),
        final(canvas).grid() == blit(old(canvas).grid(), x as int, y as int, seq![s0@, s1@, s2@]),
{
    let mut rows: Vec<&str> = Vec::new();
    rows.push(s0);
    rows.push(s1);
    rows.push(s2);
    let sl = rows.as_slice();
    proof {
        assert(sl.deep_view() =~= seq![s0@, s1@, s2@]);
        assert(rows_fit_h(sl.deep_view(), x as int, old(canvas).bounds_spec().width as int));
    }
    let res = canvas.draw(x, y, sl);
    proof {
        assert(res is Ok);
    }
}

/// A layout under construction: participants left to right, messages top to
/// bottom.
pub struct Layout {
    participants: Vec<Participant>,
    messages: Vec<Message>,
}

impl Layout {
    /// The participants added so far, as mathematical values.
    pub closed spec fn parts(&self) -> Seq<PartV> {
        Seq::new(self.participants@.len(), |i: int| self.participants@[i]@)
    }

    /// The messages added so far, as mathematical values.
    pub closed spec fn msgs(&self) -> Seq<MsgV> {
        Seq::new(self.messages@.len(), |i: int| self.messages@[i]@)
    }

    /// The layout's invariant: everything within capacity, all message
    /// endpoints valid.
    pub open spec fn wf(&self) -> bool {
        bounded_inputs(self.parts(), self.msgs())
    }

    /// An empty layout.
    pub fn new() -> (l: Layout)
        ensures
            l.wf(),
            l.parts() == Seq::<PartV>::empty(),
            l.msgs() == Seq::<MsgV>::empty(),
    {
        let l = Layout { participants: Vec::new(), messages: Vec::new() };
        proof {
            assert(l.parts() =~= Seq::<PartV>::empty());
            assert(l.msgs() =~= Seq::<MsgV>::empty());
        }
        l
    }

    /// Append a participant at the right edge of the diagram.
    pub fn add_participant(&mut self, participant: Participant)
        requires
            old(self).wf(),
            old(self).parts().len() < MAX_PARTICIPANTS,
            participant.name@.len() <= MAX_TEXT,
        ensures
            final(self).wf(),
            final(self).parts() == old(self).parts().push(participant@),
            final(self).msgs() == old(self).msgs(),
    {
        let ghost pv = participant@;
        self.participants.push(participant);
        proof {
            assert(self.parts() =~= old(self).parts().push(pv));
            assert(self.msgs() =~= old(self).msgs());
        }
    }

    /// Append a message under the previous one. Its endpoints name
    /// participants already added, by position.
    pub fn add_message(&mut self, message: Message)
        requires
            old(self).wf(),
            old(self).msgs().len() < MAX_MESSAGES,
            message.payload@.len() <= MAX_TEXT,
            message.source < old(self).parts().len(),
            message.target < old(self).parts().len(),
        ensures
            final(self).wf(),
            final(self).parts() == old(self).parts(),
            final(self).msgs() == old(self).msgs().push(message@),
    {
        let ghost mv = message@;
        self.messages.push(message);
        proof {
            assert(self.parts() =~= old(self).parts());
            assert(self.msgs() =~= old(self).msgs().push(mv));
        }
    }

    /// Render the layout and consume it: compute the geometry, allocate the
    /// canvas, then draw every participant's lifeline and boxes and every
    /// message, in order.
    pub fn render(self) -> (s: String)
        requires
            self.wf(),
        ensures
            s@ == spec_render(self.parts(), self.msgs()),
    {
        let ghost parts = self.parts();
        let ghost msgs = self.msgs();
        let Layout { participants, messages } = self;
        proof {
            assert(parts =~= part_views(participants@));
            assert(msgs =~= msg_views(messages@));
        }
        let n = participants.len();
        let m = messages.len();
        let cols = columns(&participants, &messages);
        let lefts = cols.0;
        let centers = cols.1;
        let widths = cols.2;
        let geo = msg_geometry(&participants, &messages, &centers);
        let mlefts = geo.0;
        let mtops = geo.1;
        let mwidths = geo.2;
        let mheights = geo.3;
        let bottom = geo.4;
        let mut maxr: usize = 0;
        for k in 0..n
            invariant
                n == parts.len(),
                m == msgs.len(),
                parts == part_views(participants@),
                msgs == msg_views(messages@),
                bounded_inputs(parts, msgs),
                cols_ok(parts, msgs, lefts@, centers@, widths@),
                maxr == parts_max_right(parts, msgs, k as int),
                maxr <= 320000000,
        {
            proof {
                lemma_center_cap(parts, msgs, k as int);
                lemma_pwidth(parts[k as int]);
            }
            let r = lefts[k] + widths[k];
            if r > maxr {
                maxr = r;
            }
        }
        let mut maxe: usize = maxr;
        for i in 0..m
            invariant
                n == parts.len(),
                m == msgs.len(),
                parts == part_views(participants@),
                msgs == msg_views(messages@),
                bounded_inputs(parts, msgs),
                mgeom_ok(parts, msgs, mlefts@, mtops@, mwidths@, mheights@),
                maxr == parts_max_right(parts, msgs, n as int),
                maxr <= 320000000,
                maxe as int == (if msgs_max_right(parts, msgs, i as int) > maxr as int {
                    msgs_max_right(parts, msgs, i as int)
                } else {
                    maxr as int
                }),
                maxe <= 330000000,
        {
            proof {
                assert(msgs[i as int] == messages@[i as int]@);
                let mv = msgs[i as int];
                lemma_mnat(mv);
                lemma_center_cap(parts, msgs, lo_idx(mv));
                if !is_self_msg(mv) {
                    lemma_center_cap(parts, msgs, hi_idx(mv));
                    lemma_msg_width(parts, msgs, i as int);
                }
            }
            let r = mlefts[i] + mwidths[i];
            if r > maxe {
                maxe = r;
            }
        }
        let ww: usize = if n == 0 && m == 0 {
            0
        } else {
            maxe + 1
        };
        proof {
            if m > 0 {
                lemma_msg_top(msgs, m as int);
            }
        }
        let pb: usize = if n > 0 {
            3
        } else {
            0
        };
        let mb: usize = if m > 0 {
            bottom
        } else {
            0
        };
        let hh: usize = if n == 0 && m == 0 {
            0
        } else {
            (if pb > mb {
                pb
            } else {
                mb
            }) + 3
        };
        proof {
            assert(ww == canvas_width(parts, msgs));
            assert(hh == canvas_height(parts, msgs));
            assert(n > 0 ==> hh >= 6);
            assert(m > 0 ==> msg_top(msgs, m as int) + 3 <= hh);
        }
        let mut canvas = TextCanvas::new(ww, hh);
        for k in 0..n
            invariant
                n == parts.len(),
                m == msgs.len(),
                parts == part_views(participants@),
                msgs == msg_views(messages@),
                bounded_inputs(parts, msgs),
                cols_ok(parts, msgs, lefts@, centers@, widths@),
                maxr == parts_max_right(parts, msgs, n as int),
                maxe <= 330000000,
                maxr <= maxe,
                n > 0 ==> ww == maxe + 1,
                n > 0 ==> hh >= 6,
                ww == canvas_width(parts, msgs),
                hh == canvas_height(parts, msgs),
                canvas.inv(),
                canvas.bounds_spec() == (Rect { left: 0, top: 0, width: ww, height: hh }),
                canvas.grid() == draw_parts(
                    parts,
                    msgs,
                    blank_grid(ww as int, hh as int),
                    k as int,
                    hh as int,
                ),
        {
            proof {
                lemma_center_cap(parts, msgs, k as int);
                lemma_pwidth(parts[k as int]);
                lemma_parts_max_ge(parts, msgs, k as int, n as int);
            }
            let col = centers[k];
            let left = lefts[k];
            let w = widths[k];
            let ghost gk = canvas.grid();
            for r in 0..hh
                invariant
                    canvas.inv(),
                    canvas.bounds_spec() == (Rect { left: 0, top: 0, width: ww, height: hh }),
                    canvas.grid() == vline(gk, col as int, r as int),
                    col + 1 <= ww,
            {
                proof {
                    reveal_strlit("\u{2502}");
                    assert("\u{2502}"@ =~= seq!['\u{2502}']);
                }
                draw1(&mut canvas, col, r, "\u{2502}");
            }
            let name = participants[k].name.as_str();
            proof {
                assert(parts[k as int] == participants@[k as int]@);
                assert(name@ == parts[k as int].name);
                assert(name@.len() + 3 <= w);
            }
            let row_top = box_row_top(w);
            let row_mid = box_row_mid(name, w);
            let row_bot = box_row_bot(w);
            proof {
                assert(row_top@.len() == w);
                assert(row_mid@.len() == w);
                assert(row_bot@.len() == w);
                assert(seq![row_top@, row_mid@, row_bot@] =~= box_rows(
                    parts[k as int].name,
                    w as int,
                ));
            }
            draw3(&mut canvas, left, 0, row_top.as_str(), row_mid.as_str(), row_bot.as_str());
            draw3(
                &mut canvas,
                left,
                hh - 3,
                row_top.as_str(),
                row_mid.as_str(),
                row_bot.as_str(),
            );
            proof {
                assert(canvas.grid() == draw_parts(
                    parts,
                    msgs,
                    blank_grid(ww as int, hh as int),
                    k as int + 1,
                    hh as int,
                ));
            }
        }
        let ghost gp = canvas.grid();
        for i in 0..m
            invariant
                n == parts.len(),
                m == msgs.len(),
                parts == part_views(participants@),
                msgs == msg_views(messages@),
                bounded_inputs(parts, msgs),
                mgeom_ok(parts, msgs, mlefts@, mtops@, mwidths@, mheights@),
                maxr == parts_max_right(parts, msgs, n as int),
                maxe as int == (if msgs_max_right(parts, msgs, m as int) > maxr as int {
                    msgs_max_right(parts, msgs, m as int)
                } else {
                    maxr as int
                }),
                maxe <= 330000000,
                m > 0 ==> ww == maxe + 1,
                ww == canvas_width(parts, msgs),
                hh == canvas_height(parts, msgs),
                m > 0 ==> msg_top(msgs, m as int) + 3 <= hh,
                canvas.inv(),
                canvas.bounds_spec() == (Rect { left: 0, top: 0, width: ww, height: hh }),
                gp == draw_parts(parts, msgs, blank_grid(ww as int, hh as int), n as int, hh as int),
                canvas.grid() == draw_msgs(parts, msgs, gp, i as int),
        {
            proof {
                assert(msgs[i as int] == messages@[i as int]@);
                let mv = msgs[i as int];
                lemma_mnat(mv);
                lemma_msgs_max_ge(parts, msgs, i as int, m as int);
                lemma_msg_top(msgs, i as int);
                lemma_msg_top_mono(msgs, i as int + 1, m as int);
                if !is_self_msg(mv) {
                    lemma_msg_width(parts, msgs, i as int);
                }
            }
            let msg = &messages[i];
            let left = mlefts[i];
            let top = mtops[i];
            let w = mwidths[i];
            let payload = msg.payload.as_str();
            proof {
                assert(payload@ == msgs[i as int].payload);
            }
            if msg.source == msg.target {
                proof {
                    reveal_strlit("\u{2500}\u{2510}");
                    reveal_strlit(" \u{2502}");
                    reveal_strlit("\u{25c0}\u{2518}");
                    assert("\u{2500}\u{2510}"@ =~= seq!['\u{2500}', '\u{2510}']);
                    assert(" \u{2502}"@ =~= seq![' ', '\u{2502}']);
                    assert("\u{25c0}\u{2518}"@ =~= seq!['\u{25c0}', '\u{2518}']);
                }
                draw3(&mut canvas, left, top, "\u{2500}\u{2510}", " \u{2502}", "\u{25c0}\u{2518}");
                proof {
                    assert(seq!["\u{2500}\u{2510}"@, " \u{2502}"@, "\u{25c0}\u{2518}"@]
                        =~= loop_rows());
                }
                draw1(&mut canvas, left + 3, top + 1, payload);
            } else {
                let plen = payload.unicode_len();
                let pad = (w - plen) / 2;
                draw1(&mut canvas, left + pad, top, payload);
                let arrow = arrow_string(
                    w,
                    matches!(msg.edge_style, EdgeStyle::Dashed),
                    msg.source > msg.target,
                );
                draw1(&mut canvas, left, top + 1, arrow.as_str());
            }
            proof {
                assert(canvas.grid() == draw_msgs(parts, msgs, gp, i as int + 1));
            }
        }
        let out = canvas.content();
        out
    }
}

} // verus!
