//! Properties of the rendering pipeline, stated and proved once and for
//! all: determinism, whole-cell replacement on the canvas, and the exact
//! shape of a rendered frame.

use crate::canvas::{blank_grid, blit, join_rows};
use crate::layout::{
    bounded_inputs, box_rows, canvas_height, canvas_width, draw_msgs, draw_parts, is_self_msg,
    lemma_center_mono, lemma_center_step, lemma_left_nonneg, lemma_msg_top, lemma_msg_top_mono,
    lemma_pwidth, msg_top, mheight, part_center, part_left, pwidth, spec_render, vline, MsgV,
    PartV,
};
use vstd::prelude::*;

verus! {

/// The same input always renders to the same frame: re-rendering changes
/// nothing.
pub proof fn transform_deterministic(s1: Seq<char>, s2: Seq<char>)
    requires
        s1 == s2,
    ensures
        crate::spec_transform(s1) == crate::spec_transform(s2),
{
}

/// Drawing one single-cell text and then another at the same spot leaves
/// exactly what drawing the second alone would: cells are replaced whole.
pub proof fn overdraw_replaces_cell(g: Seq<Seq<char>>, x: int, y: int, a: char, b: char)
    ensures
        blit(blit(g, x, y, seq![seq![a]]), x, y, seq![seq![b]]) == blit(g, x, y, seq![seq![b]]),
{
    assert(blit(blit(g, x, y, seq![seq![a]]), x, y, seq![seq![b]]) =~~= blit(
        g,
        x,
        y,
        seq![seq![b]],
    ));
}

/// A grid of `hh` rows, each of `ww` cells.
pub open spec fn grid_dims(g: Seq<Seq<char>>, ww: int, hh: int) -> bool {
    &&& g.len() == hh
    &&& forall|r: int| 0 <= r < g.len() ==> (#[trigger] g[r]).len() == ww
}

/// A blit never changes the grid's shape.
pub proof fn lemma_blit_dims(g: Seq<Seq<char>>, left: int, top: int, rows: Seq<Seq<char>>, ww: int, hh: int)
    requires
        grid_dims(g, ww, hh),
    ensures
        grid_dims(blit(g, left, top, rows), ww, hh),
{
}

/// Drawing a lifeline never changes the grid's shape.
pub proof fn lemma_vline_dims(g: Seq<Seq<char>>, col: int, r: int, ww: int, hh: int)
    requires
        grid_dims(g, ww, hh),
    ensures
        grid_dims(vline(g, col, r), ww, hh),
    decreases r,
{
    if r > 0 {
        lemma_vline_dims(g, col, r - 1, ww, hh);
        lemma_blit_dims(vline(g, col, r - 1), col, r - 1, seq![seq!['\u{2502}']], ww, hh);
    }
}

/// Drawing participants never changes the grid's shape.
pub proof fn lemma_draw_parts_dims(
    parts: Seq<PartV>,
    msgs: Seq<MsgV>,
    g: Seq<Seq<char>>,
    k: int,
    hh0: int,
    ww: int,
    hh: int,
)
    requires
        grid_dims(g, ww, hh),
    ensures
        grid_dims(draw_parts(parts, msgs, g, k, hh0), ww, hh),
    decreases k,
{
    if k > 0 {
        lemma_draw_parts_dims(parts, msgs, g, k - 1, hh0, ww, hh);
        let g1 = draw_parts(parts, msgs, g, k - 1, hh0);
        let p = parts[k - 1];
        let left = part_left(parts, msgs, k - 1);
        let center = part_center(parts, msgs, k - 1);
        let rows = box_rows(p.name, pwidth(p));
        lemma_vline_dims(g1, center, hh0, ww, hh);
        let g2 = vline(g1, center, hh0);
        lemma_blit_dims(g2, left, 0, rows, ww, hh);
        let g3 = blit(g2, left, 0, rows);
        lemma_blit_dims(g3, left, hh0 - 3, rows, ww, hh);
    }
}

/// Drawing messages never changes the grid's shape.
pub proof fn lemma_draw_msgs_dims(
    parts: Seq<PartV>,
    msgs: Seq<MsgV>,
    g: Seq<Seq<char>>,
    i: int,
    ww: int,
    hh: int,
)
    requires
        grid_dims(g, ww, hh),
    ensures
        grid_dims(draw_msgs(parts, msgs, g, i), ww, hh),
    decreases i,
{
    if i > 0 {
        lemma_draw_msgs_dims(parts, msgs, g, i - 1, ww, hh);
        let g1 = draw_msgs(parts, msgs, g, i - 1);
        assert(grid_dims(draw_msgs(parts, msgs, g, i), ww, hh));
    }
}

/// In a joined grid of uniform row length, each cell is at a computable
/// offset, rows are separated by single newlines, and the length is exact.
pub proof fn lemma_join_index(g: Seq<Seq<char>>, ww: int)
    requires
        ww >= 0,
        forall|r: int| 0 <= r < g.len() ==> (#[trigger] g[r]).len() == ww,
    ensures
        g.len() == 0 ==> join_rows(g).len() == 0,
        g.len() > 0 ==> join_rows(g).len() == g.len() * (ww + 1) - 1,
        forall|r: int, c: int|
            0 <= r < g.len() && 0 <= c < ww ==> #[trigger] join_rows(g)[r * (ww + 1) + c]
                == g[r][c],
        forall|r: int| 0 <= r < g.len() - 1 ==> #[trigger] join_rows(g)[r * (ww + 1) + ww] == '\n',
    decreases g.len(),
{
    let n = g.len() as int;
    if n > 1 {
        let h = g.drop_last();
        lemma_join_index(h, ww);
        assert(n * (ww + 1) == (n - 1) * (ww + 1) + (ww + 1)) by (nonlinear_arith);
        let jl = (n - 1) * (ww + 1) - 1;
        assert(join_rows(h).len() == jl);
        assert(join_rows(g).len() == jl + 1 + ww);
        assert forall|r: int, c: int|
            0 <= r < n && 0 <= c < ww implies #[trigger] join_rows(g)[r * (ww + 1) + c]
            == g[r][c] by {
            assert(0 <= r * (ww + 1)) by (nonlinear_arith)
                requires
                    r >= 0 && ww >= 0,
            ;
            if r < n - 1 {
                assert(r * (ww + 1) <= (n - 2) * (ww + 1)) by (nonlinear_arith)
                    requires
                        r <= n - 2 && ww >= 0,
                ;
                assert((n - 1) * (ww + 1) == (n - 2) * (ww + 1) + (ww + 1)) by (nonlinear_arith);
                assert(join_rows(g)[r * (ww + 1) + c] == join_rows(h)[r * (ww + 1) + c]);
                assert(h[r] == g[r]);
            } else {
                assert(r * (ww + 1) == (n - 1) * (ww + 1));
                assert(join_rows(g)[jl + 1 + c] == g.last()[c]);
                assert(g.last() == g[r]);
            }
        }
        assert forall|r: int| 0 <= r < n - 1 implies #[trigger] join_rows(g)[r * (ww + 1) + ww]
            == '\n' by {
            assert(0 <= r * (ww + 1)) by (nonlinear_arith)
                requires
                    r >= 0 && ww >= 0,
            ;
            if r < n - 2 {
                assert(r * (ww + 1) <= (n - 3) * (ww + 1)) by (nonlinear_arith)
                    requires
                        r <= n - 3 && ww >= 0,
                ;
                assert((n - 1) * (ww + 1) == (n - 3) * (ww + 1) + (ww + 1) + (ww + 1))
                    by (nonlinear_arith);
                assert(join_rows(g)[r * (ww + 1) + ww] == join_rows(h)[r * (ww + 1) + ww]);
            } else {
                assert(r * (ww + 1) == (n - 2) * (ww + 1));
                assert((n - 1) * (ww + 1) == (n - 2) * (ww + 1) + (ww + 1)) by (nonlinear_arith);
                assert(join_rows(g)[jl] == '\n');
            }
        }
    }
}

/// Running maxima of right edges are never negative.
pub proof fn lemma_max_right_nonneg(parts: Seq<PartV>, msgs: Seq<MsgV>, k: int, i: int)
    requires
        k >= 0,
        i >= 0,
    ensures
        crate::layout::parts_max_right(parts, msgs, k) >= 0,
        crate::layout::msgs_max_right(parts, msgs, i) >= 0,
    decreases k + i,
{
    if k > 0 || i > 0 {
        lemma_max_right_nonneg(
            parts,
            msgs,
            if k > 0 {
                k - 1
            } else {
                0
            },
            if i > 0 {
                i - 1
            } else {
                0
            },
        );
    }
}

/// The rendered frame's exact shape: with anything to draw, it is
/// `height` rows of exactly `width` cells each, joined by single newlines;
/// no row is longer or shorter.
pub proof fn render_rows_exact(parts: Seq<PartV>, msgs: Seq<MsgV>)
    requires
        bounded_inputs(parts, msgs),
    ensures
        ({
            let out = spec_render(parts, msgs);
            let ww = canvas_width(parts, msgs);
            let hh = canvas_height(parts, msgs);
            &&& (parts.len() == 0 && msgs.len() == 0) ==> out.len() == 0
            &&& (parts.len() > 0 || msgs.len() > 0) ==> out.len() == hh * (ww + 1) - 1
            &&& forall|r: int, c: int|
                0 <= r < hh && 0 <= c < ww ==> #[trigger] out[r * (ww + 1) + c] == final_grid(
                    parts,
                    msgs,
                )[r][c]
            &&& forall|r: int| 0 <= r < hh - 1 ==> #[trigger] out[r * (ww + 1) + ww] == '\n'
        }),
{
    let ww = canvas_width(parts, msgs);
    let hh = canvas_height(parts, msgs);
    let g0 = blank_grid(ww, hh);
    lemma_max_right_nonneg(parts, msgs, parts.len() as int, msgs.len() as int);
    if msgs.len() > 0 {
        lemma_msg_top(msgs, msgs.len() as int);
    }
    assert(ww >= 0);
    assert(hh >= 0);
    assert(grid_dims(g0, ww, hh));
    lemma_draw_parts_dims(parts, msgs, g0, parts.len() as int, hh, ww, hh);
    let g1 = draw_parts(parts, msgs, g0, parts.len() as int, hh);
    lemma_draw_msgs_dims(parts, msgs, g1, msgs.len() as int, ww, hh);
    lemma_join_index(final_grid(parts, msgs), ww);
}

/// Box left edges do not decrease left to right.
pub proof fn lemma_left_mono(parts: Seq<PartV>, msgs: Seq<MsgV>, j: int, k: int)
    requires
        0 <= j <= k,
    ensures
        part_left(parts, msgs, j) <= part_left(parts, msgs, k),
    decreases k - j,
{
    if j < k {
        lemma_left_mono(parts, msgs, j, k - 1);
        lemma_pwidth(parts[k - 1]);
        lemma_left_nonneg(parts, msgs, k - 1);
    }
}

/// What a lifeline draw does to each cell: the first `r` rows of column
/// `col` become lifeline glyphs, everything else keeps its value.
pub proof fn lemma_vline_cells(g: Seq<Seq<char>>, col: int, r: int, rr: int, cc: int)
    requires
        0 <= rr < g.len(),
        0 <= cc < g[rr].len(),
    ensures
        vline(g, col, r)[rr][cc] == (if cc == col && rr < r {
            '\u{2502}'
        } else {
            g[rr][cc]
        }),
    decreases r,
{
    if r > 0 {
        lemma_vline_cells(g, col, r - 1, rr, cc);
        lemma_vline_len_row(g, col, r - 1, rr);
    }
}

/// Participants from position `m` on only touch columns at or right of the
/// `m`-th box's left edge.
pub proof fn lemma_draw_parts_frame(
    parts: Seq<PartV>,
    msgs: Seq<MsgV>,
    g: Seq<Seq<char>>,
    m: int,
    k: int,
    hh0: int,
    rr: int,
    cc: int,
)
    requires
        0 <= m <= k,
        0 <= rr < g.len(),
        0 <= cc < g[rr].len(),
        cc < part_left(parts, msgs, m),
    ensures
        draw_parts(parts, msgs, g, k, hh0).len() == g.len(),
        draw_parts(parts, msgs, g, k, hh0)[rr].len() == g[rr].len(),
        draw_parts(parts, msgs, g, k, hh0)[rr][cc] == draw_parts(parts, msgs, g, m, hh0)[rr][cc],
    decreases k,
{
    lemma_draw_parts_dims_row(parts, msgs, g, k, hh0, rr);
    if k > m {
        lemma_draw_parts_frame(parts, msgs, g, m, k - 1, hh0, rr, cc);
        lemma_left_mono(parts, msgs, m, k - 1);
        lemma_pwidth(parts[k - 1]);
        lemma_left_nonneg(parts, msgs, k - 1);
        let g1 = draw_parts(parts, msgs, g, k - 1, hh0);
        let left = part_left(parts, msgs, k - 1);
        let center = part_center(parts, msgs, k - 1);
        assert(cc < left);
        assert(center >= left);
        lemma_draw_parts_dims_row(parts, msgs, g, k - 1, hh0, rr);
        lemma_vline_cells(g1, center, hh0, rr, cc);
        lemma_vline_len_row(g1, center, hh0, rr);
        let g2 = vline(g1, center, hh0);
        let g3 = blit(g2, left, 0, box_rows(parts[k - 1].name, pwidth(parts[k - 1])));
        assert(g3[rr][cc] == g2[rr][cc]);
        assert(draw_parts(parts, msgs, g, k, hh0)[rr][cc] == g3[rr][cc]);
    }
}

/// Each row keeps its length through the participant fold.
pub proof fn lemma_draw_parts_dims_row(
    parts: Seq<PartV>,
    msgs: Seq<MsgV>,
    g: Seq<Seq<char>>,
    k: int,
    hh0: int,
    r: int,
)
    requires
        0 <= r < g.len(),
    ensures
        draw_parts(parts, msgs, g, k, hh0).len() == g.len(),
        draw_parts(parts, msgs, g, k, hh0)[r].len() == g[r].len(),
    decreases k,
{
    if k > 0 {
        lemma_draw_parts_dims_row(parts, msgs, g, k - 1, hh0, r);
        let g1 = draw_parts(parts, msgs, g, k - 1, hh0);
        let center = part_center(parts, msgs, k - 1);
        lemma_vline_len_row(g1, center, hh0, r);
    }
}

/// Each row keeps its length through a lifeline draw.
pub proof fn lemma_vline_len_row(g: Seq<Seq<char>>, col: int, n: int, r: int)
    requires
        0 <= r < g.len(),
    ensures
        vline(g, col, n).len() == g.len(),
        vline(g, col, n)[r].len() == g[r].len(),
    decreases n,
{
    if n > 0 {
        lemma_vline_len_row(g, col, n - 1, r);
    }
}

/// Each row keeps its length through the message fold.
pub proof fn lemma_draw_msgs_dims_row(
    parts: Seq<PartV>,
    msgs: Seq<MsgV>,
    g: Seq<Seq<char>>,
    i: int,
    r: int,
)
    requires
        0 <= r < g.len(),
    ensures
        draw_msgs(parts, msgs, g, i).len() == g.len(),
        draw_msgs(parts, msgs, g, i)[r].len() == g[r].len(),
    decreases i,
{
    if i > 0 {
        lemma_draw_msgs_dims_row(parts, msgs, g, i - 1, r);
    }
}

/// Messages from position `m` on only touch rows at or below the `m`-th
/// message's top.
pub proof fn lemma_draw_msgs_frame(
    parts: Seq<PartV>,
    msgs: Seq<MsgV>,
    g: Seq<Seq<char>>,
    m: int,
    i: int,
    rr: int,
    cc: int,
)
    requires
        0 <= m <= i,
        0 <= rr < g.len(),
        0 <= cc < g[rr].len(),
        rr < msg_top(msgs, m),
    ensures
        draw_msgs(parts, msgs, g, i)[rr][cc] == draw_msgs(parts, msgs, g, m)[rr][cc],
    decreases i,
{
    if i > m {
        lemma_draw_msgs_frame(parts, msgs, g, m, i - 1, rr, cc);
        lemma_msg_top_mono(msgs, m, i - 1);
        lemma_draw_msgs_dims_row(parts, msgs, g, i - 1, rr);
        assert(rr < msg_top(msgs, i - 1));
    }
}

/// Messages only touch columns strictly right of every participant center
/// at or left of their own left participant; in particular, the leftmost
/// lifeline's column is never touched.
pub proof fn lemma_draw_msgs_cols(
    parts: Seq<PartV>,
    msgs: Seq<MsgV>,
    g: Seq<Seq<char>>,
    i: int,
    rr: int,
    cc: int,
)
    requires
        0 <= i <= msgs.len(),
        0 <= rr < g.len(),
        0 <= cc < g[rr].len(),
        cc <= part_center(parts, msgs, 0),
        forall|t: int|
            0 <= t < msgs.len() ==> 0 <= crate::layout::lo_idx(#[trigger] msgs[t])
                && crate::layout::hi_idx(msgs[t]) < parts.len(),
    ensures
        draw_msgs(parts, msgs, g, i)[rr][cc] == g[rr][cc],
    decreases i,
{
    if i > 0 {
        lemma_draw_msgs_cols(parts, msgs, g, i - 1, rr, cc);
        lemma_draw_msgs_dims_row(parts, msgs, g, i - 1, rr);
        lemma_center_mono(parts, msgs, 0, crate::layout::lo_idx(msgs[i - 1]));
        let left = crate::layout::msg_left(parts, msgs, i - 1);
        assert(left > cc);
        let g1 = draw_msgs(parts, msgs, g, i - 1);
        let m2 = msgs[i - 1];
        if is_self_msg(m2) {
            let g2 = blit(g1, left, msg_top(msgs, i - 1), crate::layout::loop_rows());
            assert(g2[rr][cc] == g1[rr][cc]);
            assert(draw_msgs(parts, msgs, g, i)[rr][cc] == g2[rr][cc]);
        } else {
            crate::layout::lemma_msg_width(parts, msgs, i - 1);
            crate::layout::lemma_mnat(m2);
            let w = crate::layout::msg_width(parts, msgs, i - 1);
            let pad = (w - m2.payload.len()) / 2;
            assert(pad >= 0);
            let g2 = blit(g1, left + pad, msg_top(msgs, i - 1), seq![m2.payload]);
            assert(g2[rr][cc] == g1[rr][cc]);
            assert(draw_msgs(parts, msgs, g, i)[rr][cc] == g2[rr][cc]);
        }
    }
}

/// Two distinct lists: every element of a duplicate-free list survives
/// deduplication unchanged, in place.
pub proof fn lemma_dedup_distinct(s: Seq<Seq<char>>)
    requires
        forall|t1: int, t2: int| 0 <= t1 < t2 < s.len() ==> s[t1] != s[t2],
    ensures
        crate::renderer::dedup(s) == s,
    decreases s.len(),
{
    if s.len() > 0 {
        let h = s.drop_last();
        lemma_dedup_distinct(h);
        if h.contains(s.last()) {
            let t = choose|t: int| 0 <= t < h.len() && h[t] == s.last();
            assert(s[t] == s[s.len() - 1]);
            assert(false);
        }
        assert(crate::renderer::dedup(s) =~= s);
    }
}

/// With pairwise-distinct alias identifiers, the first columns of the
/// diagram are the aliased participants, in alias order.
pub proof fn lemma_ordered_alias_prefix(d: crate::parser::DiagV, t: int)
    requires
        forall|t1: int, t2: int|
            0 <= t1 < t2 < d.aliases.len() ==> (#[trigger] d.aliases[t1]).id != (
            #[trigger] d.aliases[t2]).id,
        0 <= t < d.aliases.len(),
    ensures
        crate::renderer::ordered_ids(d).len() >= d.aliases.len(),
        crate::renderer::ordered_ids(d)[t] == d.aliases[t].id,
{
    let s = crate::renderer::mentions(d);
    let na = d.aliases.len() as int;
    assert(forall|u: int| 0 <= u < na ==> s[u] == d.aliases[u].id);
    lemma_dedup_prefix(s, na, t);
}

/// Deduplication keeps a duplicate-free prefix in place.
pub proof fn lemma_dedup_prefix(s: Seq<Seq<char>>, na: int, t: int)
    requires
        0 <= t < na <= s.len(),
        forall|t1: int, t2: int| 0 <= t1 < t2 < na ==> s[t1] != s[t2],
    ensures
        crate::renderer::dedup(s).len() >= na,
        crate::renderer::dedup(s)[t] == s[t],
    decreases s.len(),
{
    if s.len() == na {
        lemma_dedup_distinct(s);
    } else {
        let h = s.drop_last();
        assert(forall|t1: int, t2: int| 0 <= t1 < t2 < na ==> h[t1] == s[t1] && h[t2] == s[t2]);
        lemma_dedup_prefix(h, na, t);
        let r = crate::renderer::dedup(h);
        if r.contains(s.last()) {
        } else {
            assert(crate::renderer::dedup(s)[t] == r[t]);
        }
    }
}

/// Swapping two alias lines swaps the horizontal order of the two
/// participants: the participant aliased later now stands in the earlier
/// column, and columns grow strictly left to right.
pub proof fn alias_reorder(d1: crate::parser::DiagV, d2: crate::parser::DiagV, i: int, j: int)
    requires
        0 <= i < j < d1.aliases.len(),
        d2.messages == d1.messages,
        d2.aliases == d1.aliases.update(i, d1.aliases[j]).update(j, d1.aliases[i]),
        forall|t1: int, t2: int|
            0 <= t1 < t2 < d1.aliases.len() ==> (#[trigger] d1.aliases[t1]).id != (
            #[trigger] d1.aliases[t2]).id,
    ensures
        crate::renderer::ordered_ids(d1)[i] == d1.aliases[i].id,
        crate::renderer::ordered_ids(d1)[j] == d1.aliases[j].id,
        crate::renderer::ordered_ids(d2)[i] == d1.aliases[j].id,
        crate::renderer::ordered_ids(d2)[j] == d1.aliases[i].id,
        part_center(crate::renderer::parts_spec(d2), crate::renderer::msgs_spec(d2), i)
            < part_center(crate::renderer::parts_spec(d2), crate::renderer::msgs_spec(d2), j),
{
    lemma_ordered_alias_prefix(d1, i);
    lemma_ordered_alias_prefix(d1, j);
    assert(forall|t1: int, t2: int|
        0 <= t1 < t2 < d2.aliases.len() ==> (#[trigger] d2.aliases[t1]).id != (
        #[trigger] d2.aliases[t2]).id);
    lemma_ordered_alias_prefix(d2, i);
    lemma_ordered_alias_prefix(d2, j);
    let parts2 = crate::renderer::parts_spec(d2);
    let msgs2 = crate::renderer::msgs_spec(d2);
    lemma_centers_strict(parts2, msgs2, i, j);
}

/// Centers grow strictly left to right.
pub proof fn lemma_centers_strict(parts: Seq<PartV>, msgs: Seq<MsgV>, i: int, j: int)
    requires
        0 <= i < j,
    ensures
        part_center(parts, msgs, i) < part_center(parts, msgs, j),
    decreases j - i,
{
    lemma_center_step(parts, msgs, j);
    if i < j - 1 {
        lemma_centers_strict(parts, msgs, i, j - 1);
    }
}

/// The fully drawn cell grid of a layout, before joining.
pub open spec fn final_grid(parts: Seq<PartV>, msgs: Seq<MsgV>) -> Seq<Seq<char>> {
    let ww = canvas_width(parts, msgs);
    let hh = canvas_height(parts, msgs);
    let g0 = blank_grid(ww, hh);
    let g1 = draw_parts(parts, msgs, g0, parts.len() as int, hh);
    draw_msgs(parts, msgs, g1, msgs.len() as int)
}

/// A bounded diagram hands the layout bounded, well-formed participants
/// and messages.
pub proof fn lemma_diag_bounded(d: crate::parser::DiagV)
    requires
        crate::parser::diag_strings_le(d, crate::layout::MAX_TEXT as int),
        d.aliases.len() + d.messages.len() <= crate::layout::MAX_MESSAGES,
    ensures
        bounded_inputs(crate::renderer::parts_spec(d), crate::renderer::msgs_spec(d)),
{
    let parts = crate::renderer::parts_spec(d);
    let msgs = crate::renderer::msgs_spec(d);
    let ms = crate::renderer::mentions(d);
    let ord = crate::renderer::ordered_ids(d);
    crate::renderer::lemma_msg_mentions_len(d.messages);
    crate::renderer::lemma_msg_mentions(d.messages, crate::layout::MAX_TEXT as int);
    crate::renderer::lemma_dedup_le(ms);
    assert(parts.len() <= crate::layout::MAX_PARTICIPANTS);
    assert forall|k: int| 0 <= k < parts.len() implies (#[trigger] parts[k].name).len()
        <= crate::layout::MAX_TEXT by {
        crate::renderer::lemma_dedup_elements(ms, k);
        let u = choose|u: int| 0 <= u < ms.len() && ms[u] == ord[k];
        assert(ms[u].len() <= crate::layout::MAX_TEXT);
        crate::renderer::lemma_label_le(d.aliases, ord[k], crate::layout::MAX_TEXT as int);
    }
    assert forall|i: int|
        0 <= i < msgs.len() implies 0 <= (#[trigger] msgs[i]).source < parts.len() && 0
        <= msgs[i].target < parts.len() by {
        crate::renderer::lemma_msg_mentions_has(d.messages, i);
        let src = d.messages[i].source;
        let tgt = d.messages[i].target;
        let mm = crate::renderer::msg_mentions(d.messages);
        let js = choose|u: int| 0 <= u < mm.len() && mm[u] == src;
        assert(ms[d.aliases.len() + js] == src);
        assert(ms.contains(src));
        let jt = choose|u: int| 0 <= u < mm.len() && mm[u] == tgt;
        assert(ms[d.aliases.len() + jt] == tgt);
        assert(ms.contains(tgt));
        crate::renderer::lemma_dedup_contains(ms, src);
        crate::renderer::lemma_dedup_contains(ms, tgt);
        crate::renderer::lemma_first_index_exists(ord, src);
        crate::renderer::lemma_first_index_exists(ord, tgt);
    }
}

/// The first alias binding an identifier decides its label.
pub proof fn lemma_label_first(aliases: Seq<crate::parser::AliasV>, j: int)
    requires
        0 <= j < aliases.len(),
        forall|t: int| 0 <= t < j ==> (#[trigger] aliases[t]).id != aliases[j].id,
    ensures
        crate::renderer::label_of(aliases, aliases[j].id) == aliases[j].label,
    decreases j,
{
    if j > 0 {
        lemma_label_first(aliases.drop_first(), j - 1);
        assert(aliases.drop_first()[j - 1] == aliases[j]);
    }
}

/// After its participant is drawn, the label stands in the second row of
/// its header box, and nothing drawn later touches it.
pub proof fn lemma_label_cells(parts: Seq<PartV>, msgs: Seq<MsgV>, k: int, t: int)
    requires
        bounded_inputs(parts, msgs),
        parts.len() > 0,
        0 <= k < parts.len(),
        0 <= t < parts[k].name.len(),
    ensures
        ({
            let left = part_left(parts, msgs, k);
            final_grid(parts, msgs)[1][left + 2 + t] == parts[k].name[t]
        }),
{
    let ww = canvas_width(parts, msgs);
    let hh = canvas_height(parts, msgs);
    let g0 = blank_grid(ww, hh);
    let n = parts.len() as int;
    let m = msgs.len() as int;
    let left = part_left(parts, msgs, k);
    let w = pwidth(parts[k]);
    let name = parts[k].name;
    let cc = left + 2 + t;
    lemma_max_right_nonneg(parts, msgs, n, m);
    if m > 0 {
        lemma_msg_top(msgs, m);
    }
    crate::layout::lemma_parts_max_ge(parts, msgs, k, n);
    lemma_pwidth(parts[k]);
    lemma_left_nonneg(parts, msgs, k);
    assert(hh >= 6);
    assert(left + w <= ww - 1);
    assert(grid_dims(g0, ww, hh));
    lemma_draw_parts_dims(parts, msgs, g0, k, hh, ww, hh);
    let g1 = draw_parts(parts, msgs, g0, k, hh);
    let center = part_center(parts, msgs, k);
    let rows = box_rows(name, w);
    lemma_vline_dims(g1, center, hh, ww, hh);
    let g2 = vline(g1, center, hh);
    lemma_blit_dims(g2, left, 0, rows, ww, hh);
    let g3 = blit(g2, left, 0, rows);
    lemma_blit_dims(g3, left, hh - 3, rows, ww, hh);
    let g4 = blit(g3, left, hh - 3, rows);
    assert(g4 == draw_parts(parts, msgs, g0, k + 1, hh));
    // the label cell as the header box wrote it
    assert(rows[1].len() == w);
    assert(rows[1][2 + t] == name[t]);
    assert(g3[1][cc] == rows[1][2 + t]);
    assert(g4[1][cc] == g3[1][cc]);
    // later participants stand strictly right of this box
    lemma_draw_parts_dims(parts, msgs, g0, k + 1, hh, ww, hh);
    assert(part_left(parts, msgs, k + 1) >= left + w + 1);
    lemma_draw_parts_frame(parts, msgs, g0, k + 1, n, hh, 1, cc);
    let gp = draw_parts(parts, msgs, g0, n, hh);
    assert(gp[1][cc] == g4[1][cc]);
    // messages stay below the header row
    lemma_draw_parts_dims(parts, msgs, g0, n, hh, ww, hh);
    lemma_draw_msgs_frame(parts, msgs, gp, 0, m, 1, cc);
    assert(final_grid(parts, msgs)[1][cc] == gp[1][cc]);
}

/// For every alias, its label appears in the rendered frame: it stands in
/// the second row, inside its participant's header box. Stated for the
/// first alias binding its identifier, whose label the participant shows.
pub proof fn label_present(d: crate::parser::DiagV, j: int)
    requires
        crate::parser::diag_strings_le(d, crate::layout::MAX_TEXT as int),
        d.aliases.len() + d.messages.len() <= crate::layout::MAX_MESSAGES,
        0 <= j < d.aliases.len(),
        forall|t: int| 0 <= t < j ==> (#[trigger] d.aliases[t]).id != d.aliases[j].id,
    ensures
        ({
            let out = crate::renderer::spec_render_diag(d);
            let label = d.aliases[j].label;
            exists|off: int|
                0 <= off && off + label.len() <= out.len() && #[trigger] out.subrange(
                    off,
                    off + label.len(),
                ) == label
        }),
{
    let parts = crate::renderer::parts_spec(d);
    let msgs = crate::renderer::msgs_spec(d);
    let out = crate::renderer::spec_render_diag(d);
    let label = d.aliases[j].label;
    let id = d.aliases[j].id;
    let ms = crate::renderer::mentions(d);
    let ord = crate::renderer::ordered_ids(d);
    lemma_diag_bounded(d);
    assert(ms[j] == id);
    assert(ms.contains(id));
    crate::renderer::lemma_dedup_contains(ms, id);
    crate::renderer::lemma_first_index_exists(ord, id);
    let k = crate::renderer::first_index(ord, id);
    assert(parts[k].name == crate::renderer::label_of(d.aliases, id));
    lemma_label_first(d.aliases, j);
    assert(parts[k].name == label);
    let ww = canvas_width(parts, msgs);
    let hh = canvas_height(parts, msgs);
    let left = part_left(parts, msgs, k);
    let off = (ww + 1) + left + 2;
    lemma_pwidth(parts[k]);
    lemma_left_nonneg(parts, msgs, k);
    crate::layout::lemma_parts_max_ge(parts, msgs, k, parts.len() as int);
    lemma_max_right_nonneg(parts, msgs, parts.len() as int, msgs.len() as int);
    if msgs.len() > 0 {
        lemma_msg_top(msgs, msgs.len() as int);
    }
    render_rows_exact(parts, msgs);
    assert(out == spec_render(parts, msgs));
    assert(hh >= 6);
    assert(left + 2 + label.len() <= ww);
    assert(out.len() == hh * (ww + 1) - 1);
    assert(2 * (ww + 1) <= hh * (ww + 1)) by (nonlinear_arith)
        requires
            hh >= 2 && ww >= 0,
    ;
    assert(off + label.len() <= out.len());
    assert forall|t: int| 0 <= t < label.len() implies out[off + t] == label[t] by {
        lemma_label_cells(parts, msgs, k, t);
        assert(out[1 * (ww + 1) + (left + 2 + t)] == final_grid(parts, msgs)[1][left + 2 + t]);
        assert(off + t == 1 * (ww + 1) + (left + 2 + t));
    }
    assert(out.subrange(off, off + label.len()) =~= label);
}

/// The row a message's payload is drawn on.
pub open spec fn payload_row(msgs: Seq<MsgV>, i: int) -> int {
    msg_top(msgs, i) + if is_self_msg(msgs[i]) {
        1int
    } else {
        0int
    }
}

/// The column a message's payload starts at: beside the loop glyph, or
/// centered over the shaft.
pub open spec fn payload_col(parts: Seq<PartV>, msgs: Seq<MsgV>, i: int) -> int {
    crate::layout::msg_left(parts, msgs, i) + if is_self_msg(msgs[i]) {
        3int
    } else {
        (crate::layout::msg_width(parts, msgs, i) - msgs[i].payload.len()) / 2
    }
}

/// Messages keep their input order on the canvas: each message's payload
/// stands on its own row, and those rows grow strictly downward in input
/// order.
pub proof fn payloads_in_order(parts: Seq<PartV>, msgs: Seq<MsgV>, i: int)
    requires
        bounded_inputs(parts, msgs),
        parts.len() > 0,
        0 <= i < msgs.len(),
    ensures
        i + 1 < msgs.len() ==> payload_row(msgs, i) < payload_row(msgs, i + 1),
        ({
            let out = spec_render(parts, msgs);
            let ww = canvas_width(parts, msgs);
            let payload = msgs[i].payload;
            let off = payload_row(msgs, i) * (ww + 1) + payload_col(parts, msgs, i);
            &&& 0 <= off
            &&& off + payload.len() <= out.len()
            &&& out.subrange(off, off + payload.len()) == payload
        }),
{
    let ww = canvas_width(parts, msgs);
    let hh = canvas_height(parts, msgs);
    let g0 = blank_grid(ww, hh);
    let n = parts.len() as int;
    let m = msgs.len() as int;
    let out = spec_render(parts, msgs);
    let payload = msgs[i].payload;
    let top = msg_top(msgs, i);
    let left = crate::layout::msg_left(parts, msgs, i);
    let w = crate::layout::msg_width(parts, msgs, i);
    let prow = payload_row(msgs, i);
    let pcol = payload_col(parts, msgs, i);
    let mv = msgs[i];
    lemma_msg_top(msgs, i);
    lemma_msg_top(msgs, i + 1);
    lemma_msg_top(msgs, m);
    lemma_msg_top_mono(msgs, i + 1, m);
    crate::layout::lemma_mnat(mv);
    lemma_center_mono(parts, msgs, 0, crate::layout::lo_idx(mv));
    if !is_self_msg(mv) {
        crate::layout::lemma_msg_width(parts, msgs, i);
    }
    crate::layout::lemma_msgs_max_ge(parts, msgs, i, m);
    lemma_max_right_nonneg(parts, msgs, n, m);
    render_rows_exact(parts, msgs);
    assert(hh >= 6);
    assert(left + w <= ww - 1);
    assert(top + mheight(mv) <= hh - 3);
    assert(pcol + payload.len() <= left + w);
    assert(0 <= prow < hh - 1);
    // the cells the payload was written to survive every later draw
    assert(grid_dims(g0, ww, hh));
    lemma_draw_parts_dims(parts, msgs, g0, n, hh, ww, hh);
    let gp = draw_parts(parts, msgs, g0, n, hh);
    lemma_draw_msgs_dims(parts, msgs, gp, i, ww, hh);
    let g1 = draw_msgs(parts, msgs, gp, i);
    lemma_draw_msgs_dims(parts, msgs, gp, i + 1, ww, hh);
    let g2 = draw_msgs(parts, msgs, gp, i + 1);
    assert forall|t: int| 0 <= t < payload.len() implies g2[prow][pcol + t] == payload[t] by {
        if is_self_msg(mv) {
            let ga = blit(g1, left, top, crate::layout::loop_rows());
            let gb = blit(ga, left + 3, top + 1, seq![payload]);
            assert(gb[prow][pcol + t] == payload[t]);
            assert(g2 == gb);
        } else {
            let pad = (w - payload.len()) / 2;
            let ga = blit(g1, left + pad, top, seq![payload]);
            let gb = blit(
                ga,
                left,
                top + 1,
                seq![
                    crate::layout::arrow_row(w, mv.dashed, mv.source > mv.target),
                ],
            );
            assert(ga[prow][pcol + t] == payload[t]);
            assert(gb[prow][pcol + t] == ga[prow][pcol + t]);
            assert(g2 == gb);
        }
    }
    assert forall|t: int| 0 <= t < payload.len() implies final_grid(parts, msgs)[prow][pcol + t]
        == payload[t] by {
        lemma_draw_msgs_frame(parts, msgs, gp, i + 1, m, prow, pcol + t);
    }
    let off = prow * (ww + 1) + pcol;
    assert(0 <= prow * (ww + 1)) by (nonlinear_arith)
        requires
            prow >= 0 && ww >= 0,
    ;
    assert((prow + 1) * (ww + 1) <= hh * (ww + 1)) by (nonlinear_arith)
        requires
            prow + 1 <= hh && ww >= 0,
    ;
    assert((prow + 1) * (ww + 1) == prow * (ww + 1) + (ww + 1)) by (nonlinear_arith);
    assert(off + payload.len() <= out.len());
    assert forall|t: int| 0 <= t < payload.len() implies out[off + t] == payload[t] by {
        assert(out[prow * (ww + 1) + (pcol + t)] == final_grid(parts, msgs)[prow][pcol + t]);
    }
    assert(out.subrange(off, off + payload.len()) =~= payload);
}

/// Between header and footer, the leftmost participant's lifeline column
/// holds nothing but lifeline glyphs: no payload ever reaches it.
pub proof fn outer_lifeline_clear(parts: Seq<PartV>, msgs: Seq<MsgV>, r: int)
    requires
        bounded_inputs(parts, msgs),
        parts.len() > 0,
        3 <= r < canvas_height(parts, msgs) - 3,
    ensures
        ({
            let out = spec_render(parts, msgs);
            let ww = canvas_width(parts, msgs);
            let c0 = part_center(parts, msgs, 0);
            out[r * (ww + 1) + c0] == '\u{2502}'
        }),
{
    let ww = canvas_width(parts, msgs);
    let hh = canvas_height(parts, msgs);
    let g0 = blank_grid(ww, hh);
    let n = parts.len() as int;
    let m = msgs.len() as int;
    let c0 = part_center(parts, msgs, 0);
    let left = part_left(parts, msgs, 0);
    let w = pwidth(parts[0]);
    lemma_max_right_nonneg(parts, msgs, n, m);
    if m > 0 {
        lemma_msg_top(msgs, m);
    }
    lemma_pwidth(parts[0]);
    lemma_left_nonneg(parts, msgs, 0);
    crate::layout::lemma_parts_max_ge(parts, msgs, 0, n);
    assert(hh >= 6);
    assert(left + w <= ww - 1);
    assert(left <= c0 < left + w);
    assert(grid_dims(g0, ww, hh));
    let g1 = vline(g0, c0, hh);
    lemma_vline_dims(g0, c0, hh, ww, hh);
    lemma_vline_cells(g0, c0, hh, r, c0);
    assert(g1[r][c0] == '\u{2502}');
    let rows = box_rows(parts[0].name, w);
    let g2 = blit(g1, left, 0, rows);
    let g3 = blit(g2, left, hh - 3, rows);
    assert(g2[r][c0] == g1[r][c0]);
    assert(g3[r][c0] == g2[r][c0]);
    assert(draw_parts(parts, msgs, g0, 0, hh) == g0);
    assert(g3 == draw_parts(parts, msgs, g0, 1, hh));
    assert(part_left(parts, msgs, 1) >= left + w + 1);
    lemma_draw_parts_frame(parts, msgs, g0, 1, n, hh, r, c0);
    let gp = draw_parts(parts, msgs, g0, n, hh);
    assert(gp[r][c0] == '\u{2502}');
    lemma_draw_parts_dims(parts, msgs, g0, n, hh, ww, hh);
    lemma_draw_msgs_cols(parts, msgs, gp, m, r, c0);
    assert(final_grid(parts, msgs)[r][c0] == '\u{2502}');
    render_rows_exact(parts, msgs);
    assert(spec_render(parts, msgs)[r * (ww + 1) + c0] == final_grid(parts, msgs)[r][c0]);
}

} // verus!
