//! Turns a parsed diagram into a laid-out frame.
//!
//! Participants appear left to right in this order: first every participant
//! with an explicit alias, in alias order, then every remaining participant
//! in first-mention order across messages (source before target). Duplicate
//! identifiers keep their first occurrence. A participant's label is the
//! first alias bound to its identifier, or the identifier itself.

use crate::layout::{self, EdgeStyle, Layout, MsgV, PartV};
use crate::parser::{Alias, DiagV, SequenceDiagram};
use vstd::prelude::*;

verus! {

/// The mathematical values of a string list.
pub open spec fn strs_views(v: Seq<String>) -> Seq<Seq<char>> {
    Seq::new(v.len(), |i: int| v[i]@)
}

/// The identifiers a message list mentions: source then target of each
/// message, in order.
pub open spec fn msg_mentions(msgs: Seq<crate::parser::PMsgV>) -> Seq<Seq<char>>
    decreases msgs.len(),
{
    if msgs.len() == 0 {
        Seq::empty()
    } else {
        msg_mentions(msgs.drop_last()) + seq![msgs.last().source, msgs.last().target]
    }
}

/// Every identifier the diagram mentions: alias identifiers first, then
/// message endpoints.
pub open spec fn mentions(d: DiagV) -> Seq<Seq<char>> {
    Seq::new(d.aliases.len(), |i: int| d.aliases[i].id) + msg_mentions(d.messages)
}

/// `s` with duplicates dropped, keeping each element's first occurrence.
pub open spec fn dedup(s: Seq<Seq<char>>) -> Seq<Seq<char>>
    decreases s.len(),
{
    if s.len() == 0 {
        Seq::empty()
    } else {
        let r = dedup(s.drop_last());
        if r.contains(s.last()) {
            r
        } else {
            r.push(s.last())
        }
    }
}

/// The label bound to `id` by the first alias naming it, or `id` itself.
pub open spec fn label_of(aliases: Seq<crate::parser::AliasV>, id: Seq<char>) -> Seq<char>
    decreases aliases.len(),
{
    if aliases.len() == 0 {
        id
    } else if aliases[0].id == id {
        aliases[0].label
    } else {
        label_of(aliases.drop_first(), id)
    }
}

/// The first index of `x` in `s`, or `-1`.
pub open spec fn first_index(s: Seq<Seq<char>>, x: Seq<char>) -> int
    decreases s.len(),
{
    if s.len() == 0 {
        -1
    } else if s[0] == x {
        0
    } else {
        let r = first_index(s.drop_first(), x);
        if r < 0 {
            -1
        } else {
            r + 1
        }
    }
}

/// The diagram's ordered participant list.
pub open spec fn ordered_ids(d: DiagV) -> Seq<Seq<char>> {
    dedup(mentions(d))
}

/// The participants handed to the layout: ordered identifiers with their
/// labels.
pub open spec fn parts_spec(d: DiagV) -> Seq<PartV> {
    Seq::new(
        ordered_ids(d).len(),
        |i: int| PartV { id: ordered_ids(d)[i], name: label_of(d.aliases, ordered_ids(d)[i]) },
    )
}

/// The messages handed to the layout: endpoints replaced by participant
/// positions.
pub open spec fn msgs_spec(d: DiagV) -> Seq<MsgV> {
    Seq::new(
        d.messages.len(),
        |i: int|
            MsgV {
                source: first_index(ordered_ids(d), d.messages[i].source),
                target: first_index(ordered_ids(d), d.messages[i].target),
                payload: d.messages[i].payload,
                dashed: d.messages[i].dashed,
            },
    )
}

/// The frame a diagram renders to.
pub open spec fn spec_render_diag(d: DiagV) -> Seq<char> {
    layout::spec_render(parts_spec(d), msgs_spec(d))
}

/// Dropping duplicates never lengthens a list.
pub proof fn lemma_dedup_le(s: Seq<Seq<char>>)
    ensures
        dedup(s).len() <= s.len(),
    decreases s.len(),
{
    if s.len() > 0 {
        lemma_dedup_le(s.drop_last());
    }
}

/// Every element the deduplicated list holds, the list held.
pub proof fn lemma_dedup_elements(s: Seq<Seq<char>>, i: int)
    requires
        0 <= i < dedup(s).len(),
    ensures
        s.contains(dedup(s)[i]),
    decreases s.len(),
{
    if s.len() > 0 {
        let r = dedup(s.drop_last());
        if r.contains(s.last()) {
            lemma_dedup_elements(s.drop_last(), i);
            let j = choose|j: int| 0 <= j < s.drop_last().len() && s.drop_last()[j] == dedup(s)[i];
            assert(s[j] == dedup(s)[i]);
        } else {
            if i < r.len() {
                lemma_dedup_elements(s.drop_last(), i);
                let j = choose|j: int|
                    0 <= j < s.drop_last().len() && s.drop_last()[j] == dedup(s)[i];
                assert(s[j] == dedup(s)[i]);
            } else {
                assert(dedup(s)[i] == s.last());
                assert(s[s.len() - 1] == s.last());
            }
        }
    }
}

/// Dropping duplicates keeps membership.
pub proof fn lemma_dedup_contains(s: Seq<Seq<char>>, x: Seq<char>)
    ensures
        dedup(s).contains(x) <==> s.contains(x),
    decreases s.len(),
{
    if s.len() > 0 {
        lemma_dedup_contains(s.drop_last(), x);
        let r = dedup(s.drop_last());
        if s.contains(x) {
            let j = choose|j: int| 0 <= j < s.len() && s[j] == x;
            if j < s.len() - 1 {
                assert(s.drop_last()[j] == x);
                assert(s.drop_last().contains(x));
                if r.contains(s.last()) {
                } else {
                    let k = choose|k: int| 0 <= k < r.len() && r[k] == x;
                    assert(dedup(s)[k] == x);
                }
            } else {
                assert(s.last() == x);
                if r.contains(s.last()) {
                } else {
                    assert(dedup(s).last() == x);
                }
            }
            assert(dedup(s).contains(x));
        }
        if dedup(s).contains(x) {
            let j = choose|j: int| 0 <= j < dedup(s).len() && dedup(s)[j] == x;
            lemma_dedup_elements(s, j);
        }
    }
}

/// The conditions that pin down the first index of `x`.
pub proof fn lemma_first_index_char(s: Seq<Seq<char>>, x: Seq<char>, r: int)
    requires
        0 <= r < s.len(),
        s[r] == x,
        forall|j: int| 0 <= j < r ==> s[j] != x,
    ensures
        first_index(s, x) == r,
    decreases r,
{
    if r > 0 {
        lemma_first_index_char(s.drop_first(), x, r - 1);
    }
}

/// A present element has a first index.
pub proof fn lemma_first_index_exists(s: Seq<Seq<char>>, x: Seq<char>)
    requires
        s.contains(x),
    ensures
        0 <= first_index(s, x) < s.len(),
        s[first_index(s, x)] == x,
    decreases s.len(),
{
    if s[0] == x {
    } else {
        let j = choose|j: int| 0 <= j < s.len() && s[j] == x;
        assert(s.drop_first()[j - 1] == x);
        assert(s.drop_first().contains(x));
        lemma_first_index_exists(s.drop_first(), x);
    }
}

/// A label is as bounded as the identifiers and alias labels are.
pub proof fn lemma_label_le(aliases: Seq<crate::parser::AliasV>, id: Seq<char>, cap: int)
    requires
        forall|i: int| 0 <= i < aliases.len() ==> (#[trigger] aliases[i]).label.len() <= cap,
        id.len() <= cap,
    ensures
        label_of(aliases, id).len() <= cap,
    decreases aliases.len(),
{
    if aliases.len() > 0 && aliases[0].id != id {
        lemma_label_le(aliases.drop_first(), id, cap);
    }
}

/// Each message contributes two mentions.
pub proof fn lemma_msg_mentions_len(msgs: Seq<crate::parser::PMsgV>)
    ensures
        msg_mentions(msgs).len() == 2 * msgs.len(),
    decreases msgs.len(),
{
    if msgs.len() > 0 {
        lemma_msg_mentions_len(msgs.drop_last());
    }
}

/// Message mentions are as bounded as the endpoints are.
pub proof fn lemma_msg_mentions(msgs: Seq<crate::parser::PMsgV>, cap: int)
    requires
        forall|i: int|
            0 <= i < msgs.len() ==> (#[trigger] msgs[i]).source.len() <= cap
                && msgs[i].target.len() <= cap,
    ensures
        msg_mentions(msgs).len() == 2 * msgs.len(),
        forall|i: int|
            0 <= i < msg_mentions(msgs).len() ==> (#[trigger] msg_mentions(msgs)[i]).len() <= cap,
    decreases msgs.len(),
{
    if msgs.len() > 0 {
        lemma_msg_mentions(msgs.drop_last(), cap);
    }
}

/// A message's endpoints are among the mentions.
pub proof fn lemma_msg_mentions_has(msgs: Seq<crate::parser::PMsgV>, i: int)
    requires
        0 <= i < msgs.len(),
    ensures
        msg_mentions(msgs).contains(msgs[i].source),
        msg_mentions(msgs).contains(msgs[i].target),
    decreases msgs.len(),
{
    lemma_msg_mentions_len(msgs);
    lemma_msg_mentions_len(msgs.drop_last());
    if i == msgs.len() - 1 {
        let n = msg_mentions(msgs.drop_last()).len() as int;
        assert(msg_mentions(msgs)[n] == msgs[i].source);
        assert(msg_mentions(msgs)[n + 1] == msgs[i].target);
    } else {
        lemma_msg_mentions_has(msgs.drop_last(), i);
        let s1 = msg_mentions(msgs.drop_last());
        let js = choose|j: int| 0 <= j < s1.len() && s1[j] == msgs.drop_last()[i].source;
        assert(msg_mentions(msgs)[js] == msgs[i].source);
        let jt = choose|j: int| 0 <= j < s1.len() && s1[j] == msgs.drop_last()[i].target;
        assert(msg_mentions(msgs)[jt] == msgs[i].target);
    }
}

/// Whether `x` occurs in `v`.
fn contains_str(v: &Vec<String>, x: &String) -> (r: bool)
    ensures
        r == strs_views(v@).contains(x@),
{
    let n = v.len();
    for i in 0..n
        invariant
            n == v@.len(),
            forall|j: int| 0 <= j < i ==> strs_views(v@)[j] != x@,
    {
        if v[i] == *x {
            proof {
                assert(strs_views(v@)[i as int] == x@);
            }
            return true;
        }
    }
    proof {
        assert(forall|j: int| 0 <= j < strs_views(v@).len() ==> strs_views(v@)[j] != x@);
    }
    false
}

/// The label for `id`: the first alias naming it, or `id` itself.
fn find_label(aliases: &Vec<Alias>, id: &String) -> (r: String)
    ensures
        r@ == label_of(
            Seq::new(aliases@.len(), |i: int| aliases@[i]@),
            id@,
        ),
{
    let ghost av = Seq::new(aliases@.len(), |i: int| aliases@[i]@);
    let n = aliases.len();
    proof {
        assert(av.skip(0) =~= av);
    }
    for i in 0..n
        invariant
            n == aliases@.len(),
            av == Seq::new(aliases@.len(), |i: int| aliases@[i]@),
            label_of(av, id@) == label_of(av.skip(i as int), id@),
    {
        proof {
            assert(av[i as int] == aliases@[i as int]@);
            assert(av.skip(i as int)[0] == av[i as int]);
            assert(av.skip(i as int).drop_first() =~= av.skip(i + 1));
        }
        if aliases[i].id == *id {
            proof {
                assert(label_of(av, id@) == av[i as int].label);
            }
            return aliases[i].label.clone();
        }
    }
    proof {
        assert(av.skip(n as int) =~= Seq::<crate::parser::AliasV>::empty());
    }
    id.clone()
}

/// The position of `x` in `v`; it must be present.
fn find_index(v: &Vec<String>, x: &String) -> (r: usize)
    requires
        strs_views(v@).contains(x@),
    ensures
        r == first_index(strs_views(v@), x@),
{
    let n = v.len();
    for i in 0..n
        invariant
            n == v@.len(),
            forall|j: int| 0 <= j < i ==> strs_views(v@)[j] != x@,
    {
        if v[i] == *x {
            proof {
                assert(strs_views(v@)[i as int] == x@);
                lemma_first_index_char(strs_views(v@), x@, i as int);
            }
            return i;
        }
    }
    proof {
        assert(forall|j: int| 0 <= j < strs_views(v@).len() ==> strs_views(v@)[j] != x@);
        assert(false);
    }
    0
}

/// Render a parsed diagram: order the participants, bind their labels, hand
/// everything to the layout, and draw.
pub fn render(diag: SequenceDiagram) -> (r: String)
    requires
        crate::parser::diag_strings_le(diag@, layout::MAX_TEXT as int),
        diag@.aliases.len() + diag@.messages.len() <= layout::MAX_MESSAGES,
    ensures
        r@ == spec_render_diag(diag@),
{
    let ghost d = diag@;
    let na = diag.aliases.len();
    let nm = diag.messages.len();
    // gather every mentioned identifier, in order
    let mut names: Vec<String> = Vec::new();
    for i in 0..na
        invariant
            na == d.aliases.len(),
            nm == d.messages.len(),
            d == diag@,
            names@.len() == i,
            strs_views(names@) == Seq::new(i as nat, |j: int| d.aliases[j].id),
    {
        let idc = diag.aliases[i].id.clone();
        proof {
            assert(idc@ == d.aliases[i as int].id);
        }
        let ghost before = names@;
        let ghost idcv = idc;
        names.push(idc);
        proof {
            let nv = strs_views(names@);
            let goal = Seq::new((i + 1) as nat, |j: int| d.aliases[j].id);
            assert(names@ == before.push(idcv));
            assert forall|j: int| 0 <= j < nv.len() implies nv[j] == goal[j] by {
                if j < i {
                    assert(names@[j] == before[j]);
                    assert(strs_views(before)[j] == Seq::new(i as nat, |k: int| d.aliases[k].id)[j]);
                } else {
                    assert(names@[j] == idcv);
                }
            }
            assert(strs_views(names@) =~= goal);
        }
    }
    for i in 0..nm
        invariant
            na == d.aliases.len(),
            nm == d.messages.len(),
            d == diag@,
            names@.len() == na + 2 * i,
            strs_views(names@) == Seq::new(na as nat, |j: int| d.aliases[j].id) + msg_mentions(
                d.messages.take(i as int),
            ),
    {
        proof {
            lemma_msg_mentions_len(d.messages.take(i as int));
        }
        let ghost before = names@;
        let sc = diag.messages[i].source.clone();
        let tc = diag.messages[i].target.clone();
        proof {
            assert(sc@ == d.messages[i as int].source);
            assert(tc@ == d.messages[i as int].target);
        }
        let ghost scv = sc;
        let ghost tcv = tc;
        names.push(sc);
        names.push(tc);
        proof {
            assert(names@ == before.push(scv).push(tcv));
            lemma_msg_mentions_len(d.messages.take(i as int));
            lemma_msg_mentions_len(d.messages.take(i + 1));
            assert(d.messages.take(i + 1).drop_last() =~= d.messages.take(i as int));
            assert(d.messages.take(i + 1).last() == d.messages[i as int]);
            let prevm = msg_mentions(d.messages.take(i as int));
            let newm = msg_mentions(d.messages.take(i + 1));
            assert(newm == prevm + seq![
                d.messages[i as int].source,
                d.messages[i as int].target,
            ]);
            let aid = Seq::new(na as nat, |j: int| d.aliases[j].id);
            let nv = strs_views(names@);
            let goal = aid + newm;
            assert(strs_views(before) == aid + prevm);
            assert(before.len() == na + 2 * i);
            assert(nv.len() == before.len() + 2);
            assert forall|j: int| 0 <= j < nv.len() implies nv[j] == goal[j] by {
                if j < before.len() {
                    assert(names@[j] == before[j]);
                    assert(nv[j] == strs_views(before)[j]);
                    assert(strs_views(before)[j] == (aid + prevm)[j]);
                    if j < na {
                        assert(goal[j] == aid[j]);
                    } else {
                        assert((aid + prevm)[j] == prevm[j - na]);
                        assert(goal[j] == newm[j - na]);
                        assert(newm[j - na] == prevm[j - na]);
                    }
                } else if j == before.len() {
                    assert(names@[j] == scv);
                    assert(goal[j] == newm[j - na]);
                    assert(newm[j - na] == d.messages[i as int].source);
                } else {
                    assert(names@[j] == tcv);
                    assert(goal[j] == newm[j - na]);
                    assert(newm[j - na] == d.messages[i as int].target);
                }
            }
            assert(nv =~= goal);
        }
    }
    proof {
        assert(d.messages.take(nm as int) =~= d.messages);
        assert(strs_views(names@) =~= mentions(d));
    }
    // deduplicate, keeping first occurrences
    let nn = names.len();
    let mut ordered: Vec<String> = Vec::new();
    for i in 0..nn
        invariant
            nn == names@.len(),
            strs_views(names@) == mentions(d),
            strs_views(ordered@) == dedup(mentions(d).take(i as int)),
    {
        proof {
            assert(mentions(d).take(i + 1).drop_last() =~= mentions(d).take(i as int));
            assert(mentions(d).take(i + 1).last() == mentions(d)[i as int]);
            assert(names@[i as int]@ == mentions(d)[i as int]);
        }
        if !contains_str(&ordered, &names[i]) {
            ordered.push(names[i].clone());
            proof {
                assert(strs_views(ordered@) =~= dedup(mentions(d).take(i as int)).push(
                    mentions(d)[i as int],
                ));
            }
        }
    }
    proof {
        assert(mentions(d).take(nn as int) =~= mentions(d));
    }
    // build the layout
    let ghost parts = parts_spec(d);
    let ghost msgs = msgs_spec(d);
    proof {
        lemma_msg_mentions(d.messages, layout::MAX_TEXT as int);
        lemma_dedup_le(mentions(d));
        assert(mentions(d).len() == d.aliases.len() + 2 * d.messages.len());
    }
    let np = ordered.len();
    let mut lay = Layout::new();
    for k in 0..np
        invariant
            np == ordered@.len(),
            strs_views(ordered@) == ordered_ids(d),
            d == diag@,
            na == d.aliases.len(),
            crate::parser::diag_strings_le(d, layout::MAX_TEXT as int),
            ordered_ids(d).len() <= 2 * layout::MAX_MESSAGES,
            lay.wf(),
            lay.parts() == parts_spec(d).take(k as int),
            lay.msgs() == Seq::<MsgV>::empty(),
    {
        proof {
            lemma_dedup_elements(mentions(d), k as int);
            let j = choose|j: int|
                0 <= j < mentions(d).len() && mentions(d)[j] == ordered_ids(d)[k as int];
            lemma_msg_mentions(d.messages, layout::MAX_TEXT as int);
            assert(mentions(d)[j].len() <= layout::MAX_TEXT);
            lemma_label_le(d.aliases, ordered_ids(d)[k as int], layout::MAX_TEXT as int);
        }
        let name = find_label(&diag.aliases, &ordered[k]);
        let id = ordered[k].clone();
        lay.add_participant(layout::Participant { id, name });
        proof {
            assert(lay.parts() =~= parts_spec(d).take(k + 1));
        }
    }
    proof {
        assert(parts_spec(d).take(np as int) =~= parts_spec(d));
    }
    for i in 0..nm
        invariant
            nm == d.messages.len(),
            np == ordered@.len(),
            strs_views(ordered@) == ordered_ids(d),
            d == diag@,
            crate::parser::diag_strings_le(d, layout::MAX_TEXT as int),
            d.messages.len() <= layout::MAX_MESSAGES,
            lay.wf(),
            lay.parts() == parts_spec(d),
            lay.msgs() == msgs_spec(d).take(i as int),
    {
        proof {
            lemma_msg_mentions_has(d.messages, i as int);
            let mm = msg_mentions(d.messages);
            let js = choose|j: int| 0 <= j < mm.len() && mm[j] == d.messages[i as int].source;
            assert(mentions(d)[d.aliases.len() + js] == d.messages[i as int].source);
            assert(mentions(d).contains(d.messages[i as int].source));
            let jt = choose|j: int| 0 <= j < mm.len() && mm[j] == d.messages[i as int].target;
            assert(mentions(d)[d.aliases.len() + jt] == d.messages[i as int].target);
            assert(mentions(d).contains(d.messages[i as int].target));
            lemma_dedup_contains(mentions(d), d.messages[i as int].source);
            lemma_dedup_contains(mentions(d), d.messages[i as int].target);
            lemma_first_index_exists(ordered_ids(d), d.messages[i as int].source);
            lemma_first_index_exists(ordered_ids(d), d.messages[i as int].target);
        }
        let si = find_index(&ordered, &diag.messages[i].source);
        let ti = find_index(&ordered, &diag.messages[i].target);
        let payload = diag.messages[i].payload.clone();
        let style = diag.messages[i].edge_style;
        lay.add_message(layout::Message { source: si, target: ti, payload, edge_style: style });
        proof {
            assert(lay.msgs() =~= msgs_spec(d).take(i + 1));
        }
    }
    proof {
        assert(msgs_spec(d).take(nm as int) =~= msgs_spec(d));
    }
    lay.render()
}

} // verus!
