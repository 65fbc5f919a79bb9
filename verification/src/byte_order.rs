//! That a merge of the layers of a document hands out its events in the
//! order of the document's bytes, where the layers are those of nested
//! trees.

use vstd::prelude::*;
use crate::query_iter::{in_byte_order, lemma_sources_wf, sources, Move, Progress, Sources};
use crate::syntax::{injections_sorted, Injection, Layer, Syntax};
use crate::text_predicate::MatchedNode;

verus! {

/// The matches come in the order of their first bytes.
pub open spec fn matches_sorted(ms: Seq<MatchedNode>) -> bool {
    forall|a: int, b: int|
        0 <= a <= b < ms.len() ==> (#[trigger] ms[a]).node.start_byte <= (
        #[trigger] ms[b]).node.start_byte
}

/// One of the injections from index `from` on leads into the layer, holds
/// the byte `at`, and ends at `end` or behind it.
pub open spec fn held(is: Seq<Injection>, layer: int, from: int, at: u32, end: u32) -> bool {
    exists|k: int|
        from <= k < is.len() && (#[trigger] is[k]).layer.0 == layer && is[k].range.start_byte
            <= at < is[k].range.end_byte && end <= is[k].range.end_byte
}

/// Of what lies ahead in layer `l`, each match starts inside an injection
/// of the parent, from index `from` on, that leads into the layer, and each
/// injection lies inside one.
pub open spec fn layer_held(src: Sources, p: Progress, l: int, parent: int, from: int) -> bool {
    &&& forall|a: int|
        p.matches[l] <= a < src.matches[l].len() ==> held(
            src.injections[parent],
            l,
            from,
            (#[trigger] src.matches[l][a]).node.start_byte,
            src.matches[l][a].node.start_byte,
        )
    &&& forall|a: int|
        p.injections[l] <= a < src.injections[l].len() ==> held(
            src.injections[parent],
            l,
            from,
            (#[trigger] src.injections[l][a]).range.start_byte,
            src.injections[l][a].range.end_byte,
        )
}

/// What lies ahead in layer `l` starts at byte `at` or behind it.
pub open spec fn layer_ahead(src: Sources, p: Progress, l: int, at: u32) -> bool {
    &&& forall|a: int|
        p.matches[l] <= a < src.matches[l].len() ==> (#[trigger] src.matches[l][a]).node.start_byte
            >= at
    &&& forall|a: int|
        p.injections[l] <= a < src.injections[l].len() ==> (
        #[trigger] src.injections[l][a]).range.start_byte >= at
}

/// Layer `l` is that of a tree nested in its parent's: its matches and its
/// injections come in order, and each lies where the parent has an
/// injection into the layer.
pub open spec fn layer_nested(syntax: &Syntax, src: Sources, l: int) -> bool {
    &&& matches_sorted(src.matches[l])
    &&& injections_sorted(src.injections[l])
    &&& match syntax.layers@[l].parent {
        Some(parent) => layer_held(src, src.start(), l, parent.0 as int, 0),
        None => true,
    }
}

/// The layers are those of nested trees, and the root has no parent.
pub open spec fn nested(syntax: &Syntax, matches: Seq<Vec<MatchedNode>>) -> bool {
    &&& syntax.fits_together()
    &&& syntax.layers@[syntax.root.0 as int].parent is None
    &&& forall|l: int|
        0 <= l < syntax.layers@.len() ==> #[trigger] layer_nested(
            syntax,
            sources(syntax, matches),
            l,
        )
}

/// The layer around the injection that was entered as number `k`.
pub open spec fn below(root: Layer, entered: Seq<Injection>, k: int) -> Layer {
    if k <= 0 {
        root
    } else {
        entered[k - 1].layer
    }
}

/// The injection that was entered as number `k` is the last that the layer
/// around it gave, it lies inside the one that was entered before it, and
/// what lies ahead in the layer around it starts behind it.
pub open spec fn link(syntax: &Syntax, src: Sources, p: Progress, k: int) -> bool {
    let around = below(src.root, p.entered, k);
    let b = around.0 as int;
    let e = p.entered[k];
    &&& syntax.layers@[e.layer.0 as int].parent == Some(around)
    &&& 1 <= p.injections[b]
    &&& e == src.injections[b][p.injections[b] - 1]
    &&& layer_ahead(src, p, b, e.range.end_byte)
    &&& e.range.start_byte <= e.range.end_byte
    &&& k > 0 ==> p.entered[k - 1].range.start_byte <= e.range.start_byte && e.range.end_byte
        <= p.entered[k - 1].range.end_byte
}

/// No injection that was entered leads into layer `l`.
pub open spec fn apart(p: Progress, l: int) -> bool {
    forall|k: int| 0 <= k < p.entered.len() ==> (#[trigger] p.entered[k]).layer.0 != l
}

/// What lies ahead in a layer that the merge is not in lies where its
/// parent has an injection into it that lies ahead.
pub open spec fn waiting(syntax: &Syntax, src: Sources, p: Progress, l: int) -> bool {
    match syntax.layers@[l].parent {
        Some(parent) => apart(p, l) ==> layer_held(
            src,
            p,
            l,
            parent.0 as int,
            p.injections[parent.0 as int],
        ),
        None => true,
    }
}

/// The merge has come to byte `pos` in order: what lies ahead in its layer
/// starts at the byte or behind it, inside the injection that it is in.
pub open spec fn in_order(syntax: &Syntax, src: Sources, p: Progress, pos: u32) -> bool {
    &&& src.fits(p)
    &&& forall|k: int| 0 <= k < p.entered.len() ==> #[trigger] link(syntax, src, p, k)
    &&& forall|l: int| 0 <= l < syntax.layers@.len() ==> #[trigger] waiting(syntax, src, p, l)
    &&& layer_ahead(src, p, src.layer(p).0 as int, pos)
    &&& p.entered.len() > 0 ==> p.entered.last().range.start_byte <= pos
        <= p.entered.last().range.end_byte
}

/// No layer is entered while the merge is in it: the layers around the
/// injections that were entered differ from each other.
pub proof fn lemma_no_layer_twice(syntax: &Syntax, src: Sources, p: Progress, i: int, j: int)
    requires
        syntax.layers@[src.root.0 as int].parent is None,
        forall|k: int| 0 <= k < p.entered.len() ==> #[trigger] link(syntax, src, p, k),
        0 <= i < j <= p.entered.len(),
    ensures
        below(src.root, p.entered, i) != below(src.root, p.entered, j),
    decreases i,
{
    assert(link(syntax, src, p, j - 1));
    if i > 0 {
        assert(link(syntax, src, p, i - 1));
        lemma_no_layer_twice(syntax, src, p, i - 1, j - 1);
    }
}

/// An injection that holds a byte of the last injection that a layer gave
/// is that injection.
pub proof fn lemma_held_by_last(is: Seq<Injection>, layer: int, last: int, at: u32, end: u32)
    requires
        injections_sorted(is),
        0 <= last < is.len(),
        held(is, layer, 0, at, end),
        is[last].range.start_byte <= at < is[last].range.end_byte,
    ensures
        end <= is[last].range.end_byte,
{
    let k = choose|k: int|
        0 <= k < is.len() && (#[trigger] is[k]).layer.0 == layer && is[k].range.start_byte <= at
            < is[k].range.end_byte && end <= is[k].range.end_byte;
    if k < last {
        assert(is[k].range.end_byte <= is[last].range.start_byte);
    } else if last < k {
        assert(is[last].range.end_byte <= is[k].range.start_byte);
    }
}

/// What is held by an injection and starts behind the end of the
/// injection before index `from` is held by an injection from `from` on.
pub proof fn lemma_held_ahead(is: Seq<Injection>, layer: int, from: int, at: u32, end: u32)
    requires
        injections_sorted(is),
        1 <= from <= is.len(),
        held(is, layer, 0, at, end),
        is[from - 1].range.end_byte <= at,
    ensures
        held(is, layer, from, at, end),
{
    let k = choose|k: int|
        0 <= k < is.len() && (#[trigger] is[k]).layer.0 == layer && is[k].range.start_byte <= at
            < is[k].range.end_byte && end <= is[k].range.end_byte;
    if k < from - 1 {
        assert(is[k].range.end_byte <= is[from - 1].range.start_byte);
        assert(is[from - 1].range.start_byte <= is[from - 1].range.end_byte);
    }
    assert(from <= k);
}

/// What an injection from index `from` on holds starts at the start of
/// the injection at `from` or behind it.
pub proof fn lemma_held_starts(is: Seq<Injection>, layer: int, from: int, at: u32, end: u32)
    requires
        injections_sorted(is),
        0 <= from < is.len(),
        held(is, layer, from, at, end),
    ensures
        is[from].range.start_byte <= at,
        is[from].layer.0 != layer ==> held(is, layer, from + 1, at, end),
{
    let k = choose|k: int|
        from <= k < is.len() && (#[trigger] is[k]).layer.0 == layer && is[k].range.start_byte <= at
            < is[k].range.end_byte && end <= is[k].range.end_byte;
    if from < k {
        assert(is[from].range.end_byte <= is[k].range.start_byte);
        assert(is[from].range.start_byte <= is[from].range.end_byte);
    }
}

/// Passing over a match, or handing it out, keeps the order.
pub proof fn lemma_match_in_order(
    syntax: &Syntax,
    matches: Seq<Vec<MatchedNode>>,
    p: Progress,
    pos: u32,
)
    requires
        nested(syntax, matches),
        in_order(syntax, sources(syntax, matches), p, pos),
        sources(syntax, matches).next_move(p) is Skip || sources(syntax, matches).next_move(p)
            is Match,
    ensures
        sources(syntax, matches).pending_match(p) is Some,
        sources(syntax, matches).next_move(p) is Skip ==> in_order(
            syntax,
            sources(syntax, matches),
            sources(syntax, matches).after(p),
            pos,
        ),
        sources(syntax, matches).next_move(p) is Match ==> pos <= sources(
            syntax,
            matches,
        ).pending_match(p)->Some_0.node.start_byte && in_order(
            syntax,
            sources(syntax, matches),
            sources(syntax, matches).after(p),
            sources(syntax, matches).pending_match(p)->Some_0.node.start_byte,
        ),
{
    let src = sources(syntax, matches);
    lemma_sources_wf(syntax, matches);
    src.lemma_move(p);
    let q = src.after(p);
    let l = src.layer(p).0 as int;
    let m = src.pending_match(p)->Some_0;
    let at = if src.next_move(p) is Match {
        m.node.start_byte
    } else {
        pos
    };
    assert(m == src.matches[l][p.matches[l]]);
    assert(layer_nested(syntax, src, l));
    assert forall|k: int| 0 <= k < q.entered.len() implies #[trigger] link(syntax, src, q, k) by {
        assert(link(syntax, src, p, k));
    }
    assert forall|w: int| 0 <= w < syntax.layers@.len() implies #[trigger] waiting(
        syntax,
        src,
        q,
        w,
    ) by {
        assert(waiting(syntax, src, p, w));
    }
    if src.next_move(p) is Match {
        assert(layer_ahead(src, q, l, at)) by {
            assert forall|a: int| q.injections[l] <= a < src.injections[l].len() implies (
            #[trigger] src.injections[l][a]).range.start_byte >= at by {
                let first = src.injections[l][p.injections[l]];
                if p.injections[l] < a {
                    assert(first.range.end_byte <= src.injections[l][a].range.start_byte);
                }
            }
        }
    }
}

/// Entering an injection keeps the order.
pub proof fn lemma_enter_in_order(
    syntax: &Syntax,
    matches: Seq<Vec<MatchedNode>>,
    p: Progress,
    pos: u32,
)
    requires
        nested(syntax, matches),
        in_order(syntax, sources(syntax, matches), p, pos),
        sources(syntax, matches).next_move(p) is Enter,
    ensures
        sources(syntax, matches).pending_injection(p) is Some,
        pos <= sources(syntax, matches).pending_injection(p)->Some_0.range.start_byte,
        in_order(
            syntax,
            sources(syntax, matches),
            sources(syntax, matches).after(p),
            sources(syntax, matches).pending_injection(p)->Some_0.range.start_byte,
        ),
{
    let src = sources(syntax, matches);
    lemma_sources_wf(syntax, matches);
    src.lemma_move(p);
    let q = src.after(p);
    let n = p.entered.len() as int;
    let l = src.layer(p).0 as int;
    let from = p.injections[l];
    let i = src.pending_injection(p)->Some_0;
    let c = i.layer.0 as int;
    assert(i == src.injections[l][from]);
    assert(syntax.injection_fits(l, from));
    assert(layer_nested(syntax, src, l));
    assert(below(src.root, q.entered, n) == src.layer(p));
    // No layer around is the layer that gives the injection.
    assert forall|k: int| 0 <= k < n implies below(src.root, p.entered, k).0 != l by {
        lemma_no_layer_twice(syntax, src, p, k, n);
    }
    // The merge is not in the layer that it enters.
    assert(apart(p, c)) by {
        assert forall|k: int| 0 <= k < n implies (#[trigger] p.entered[k]).layer.0 != c by {
            assert(link(syntax, src, p, k));
        }
    }
    // The injection lies inside the one that the merge is in.
    if n > 0 {
        let around = p.entered[n - 1];
        assert(link(syntax, src, p, n - 1));
        let parent = below(src.root, p.entered, n - 1).0 as int;
        assert(layer_nested(syntax, src, parent));
        lemma_held_by_last(
            src.injections[parent],
            l,
            p.injections[parent] - 1,
            i.range.start_byte,
            i.range.end_byte,
        );
        assert(i.range.end_byte <= around.range.end_byte);
    }
    assert(layer_ahead(src, q, l, i.range.end_byte)) by {
        assert forall|a: int| q.injections[l] <= a < src.injections[l].len() implies (
        #[trigger] src.injections[l][a]).range.start_byte >= i.range.end_byte by {
            assert(src.injections[l][from].range.end_byte
                <= src.injections[l][a].range.start_byte);
        }
        assert forall|a: int| q.matches[l] <= a < src.matches[l].len() implies (
        #[trigger] src.matches[l][a]).node.start_byte >= i.range.end_byte by {
            let first = src.matches[l][p.matches[l]];
            assert(first.node.start_byte <= src.matches[l][a].node.start_byte);
        }
    }
    assert forall|k: int| 0 <= k < q.entered.len() implies #[trigger] link(syntax, src, q, k) by {
        if k < n {
            assert(link(syntax, src, p, k));
            assert(below(src.root, q.entered, k) == below(src.root, p.entered, k));
        }
    }
    assert forall|w: int| 0 <= w < syntax.layers@.len() implies #[trigger] waiting(
        syntax,
        src,
        q,
        w,
    ) by {
        assert(waiting(syntax, src, p, w));
        match syntax.layers@[w].parent {
            Some(parent) => {
                if apart(q, w) {
                    assert(apart(p, w)) by {
                        assert forall|k: int| 0 <= k < n implies (
                        #[trigger] p.entered[k]).layer.0 != w by {
                            assert(q.entered[k] == p.entered[k]);
                        }
                    }
                    assert(q.entered[n] == i);
                    assert(w != c);
                    if parent.0 as int == l {
                        assert forall|a: int| q.matches[w] <= a < src.matches[w].len() implies held(
                            src.injections[l],
                            w,
                            from + 1,
                            (#[trigger] src.matches[w][a]).node.start_byte,
                            src.matches[w][a].node.start_byte,
                        ) by {
                            lemma_held_starts(
                                src.injections[l],
                                w,
                                from,
                                src.matches[w][a].node.start_byte,
                                src.matches[w][a].node.start_byte,
                            );
                        }
                        assert forall|a: int|
                            q.injections[w] <= a < src.injections[w].len() implies held(
                            src.injections[l],
                            w,
                            from + 1,
                            (#[trigger] src.injections[w][a]).range.start_byte,
                            src.injections[w][a].range.end_byte,
                        ) by {
                            lemma_held_starts(
                                src.injections[l],
                                w,
                                from,
                                src.injections[w][a].range.start_byte,
                                src.injections[w][a].range.end_byte,
                            );
                        }
                    }
                }
            },
            None => {},
        }
    }
    assert(layer_ahead(src, q, c, i.range.start_byte)) by {
        assert(waiting(syntax, src, p, c));
        assert forall|a: int| q.matches[c] <= a < src.matches[c].len() implies (
        #[trigger] src.matches[c][a]).node.start_byte >= i.range.start_byte by {
            lemma_held_starts(
                src.injections[l],
                c,
                from,
                src.matches[c][a].node.start_byte,
                src.matches[c][a].node.start_byte,
            );
        }
        assert forall|a: int| q.injections[c] <= a < src.injections[c].len() implies (
        #[trigger] src.injections[c][a]).range.start_byte >= i.range.start_byte by {
            lemma_held_starts(
                src.injections[l],
                c,
                from,
                src.injections[c][a].range.start_byte,
                src.injections[c][a].range.end_byte,
            );
        }
    }
}

/// Leaving an injection keeps the order.
pub proof fn lemma_exit_in_order(
    syntax: &Syntax,
    matches: Seq<Vec<MatchedNode>>,
    p: Progress,
    pos: u32,
)
    requires
        nested(syntax, matches),
        in_order(syntax, sources(syntax, matches), p, pos),
        sources(syntax, matches).next_move(p) is Exit,
    ensures
        p.entered.len() > 0,
        pos <= p.entered.last().range.end_byte,
        in_order(
            syntax,
            sources(syntax, matches),
            sources(syntax, matches).after(p),
            p.entered.last().range.end_byte,
        ),
{
    let src = sources(syntax, matches);
    lemma_sources_wf(syntax, matches);
    src.lemma_move(p);
    let q = src.after(p);
    let n = p.entered.len() as int;
    let r = p.entered[n - 1];
    let c = r.layer.0 as int;
    let l = below(src.root, p.entered, n - 1).0 as int;
    let from = p.injections[l];
    assert(link(syntax, src, p, n - 1));
    assert(layer_nested(syntax, src, c));
    assert(layer_nested(syntax, src, l));
    assert(src.layer(q) == below(src.root, p.entered, n - 1));
    assert forall|k: int| 0 <= k < q.entered.len() implies #[trigger] link(syntax, src, q, k) by {
        assert(link(syntax, src, p, k));
        assert(below(src.root, q.entered, k) == below(src.root, p.entered, k));
    }
    // What lies ahead in the layer that is left starts behind the injection.
    assert(layer_ahead(src, p, c, r.range.end_byte)) by {
        assert forall|a: int| p.matches[c] <= a < src.matches[c].len() implies (
        #[trigger] src.matches[c][a]).node.start_byte >= r.range.end_byte by {
            let first = src.matches[c][p.matches[c]];
            assert(first.node.start_byte <= src.matches[c][a].node.start_byte);
        }
        assert forall|a: int| p.injections[c] <= a < src.injections[c].len() implies (
        #[trigger] src.injections[c][a]).range.start_byte >= r.range.end_byte by {
            let first = src.injections[c][p.injections[c]];
            if p.injections[c] < a {
                assert(first.range.end_byte <= src.injections[c][a].range.start_byte);
            }
        }
    }
    assert forall|w: int| 0 <= w < syntax.layers@.len() implies #[trigger] waiting(
        syntax,
        src,
        q,
        w,
    ) by {
        assert(waiting(syntax, src, p, w));
        match syntax.layers@[w].parent {
            Some(parent) => {
                if apart(q, w) {
                    if w == c {
                        assert(parent.0 as int == l);
                        assert forall|a: int| q.matches[w] <= a < src.matches[w].len() implies held(
                            src.injections[l],
                            w,
                            from,
                            (#[trigger] src.matches[w][a]).node.start_byte,
                            src.matches[w][a].node.start_byte,
                        ) by {
                            lemma_held_ahead(
                                src.injections[l],
                                w,
                                from,
                                src.matches[w][a].node.start_byte,
                                src.matches[w][a].node.start_byte,
                            );
                        }
                        assert forall|a: int|
                            q.injections[w] <= a < src.injections[w].len() implies held(
                            src.injections[l],
                            w,
                            from,
                            (#[trigger] src.injections[w][a]).range.start_byte,
                            src.injections[w][a].range.end_byte,
                        ) by {
                            lemma_held_ahead(
                                src.injections[l],
                                w,
                                from,
                                src.injections[w][a].range.start_byte,
                                src.injections[w][a].range.end_byte,
                            );
                        }
                    } else {
                        assert(apart(p, w)) by {
                            assert forall|k: int| 0 <= k < n implies (
                            #[trigger] p.entered[k]).layer.0 != w by {
                                if k < n - 1 {
                                    assert(q.entered[k] == p.entered[k]);
                                }
                            }
                        }
                    }
                }
            },
            None => {},
        }
    }
}

/// From wherever a merge stands in order, its events come in the order of
/// their bytes, at the byte that it has come to or behind it.
pub proof fn lemma_merge_in_order(
    syntax: &Syntax,
    matches: Seq<Vec<MatchedNode>>,
    p: Progress,
    pos: u32,
    a: int,
    b: int,
)
    requires
        nested(syntax, matches),
        in_order(syntax, sources(syntax, matches), p, pos),
        0 <= a <= b < sources(syntax, matches).events_from(p).len(),
    ensures
        pos <= sources(syntax, matches).events_from(p)[a].spec_start_byte(),
        sources(syntax, matches).events_from(p)[a].spec_start_byte() <= sources(
            syntax,
            matches,
        ).events_from(p)[b].spec_start_byte(),
    decreases sources(syntax, matches).left(p),
{
    let src = sources(syntax, matches);
    lemma_sources_wf(syntax, matches);
    src.lemma_move(p);
    let q = src.after(p);
    match src.next_move(p) {
        Move::Done => {},
        Move::Skip => {
            lemma_match_in_order(syntax, matches, p, pos);
            lemma_merge_in_order(syntax, matches, q, pos, a, b);
        },
        _ => {
            if src.next_move(p) is Match {
                lemma_match_in_order(syntax, matches, p, pos);
            } else if src.next_move(p) is Enter {
                lemma_enter_in_order(syntax, matches, p, pos);
            } else {
                lemma_exit_in_order(syntax, matches, p, pos);
            }
            let first = src.emitted(p)->Some_0;
            let rest = src.events_from(q);
            let at = first.spec_start_byte();
            assert(src.events_from(p) == seq![first] + rest);
            if a > 0 {
                lemma_merge_in_order(syntax, matches, q, at, a - 1, b - 1);
            } else if b > 0 {
                lemma_merge_in_order(syntax, matches, q, at, b - 1, b - 1);
            }
        },
    }
}

/// The events of a merge come in the order of the document's bytes, where
/// the layers are those of nested trees.
pub proof fn lemma_events_in_byte_order(syntax: &Syntax, matches: Seq<Vec<MatchedNode>>)
    requires
        nested(syntax, matches),
    ensures
        in_byte_order(sources(syntax, matches).events()),
{
    let src = sources(syntax, matches);
    lemma_sources_wf(syntax, matches);
    let p = src.start();
    let events = src.events();
    assert forall|l: int| 0 <= l < syntax.layers@.len() implies #[trigger] waiting(
        syntax,
        src,
        p,
        l,
    ) by {
        assert(layer_nested(syntax, src, l));
    }
    assert forall|i: int, j: int| 0 <= i <= j < events.len() implies (
    #[trigger] events[i]).spec_start_byte() <= (#[trigger] events[j]).spec_start_byte() by {
        lemma_merge_in_order(syntax, matches, p, 0, i, j);
    }
}

} // verus!
