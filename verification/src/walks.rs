//! What the summaries to the outputs of the scope are: the least summaries of
//! the walks back from the outputs.
//!
//! A walk back starts at an output of the scope (an input port of node 0) that
//! an edge leads to, with the summary of the empty path. From an input port it
//! goes to the output port that feeds it, and keeps its summary; from an output
//! port it goes to an input port of the same node, and its summary becomes
//! that of a path inside the node followed by it.
use vstd::prelude::*;
use crate::order::{PartialOrder, PathSummary, Timestamp};
use crate::antichain::{dominated, inserted, not_above};
use crate::location::{Location, Port, Source, Target};
use crate::graph::{shaped, sized, is_port, edges_closed};
use crate::summarize::{
    Survey, padded, prepared, offered, backed, feeders, exits, survey_step, survey_run, survey_start,
    surveyed_after, surveyed, survey_fits, feeders_fit, antichains, lemma_offered_fits,
    lemma_survey_run_fits, lemma_feeders_fit, lemma_exits_fit,
};
use crate::surveying::lemma_survey_lawful;

verus! {

/// The output `o` of the scope: the input port `o` of node 0.
pub open spec fn scope_output(o: usize) -> Location {
    Location { node: 0, port: Port::Target(o) }
}

/// A walk back starts at `l` for the output `o` of the scope with the summary
/// `s`: `l` is that output, an edge leads to it, and `s` is the summary of the
/// empty path.
pub open spec fn starts<T: Timestamp>(reverse: Map<Location, Source>, l: Location, o: usize, s: T::Summary)
    -> bool {
    l == scope_output(o) && s == T::Summary::identity() && reverse.dom().contains(l)
}

/// One hop further back: from an input port to the output port that feeds
/// it, with the same summary; from an output port to an input port of its
/// node, with the summary of a path inside the node followed by the summary so
/// far.
pub open spec fn hop<T: Timestamp>(
    nodes: Seq<Seq<Seq<Seq<T::Summary>>>>,
    reverse: Map<Location, Source>,
    a: (Location, T::Summary),
    b: (Location, T::Summary),
) -> bool {
    match a.0.port {
        Port::Target(_) => reverse.dom().contains(a.0) && b.0 == Location::of_source(reverse[a.0]) && b.1
            == a.1,
        Port::Source(j) => b.0.node == a.0.node && b.0.port is Target && a.0.node < nodes.len()
            && b.0.port->Target_0 < nodes[a.0.node as int].len() && j
            < nodes[a.0.node as int][b.0.port->Target_0 as int].len() && exists|k: int|
            0 <= k < nodes[a.0.node as int][b.0.port->Target_0 as int][j as int].len() && (
            #[trigger] nodes[a.0.node as int][b.0.port->Target_0 as int][j as int][k]).compose(a.1)
                == Some(b.1),
    }
}

/// `trail` is a walk back from the output `o` of the scope: the ports it
/// comes by, each with the summary of the way from it to the output.
pub open spec fn is_trail<T: Timestamp>(
    nodes: Seq<Seq<Seq<Seq<T::Summary>>>>,
    reverse: Map<Location, Source>,
    o: usize,
    trail: Seq<(Location, T::Summary)>,
) -> bool {
    &&& trail.len() > 0
    &&& starts::<T>(reverse, trail[0].0, o, trail[0].1)
    &&& forall|a: int| 0 <= a < trail.len() - 1 ==> hop::<T>(nodes, reverse, #[trigger] trail[a], trail[a + 1])
}

/// `s` is the summary of a walk back from the output `o` of the scope to the
/// port `l`.
pub open spec fn is_walk_back<T: Timestamp>(
    nodes: Seq<Seq<Seq<Seq<T::Summary>>>>,
    reverse: Map<Location, Source>,
    l: Location,
    o: usize,
    s: T::Summary,
) -> bool {
    exists|trail: Seq<(Location, T::Summary)>| #[trigger]
        is_trail::<T>(nodes, reverse, o, trail) && trail.last() == (l, s)
}

/// A walk back goes on by a hop.
pub proof fn lemma_trail_push<T: Timestamp>(
    nodes: Seq<Seq<Seq<Seq<T::Summary>>>>,
    reverse: Map<Location, Source>,
    o: usize,
    trail: Seq<(Location, T::Summary)>,
    next: (Location, T::Summary),
)
    requires
        is_trail::<T>(nodes, reverse, o, trail),
        hop::<T>(nodes, reverse, trail.last(), next),
    ensures
        is_trail::<T>(nodes, reverse, o, trail.push(next)),
        is_walk_back::<T>(nodes, reverse, next.0, o, next.1),
{
    let longer = trail.push(next);
    assert forall|a: int| 0 <= a < longer.len() - 1 implies hop::<T>(
        nodes,
        reverse,
        #[trigger] longer[a],
        longer[a + 1],
    ) by {
        if a < trail.len() - 1 {
            assert(longer[a] == trail[a] && longer[a + 1] == trail[a + 1]);
        } else {
            assert(longer[a] == trail.last() && longer[a + 1] == next);
        }
    }
    assert(longer[0] == trail[0]);
    assert(longer.last() == next);
    assert(is_trail::<T>(nodes, reverse, o, longer));
}

/// A summary found for the port `l` and the output `o` is less than or equal
/// to `c`.
pub open spec fn covered<S: PartialOrder>(found: Map<Location, Seq<Seq<S>>>, l: Location, o: usize, c: S)
    -> bool {
    found.dom().contains(l) && o < found[l].len() && dominated(found[l][o as int], c)
}

/// Whatever is covered in `first` is covered in `second`.
pub open spec fn grown<S: PartialOrder>(
    first: Map<Location, Seq<Seq<S>>>,
    second: Map<Location, Seq<Seq<S>>>,
) -> bool {
    forall|l: Location, o: usize, c: S| covered(first, l, o, c) ==> #[trigger] covered(second, l, o, c)
}

/// Every hop further back from `l` with `s` is covered.
pub open spec fn closed<T: Timestamp>(
    nodes: Seq<Seq<Seq<Seq<T::Summary>>>>,
    reverse: Map<Location, Source>,
    found: Map<Location, Seq<Seq<T::Summary>>>,
    l: Location,
    o: usize,
    s: T::Summary,
) -> bool {
    match l.port {
        Port::Source(j) => forall|i: int, k: int|
            0 <= i < nodes[l.node as int].len() && 0 <= k < nodes[l.node as int][i][j as int].len() && (
            #[trigger] nodes[l.node as int][i][j as int][k]).compose(s) is Some ==> covered(
                found,
                Location { node: l.node, port: Port::Target(i as usize) },
                o,
                nodes[l.node as int][i][j as int][k].compose(s).unwrap(),
            ),
        Port::Target(_) => reverse.dom().contains(l) ==> covered(
            found,
            Location::of_source(reverse[l]),
            o,
            s,
        ),
    }
}

/// `s` was found for the port `l` and the output `o`.
pub open spec fn held<S>(
    nodes: Seq<Seq<Seq<Seq<S>>>>,
    edges: Seq<Seq<Seq<Target>>>,
    found: Map<Location, Seq<Seq<S>>>,
    l: Location,
    o: usize,
    s: S,
) -> bool {
    is_port(nodes, edges, l) && o < found[l].len() && found[l][o as int].contains(s)
}

/// What was found and what is queued are summaries of walks back.
pub open spec fn sound<T: Timestamp>(
    nodes: Seq<Seq<Seq<Seq<T::Summary>>>>,
    edges: Seq<Seq<Seq<Target>>>,
    reverse: Map<Location, Source>,
    st: Survey<T::Summary>,
) -> bool {
    &&& forall|l: Location, o: usize, s: T::Summary| #[trigger]
        held(nodes, edges, st.found, l, o, s) ==> is_walk_back::<T>(nodes, reverse, l, o, s)
    &&& forall|a: int|
        0 <= a < st.queue.len() ==> is_walk_back::<T>(
            nodes,
            reverse,
            (#[trigger] st.queue[a]).0,
            st.queue[a].1,
            st.queue[a].2,
        )
}

/// Each summary that was found, and each with which a walk back starts, is
/// queued or closed, but for `e`.
pub open spec fn tended<T: Timestamp>(
    nodes: Seq<Seq<Seq<Seq<T::Summary>>>>,
    edges: Seq<Seq<Seq<Target>>>,
    reverse: Map<Location, Source>,
    st: Survey<T::Summary>,
    e: Option<(Location, usize, T::Summary)>,
) -> bool {
    forall|l: Location, o: usize, s: T::Summary|
        #![trigger held(nodes, edges, st.found, l, o, s)]
        #![trigger starts::<T>(reverse, l, o, s)]
        (held(nodes, edges, st.found, l, o, s) || starts::<T>(reverse, l, o, s)) ==> e == Some((l, o, s))
            || st.queue.contains((l, o, s)) || closed::<T>(nodes, reverse, st.found, l, o, s)
}

/// What is dominated stays dominated as an element is offered.
pub proof fn lemma_inserted_grows<S: PartialOrder>(f: Seq<S>, e: S, x: S)
    requires
        dominated(f, x),
    ensures
        dominated(inserted(f, e), x),
{
    if !dominated(f, e) {
        let kept = f.filter(not_above(e));
        let all = kept.push(e);
        let i = choose|i: int| 0 <= i < f.len() && (#[trigger] f[i]).leq(x);
        if e.leq(f[i]) {
            S::le_transitive(e, f[i], x);
            assert(all[kept.len() as int] == e);
        } else {
            assert(not_above(e)(f[i]));
            f.lemma_filter_contains(not_above(e), i);
            let k = kept.index_of(f[i]);
            assert(all[k] == f[i]);
        }
    }
}

/// What is offered is dominated afterwards, and what is held afterwards was
/// held before or is what was offered.
pub proof fn lemma_inserted_holds<S: PartialOrder>(f: Seq<S>, e: S)
    ensures
        dominated(inserted(f, e), e),
        forall|x: S| inserted(f, e).contains(x) ==> f.contains(x) || (x == e && !dominated(f, e)),
{
    S::le_reflexive(e);
    if !dominated(f, e) {
        let kept = f.filter(not_above(e));
        let all = kept.push(e);
        assert(all[kept.len() as int] == e);
        assert forall|x: S| all.contains(x) implies f.contains(x) || x == e by {
            let i = all.index_of(x);
            if i < kept.len() {
                assert(kept[i] == x);
                assert(kept.contains(x));
                f.lemma_filter_contains_rev(not_above(e), x);
            }
        }
    }
}

/// What making room for an output at a port and offering a summary there
/// does: what was covered stays covered, the summary is covered, what is held
/// was held or is the summary, which is then queued, and nothing leaves the
/// queue.
pub proof fn lemma_offered_effects<S: PartialOrder>(
    nodes: Seq<Seq<Seq<Seq<S>>>>,
    edges: Seq<Seq<Seq<Target>>>,
    st: Survey<S>,
    loc: Location,
    output: usize,
    c: S,
)
    requires
        survey_fits(nodes, edges, st),
        is_port(nodes, edges, loc),
        output < nodes[0].len(),
    ensures
        grown(st.found, offered(prepared(st, loc, output), loc, output, c).found),
        covered(offered(prepared(st, loc, output), loc, output, c).found, loc, output, c),
        forall|l: Location, o: usize, s: S| #[trigger]
            held(nodes, edges, offered(prepared(st, loc, output), loc, output, c).found, l, o, s) ==> held(
                nodes,
                edges,
                st.found,
                l,
                o,
                s,
            ) || ((l, o, s) == (loc, output, c) && offered(
                prepared(st, loc, output),
                loc,
                output,
                c,
            ).queue.contains((loc, output, c))),
        forall|x: (Location, usize, S)|
            st.queue.contains(x) ==> offered(prepared(st, loc, output), loc, output, c).queue.contains(x),
        forall|x: (Location, usize, S)|
            offered(prepared(st, loc, output), loc, output, c).queue.contains(x) ==> st.queue.contains(x)
                || x == (loc, output, c),
{
    let ready = prepared(st, loc, output);
    let after = offered(ready, loc, output, c);
    let row0 = st.found[loc];
    let row = ready.found[loc];
    assert(row == padded(row0, output + 1));
    assert forall|o: int| 0 <= o < row.len() implies row[o] == if o < row0.len() {
        row0[o]
    } else {
        Seq::<S>::empty()
    } by {
        if row0.len() < output + 1 && o >= row0.len() {
            assert(row[o] =~= Seq::<S>::empty());
        }
    }
    lemma_inserted_holds(row[output as int], c);
    assert forall|l: Location, o: usize, x: S| covered(st.found, l, o, x) implies #[trigger] covered(
        after.found,
        l,
        o,
        x,
    ) by {
        if l == loc {
            assert(row[o as int] == row0[o as int]);
            if o == output {
                lemma_inserted_grows(row[output as int], c, x);
            }
        }
    }
    assert forall|l: Location, o: usize, s: S| #[trigger]
        held(nodes, edges, after.found, l, o, s) implies held(nodes, edges, st.found, l, o, s) || ((l, o, s)
        == (loc, output, c) && after.queue.contains((loc, output, c))) by {
        if l == loc {
            if o == output {
                if !dominated(row[output as int], c) {
                    assert(after.queue[ready.queue.len() as int] == (loc, output, c));
                }
                if o >= row0.len() {
                    assert(row[o as int] =~= Seq::<S>::empty());
                    if row[o as int].contains(s) {
                        let i = row[o as int].index_of(s);
                    }
                }
            } else {
                assert(after.found[l][o as int] == row[o as int]);
                if o >= row0.len() {
                    if row[o as int].contains(s) {
                        let i = row[o as int].index_of(s);
                    }
                }
            }
        }
    }
    assert forall|x: (Location, usize, S)| st.queue.contains(x) implies after.queue.contains(x) by {
        let i = st.queue.index_of(x);
        assert(after.queue[i] == x);
    }
    assert forall|x: (Location, usize, S)| after.queue.contains(x) implies st.queue.contains(x) || x == (
        loc,
        output,
        c,
    ) by {
        let i = after.queue.index_of(x);
        if i < st.queue.len() {
            assert(st.queue[i] == x);
        }
    }
}

/// What is closed stays closed as more is covered.
pub proof fn lemma_closed_grows<T: Timestamp>(
    nodes: Seq<Seq<Seq<Seq<T::Summary>>>>,
    reverse: Map<Location, Source>,
    first: Map<Location, Seq<Seq<T::Summary>>>,
    second: Map<Location, Seq<Seq<T::Summary>>>,
    l: Location,
    o: usize,
    s: T::Summary,
)
    requires
        grown(first, second),
        closed::<T>(nodes, reverse, first, l, o, s),
    ensures
        closed::<T>(nodes, reverse, second, l, o, s),
{
    match l.port {
        Port::Source(j) => {
            assert forall|i: int, k: int|
                0 <= i < nodes[l.node as int].len() && 0 <= k < nodes[l.node as int][i][j as int].len() && (
                #[trigger] nodes[l.node as int][i][j as int][k]).compose(s) is Some implies covered(
                second,
                Location { node: l.node, port: Port::Target(i as usize) },
                o,
                nodes[l.node as int][i][j as int][k].compose(s).unwrap(),
            ) by {
                assert(covered(
                    first,
                    Location { node: l.node, port: Port::Target(i as usize) },
                    o,
                    nodes[l.node as int][i][j as int][k].compose(s).unwrap(),
                ));
            }
        },
        Port::Target(_) => {
            if reverse.dom().contains(l) {
                assert(covered(first, Location::of_source(reverse[l]), o, s));
            }
        },
    }
}

/// Offering the summary of a walk back keeps what is found and queued sound
/// and tended.
pub proof fn lemma_offered_walks<T: Timestamp>(
    nodes: Seq<Seq<Seq<Seq<T::Summary>>>>,
    edges: Seq<Seq<Seq<Target>>>,
    reverse: Map<Location, Source>,
    st: Survey<T::Summary>,
    loc: Location,
    output: usize,
    c: T::Summary,
    e: Option<(Location, usize, T::Summary)>,
)
    requires
        survey_fits(nodes, edges, st),
        is_port(nodes, edges, loc),
        output < nodes[0].len(),
        sound::<T>(nodes, edges, reverse, st),
        tended::<T>(nodes, edges, reverse, st, e),
        is_walk_back::<T>(nodes, reverse, loc, output, c),
    ensures
        sound::<T>(nodes, edges, reverse, offered(prepared(st, loc, output), loc, output, c)),
        tended::<T>(nodes, edges, reverse, offered(prepared(st, loc, output), loc, output, c), e),
{
    let after = offered(prepared(st, loc, output), loc, output, c);
    lemma_offered_effects(nodes, edges, st, loc, output, c);
    assert forall|l: Location, o: usize, s: T::Summary| #[trigger]
        held(nodes, edges, after.found, l, o, s) implies is_walk_back::<T>(nodes, reverse, l, o, s) by {
        if held(nodes, edges, st.found, l, o, s) {
        }
    }
    assert forall|a: int| 0 <= a < after.queue.len() implies is_walk_back::<T>(
        nodes,
        reverse,
        (#[trigger] after.queue[a]).0,
        after.queue[a].1,
        after.queue[a].2,
    ) by {
        let x = after.queue[a];
        assert(after.queue.contains(x));
        if st.queue.contains(x) {
            let i = st.queue.index_of(x);
            assert(st.queue[i] == x);
        }
    }
    assert forall|l: Location, o: usize, s: T::Summary|
        #![trigger held(nodes, edges, after.found, l, o, s)]
        #![trigger starts::<T>(reverse, l, o, s)]
        (held(nodes, edges, after.found, l, o, s) || starts::<T>(reverse, l, o, s)) implies e == Some(
        (l, o, s),
    ) || after.queue.contains((l, o, s)) || closed::<T>(nodes, reverse, after.found, l, o, s) by {
        if held(nodes, edges, st.found, l, o, s) || starts::<T>(reverse, l, o, s) {
            if closed::<T>(nodes, reverse, st.found, l, o, s) {
                lemma_closed_grows::<T>(nodes, reverse, st.found, after.found, l, o, s);
            }
        }
    }
}

/// Making room for an output at a port keeps what is found and queued, sound
/// and tended.
pub proof fn lemma_prepared_walks<T: Timestamp>(
    nodes: Seq<Seq<Seq<Seq<T::Summary>>>>,
    edges: Seq<Seq<Seq<Target>>>,
    reverse: Map<Location, Source>,
    st: Survey<T::Summary>,
    loc: Location,
    output: usize,
    e: Option<(Location, usize, T::Summary)>,
)
    requires
        survey_fits(nodes, edges, st),
        is_port(nodes, edges, loc),
        output < nodes[0].len(),
        sound::<T>(nodes, edges, reverse, st),
        tended::<T>(nodes, edges, reverse, st, e),
    ensures
        grown(st.found, prepared(st, loc, output).found),
        sound::<T>(nodes, edges, reverse, prepared(st, loc, output)),
        tended::<T>(nodes, edges, reverse, prepared(st, loc, output), e),
{
    let ready = prepared(st, loc, output);
    let row0 = st.found[loc];
    let row = ready.found[loc];
    assert forall|o: int| 0 <= o < row.len() implies row[o] == if o < row0.len() {
        row0[o]
    } else {
        Seq::<T::Summary>::empty()
    } by {
        if row0.len() < output + 1 && o >= row0.len() {
            assert(row[o] =~= Seq::<T::Summary>::empty());
        }
    }
    assert forall|l: Location, o: usize, x: T::Summary| covered(st.found, l, o, x) implies #[trigger] covered(
        ready.found,
        l,
        o,
        x,
    ) by {
        if l == loc {
            assert(row[o as int] == row0[o as int]);
        }
    }
    assert forall|l: Location, o: usize, s: T::Summary| #[trigger]
        held(nodes, edges, ready.found, l, o, s) implies held(nodes, edges, st.found, l, o, s) by {
        if l == loc && o >= row0.len() {
            assert(row[o as int] =~= Seq::<T::Summary>::empty());
            let i = row[o as int].index_of(s);
        }
    }
    assert forall|l: Location, o: usize, s: T::Summary|
        #![trigger held(nodes, edges, ready.found, l, o, s)]
        #![trigger starts::<T>(reverse, l, o, s)]
        (held(nodes, edges, ready.found, l, o, s) || starts::<T>(reverse, l, o, s)) implies e == Some(
        (l, o, s),
    ) || ready.queue.contains((l, o, s)) || closed::<T>(nodes, reverse, ready.found, l, o, s) by {
        if held(nodes, edges, st.found, l, o, s) || starts::<T>(reverse, l, o, s) {
            if closed::<T>(nodes, reverse, st.found, l, o, s) {
                lemma_closed_grows::<T>(nodes, reverse, st.found, ready.found, l, o, s);
            }
        }
    }
}

/// A walk back to an output port goes on to an input port of the node along
/// a summary inside the node.
pub proof fn lemma_hop_back<T: Timestamp>(
    nodes: Seq<Seq<Seq<Seq<T::Summary>>>>,
    reverse: Map<Location, Source>,
    from: Location,
    loc: Location,
    k: int,
    output: usize,
    s: T::Summary,
    c: T::Summary,
)
    requires
        from.port is Source,
        loc.port is Target,
        loc.node == from.node,
        loc.node < nodes.len(),
        loc.port->Target_0 < nodes[loc.node as int].len(),
        from.port->Source_0 < nodes[loc.node as int][loc.port->Target_0 as int].len(),
        0 <= k < nodes[loc.node as int][loc.port->Target_0 as int][from.port->Source_0 as int].len(),
        nodes[loc.node as int][loc.port->Target_0 as int][from.port->Source_0 as int][k].compose(s)
            == Some(c),
        is_walk_back::<T>(nodes, reverse, from, output, s),
    ensures
        is_walk_back::<T>(nodes, reverse, loc, output, c),
{
    let trail = choose|trail: Seq<(Location, T::Summary)>| #[trigger]
        is_trail::<T>(nodes, reverse, output, trail) && trail.last() == (from, s);
    assert(hop::<T>(nodes, reverse, (from, s), (loc, c)));
    lemma_trail_push::<T>(nodes, reverse, output, trail, (loc, c));
}

/// A walk back to an input port goes on to the output port that feeds it.
pub proof fn lemma_feed_back<T: Timestamp>(
    nodes: Seq<Seq<Seq<Seq<T::Summary>>>>,
    reverse: Map<Location, Source>,
    t: Location,
    output: usize,
    s: T::Summary,
)
    requires
        t.port is Target,
        reverse.dom().contains(t),
        is_walk_back::<T>(nodes, reverse, t, output, s),
    ensures
        is_walk_back::<T>(nodes, reverse, Location::of_source(reverse[t]), output, s),
{
    let trail = choose|trail: Seq<(Location, T::Summary)>| #[trigger]
        is_trail::<T>(nodes, reverse, output, trail) && trail.last() == (t, s);
    lemma_trail_push::<T>(nodes, reverse, output, trail, (Location::of_source(reverse[t]), s));
}

/// The hops back across the node from the output port `j` with `s`, to the
/// input ports below `i` and along the summaries below `k` to the input port
/// `i`, are covered.
pub open spec fn hopped<T: Timestamp>(
    nodes: Seq<Seq<Seq<Seq<T::Summary>>>>,
    found: Map<Location, Seq<Seq<T::Summary>>>,
    node: usize,
    j: int,
    output: usize,
    s: T::Summary,
    i: int,
    k: int,
) -> bool {
    forall|i2: int, k2: int|
        0 <= i2 < nodes[node as int].len() && 0 <= k2 < nodes[node as int][i2][j].len() && (i2 < i || (i2
            == i && k2 < k)) && (#[trigger] nodes[node as int][i2][j][k2]).compose(s) is Some ==> covered(
            found,
            Location { node, port: Port::Target(i2 as usize) },
            output,
            nodes[node as int][i2][j][k2].compose(s).unwrap(),
        )
}

/// Following the summary of a walk back across a node keeps what is found and
/// queued sound and tended, and closes the summary.
pub proof fn lemma_backed_walks<T: Timestamp>(
    nodes: Seq<Seq<Seq<Seq<T::Summary>>>>,
    edges: Seq<Seq<Seq<Target>>>,
    reverse: Map<Location, Source>,
    st: Survey<T::Summary>,
    node: usize,
    j: usize,
    output: usize,
    s: T::Summary,
    i: int,
    k: int,
)
    requires
        shaped(nodes, edges),
        sized(nodes, edges),
        survey_fits(nodes, edges, st),
        is_port(nodes, edges, Location { node, port: Port::Source(j) }),
        output < nodes[0].len(),
        0 <= i,
        0 <= k,
        sound::<T>(nodes, edges, reverse, st),
        tended::<T>(
            nodes,
            edges,
            reverse,
            st,
            Some((Location { node, port: Port::Source(j) }, output, s)),
        ),
        is_walk_back::<T>(nodes, reverse, Location { node, port: Port::Source(j) }, output, s),
        hopped::<T>(nodes, st.found, node, j as int, output, s, i, k),
    ensures
        sound::<T>(nodes, edges, reverse, backed::<T>(nodes, st, node, j as int, output, s, i, k)),
        tended::<T>(
            nodes,
            edges,
            reverse,
            backed::<T>(nodes, st, node, j as int, output, s, i, k),
            Some((Location { node, port: Port::Source(j) }, output, s)),
        ),
        closed::<T>(
            nodes,
            reverse,
            backed::<T>(nodes, st, node, j as int, output, s, i, k).found,
            Location { node, port: Port::Source(j) },
            output,
            s,
        ),
    decreases nodes[node as int].len() - i, (if 0 <= i < nodes[node as int].len() {
        nodes[node as int][i][j as int].len() - k
    } else {
        0
    }),
{
    let from = Location { node, port: Port::Source(j) };
    let e = Some((from, output, s));
    if i < nodes[node as int].len() {
        let loc = Location { node, port: Port::Target(i as usize) };
        let ready = prepared(st, loc, output);
        assert(is_port(nodes, edges, loc));
        assert(nodes[node as int][i].len() == edges[node as int].len());
        lemma_offered_fits(nodes, edges, st, loc, output, s);
        lemma_prepared_walks::<T>(nodes, edges, reverse, st, loc, output, e);
        if k < nodes[node as int][i][j as int].len() {
            let op = nodes[node as int][i][j as int][k];
            match op.compose(s) {
                Some(c) => {
                    let next = offered(ready, loc, output, c);
                    lemma_hop_back::<T>(nodes, reverse, from, loc, k, output, s, c);
                    lemma_offered_fits(nodes, edges, st, loc, output, c);
                    lemma_offered_walks::<T>(nodes, edges, reverse, st, loc, output, c, e);
                    lemma_offered_effects(nodes, edges, st, loc, output, c);
                    assert(hopped::<T>(nodes, next.found, node, j as int, output, s, i, k + 1)) by {
                        assert forall|i2: int, k2: int|
                            0 <= i2 < nodes[node as int].len() && 0 <= k2
                                < nodes[node as int][i2][j as int].len() && (i2 < i || (i2 == i && k2 < k + 1))
                                && (#[trigger] nodes[node as int][i2][j as int][k2]).compose(
                                s,
                            ) is Some implies covered(
                            next.found,
                            Location { node, port: Port::Target(i2 as usize) },
                            output,
                            nodes[node as int][i2][j as int][k2].compose(s).unwrap(),
                        ) by {
                            if i2 == i && k2 == k {
                            } else {
                                assert(covered(
                                    st.found,
                                    Location { node, port: Port::Target(i2 as usize) },
                                    output,
                                    nodes[node as int][i2][j as int][k2].compose(s).unwrap(),
                                ));
                            }
                        }
                    }
                    lemma_backed_walks::<T>(nodes, edges, reverse, next, node, j, output, s, i, k + 1);
                },
                None => {
                    assert(hopped::<T>(nodes, ready.found, node, j as int, output, s, i, k + 1)) by {
                        assert forall|i2: int, k2: int|
                            0 <= i2 < nodes[node as int].len() && 0 <= k2
                                < nodes[node as int][i2][j as int].len() && (i2 < i || (i2 == i && k2 < k + 1))
                                && (#[trigger] nodes[node as int][i2][j as int][k2]).compose(
                                s,
                            ) is Some implies covered(
                            ready.found,
                            Location { node, port: Port::Target(i2 as usize) },
                            output,
                            nodes[node as int][i2][j as int][k2].compose(s).unwrap(),
                        ) by {
                            assert(covered(
                                st.found,
                                Location { node, port: Port::Target(i2 as usize) },
                                output,
                                nodes[node as int][i2][j as int][k2].compose(s).unwrap(),
                            ));
                        }
                    }
                    lemma_backed_walks::<T>(nodes, edges, reverse, ready, node, j, output, s, i, k + 1);
                },
            }
        } else {
            assert(hopped::<T>(nodes, ready.found, node, j as int, output, s, i + 1, 0)) by {
                assert forall|i2: int, k2: int|
                    0 <= i2 < nodes[node as int].len() && 0 <= k2 < nodes[node as int][i2][j as int].len() && (
                    i2 < i + 1 || (i2 == i + 1 && k2 < 0)) && (
                    #[trigger] nodes[node as int][i2][j as int][k2]).compose(s) is Some implies covered(
                    ready.found,
                    Location { node, port: Port::Target(i2 as usize) },
                    output,
                    nodes[node as int][i2][j as int][k2].compose(s).unwrap(),
                ) by {
                    assert(covered(
                        st.found,
                        Location { node, port: Port::Target(i2 as usize) },
                        output,
                        nodes[node as int][i2][j as int][k2].compose(s).unwrap(),
                    ));
                }
            }
            lemma_backed_walks::<T>(nodes, edges, reverse, ready, node, j, output, s, i + 1, 0);
        }
    } else {
        assert forall|i2: int, k2: int|
            0 <= i2 < nodes[node as int].len() && 0 <= k2 < nodes[node as int][i2][j as int].len() && (
            #[trigger] nodes[node as int][i2][j as int][k2]).compose(s) is Some implies covered(
            st.found,
            Location { node, port: Port::Target(i2 as usize) },
            output,
            nodes[node as int][i2][j as int][k2].compose(s).unwrap(),
        ) by {}
    }
}

/// A step of the walk keeps what is found and queued sound and tended.
pub proof fn lemma_step_walks<T: Timestamp>(
    nodes: Seq<Seq<Seq<Seq<T::Summary>>>>,
    edges: Seq<Seq<Seq<Target>>>,
    reverse: Map<Location, Source>,
    st: Survey<T::Summary>,
)
    requires
        shaped(nodes, edges),
        sized(nodes, edges),
        survey_fits(nodes, edges, st),
        feeders_fit(nodes, edges, reverse),
        sound::<T>(nodes, edges, reverse, st),
        tended::<T>(nodes, edges, reverse, st, None),
    ensures
        sound::<T>(nodes, edges, reverse, survey_step::<T>(nodes, reverse, st)),
        tended::<T>(nodes, edges, reverse, survey_step::<T>(nodes, reverse, st), None),
{
    if st.queue.len() > 0 {
        let (loc, output, s) = st.queue[0];
        let e = Some((loc, output, s));
        let rest = Survey { queue: st.queue.subrange(1, st.queue.len() as int), ..st };
        let after = survey_step::<T>(nodes, reverse, st);
        assert(survey_fits(nodes, edges, rest)) by {
            assert forall|i: int| 0 <= i < rest.queue.len() implies is_port(
                nodes,
                edges,
                (#[trigger] rest.queue[i]).0,
            ) && rest.queue[i].1 < nodes[0].len() by {
                assert(rest.queue[i] == st.queue[i + 1]);
            }
        }
        assert(sound::<T>(nodes, edges, reverse, rest)) by {
            assert forall|a: int| 0 <= a < rest.queue.len() implies is_walk_back::<T>(
                nodes,
                reverse,
                (#[trigger] rest.queue[a]).0,
                rest.queue[a].1,
                rest.queue[a].2,
            ) by {
                assert(rest.queue[a] == st.queue[a + 1]);
            }
        }
        assert(tended::<T>(nodes, edges, reverse, rest, e)) by {
            assert forall|l: Location, o: usize, x: T::Summary|
                #![trigger held(nodes, edges, rest.found, l, o, x)]
                #![trigger starts::<T>(reverse, l, o, x)]
                (held(nodes, edges, rest.found, l, o, x) || starts::<T>(reverse, l, o, x)) implies e == Some(
                (l, o, x),
            ) || rest.queue.contains((l, o, x)) || closed::<T>(nodes, reverse, rest.found, l, o, x) by {
                if st.queue.contains((l, o, x)) {
                    let a = st.queue.index_of((l, o, x));
                    if a > 0 {
                        assert(rest.queue[a - 1] == (l, o, x));
                    }
                }
            }
        }
        assert(is_walk_back::<T>(nodes, reverse, loc, output, s));
        match loc.port {
            Port::Source(j) => {
                assert forall|i2: int, k2: int|
                    0 <= i2 < nodes[loc.node as int].len() && 0 <= k2
                        < nodes[loc.node as int][i2][j as int].len() && (i2 < 0 || (i2 == 0 && k2 < 0)) && (
                    #[trigger] nodes[loc.node as int][i2][j as int][k2]).compose(s) is Some implies covered(
                    rest.found,
                    Location { node: loc.node, port: Port::Target(i2 as usize) },
                    output,
                    nodes[loc.node as int][i2][j as int][k2].compose(s).unwrap(),
                ) by {}
                lemma_backed_walks::<T>(nodes, edges, reverse, rest, loc.node, j, output, s, 0, 0);
            },
            Port::Target(_) => {
                if reverse.dom().contains(loc) {
                    let from = Location::of_source(reverse[loc]);
                    lemma_feed_back::<T>(nodes, reverse, loc, output, s);
                    lemma_offered_walks::<T>(nodes, edges, reverse, rest, from, output, s, e);
                    lemma_offered_effects(nodes, edges, rest, from, output, s);
                }
            },
        }
    }
}

/// Steps of the walk keep what is found and queued sound and tended.
pub proof fn lemma_run_walks<T: Timestamp>(
    nodes: Seq<Seq<Seq<Seq<T::Summary>>>>,
    edges: Seq<Seq<Seq<Target>>>,
    reverse: Map<Location, Source>,
    st: Survey<T::Summary>,
    n: nat,
)
    requires
        shaped(nodes, edges),
        sized(nodes, edges),
        survey_fits(nodes, edges, st),
        feeders_fit(nodes, edges, reverse),
        sound::<T>(nodes, edges, reverse, st),
        tended::<T>(nodes, edges, reverse, st, None),
    ensures
        sound::<T>(nodes, edges, reverse, survey_run::<T>(nodes, reverse, st, n)),
        tended::<T>(nodes, edges, reverse, survey_run::<T>(nodes, reverse, st, n), None),
    decreases n,
{
    if n > 0 {
        lemma_run_walks::<T>(nodes, edges, reverse, st, (n - 1) as nat);
        lemma_survey_run_fits::<T>(nodes, edges, reverse, st, (n - 1) as nat);
        lemma_step_walks::<T>(nodes, edges, reverse, survey_run::<T>(nodes, reverse, st, (n - 1) as nat));
    }
}

/// Every input port that an edge from `edges[n][p][k]` on leads to has a
/// feeder, and so has every port that has one in `acc`.
pub proof fn lemma_feeders_hold(
    edges: Seq<Seq<Seq<Target>>>,
    n: int,
    p: int,
    k: int,
    acc: Map<Location, Source>,
)
    requires
        0 <= n,
        0 <= p,
        0 <= k,
    ensures
        forall|l: Location| #[trigger]
            acc.dom().contains(l) ==> feeders(edges, n, p, k, acc).dom().contains(l),
        forall|n2: int, p2: int, k2: int|
            0 <= n2 < edges.len() && 0 <= p2 < edges[n2].len() && 0 <= k2 < edges[n2][p2].len() && (n2 > n
                || (n2 == n && (p2 > p || (p2 == p && k2 >= k)))) ==> feeders(
                edges,
                n,
                p,
                k,
                acc,
            ).dom().contains(Location::of_target(#[trigger] edges[n2][p2][k2])),
    decreases edges.len() - n, (if 0 <= n < edges.len() { edges[n].len() - p } else { 0 }), (if 0
        <= n < edges.len() && 0 <= p < edges[n].len() { edges[n][p].len() - k } else { 0 }),
{
    let all = feeders(edges, n, p, k, acc);
    if n < edges.len() {
        if p < edges[n].len() {
            if k < edges[n][p].len() {
                let next = acc.insert(
                    Location::of_target(edges[n][p][k]),
                    Source { node: n as usize, port: p as usize },
                );
                lemma_feeders_hold(edges, n, p, k + 1, next);
                assert(all == feeders(edges, n, p, k + 1, next));
                assert forall|l: Location| #[trigger] acc.dom().contains(l) implies all.dom().contains(l) by {
                    assert(next.dom().contains(l));
                }
                assert forall|n2: int, p2: int, k2: int|
                    0 <= n2 < edges.len() && 0 <= p2 < edges[n2].len() && 0 <= k2 < edges[n2][p2].len() && (n2
                        > n || (n2 == n && (p2 > p || (p2 == p && k2 >= k)))) implies all.dom().contains(
                    Location::of_target(#[trigger] edges[n2][p2][k2]),
                ) by {
                    if n2 == n && p2 == p && k2 == k {
                        assert(next.dom().contains(Location::of_target(edges[n][p][k])));
                    }
                }
            } else {
                lemma_feeders_hold(edges, n, p + 1, 0, acc);
                assert(all == feeders(edges, n, p + 1, 0, acc));
            }
        } else {
            lemma_feeders_hold(edges, n + 1, 0, 0, acc);
            assert(all == feeders(edges, n + 1, 0, 0, acc));
        }
    } else {
        assert(all == acc);
    }
}

/// A port with a feeder had one in `acc`, or an edge from `edges[n][p][k]`
/// on leads to it.
pub proof fn lemma_feeders_come(
    edges: Seq<Seq<Seq<Target>>>,
    n: int,
    p: int,
    k: int,
    acc: Map<Location, Source>,
    l: Location,
)
    requires
        0 <= n,
        0 <= p,
        0 <= k,
        feeders(edges, n, p, k, acc).dom().contains(l),
    ensures
        acc.dom().contains(l) || exists|n2: int, p2: int, k2: int|
            0 <= n2 < edges.len() && 0 <= p2 < edges[n2].len() && 0 <= k2 < edges[n2][p2].len() && (n2 > n
                || (n2 == n && (p2 > p || (p2 == p && k2 >= k)))) && Location::of_target(
                #[trigger] edges[n2][p2][k2],
            ) == l,
    decreases edges.len() - n, (if 0 <= n < edges.len() { edges[n].len() - p } else { 0 }), (if 0
        <= n < edges.len() && 0 <= p < edges[n].len() { edges[n][p].len() - k } else { 0 }),
{
    if n < edges.len() {
        if p < edges[n].len() {
            if k < edges[n][p].len() {
                let next = acc.insert(
                    Location::of_target(edges[n][p][k]),
                    Source { node: n as usize, port: p as usize },
                );
                lemma_feeders_come(edges, n, p, k + 1, next, l);
                if next.dom().contains(l) && !acc.dom().contains(l) {
                    assert(Location::of_target(edges[n][p][k]) == l);
                } else if !acc.dom().contains(l) {
                    let (n2, p2, k2) = choose|n2: int, p2: int, k2: int|
                        0 <= n2 < edges.len() && 0 <= p2 < edges[n2].len() && 0 <= k2 < edges[n2][p2].len()
                            && (n2 > n || (n2 == n && (p2 > p || (p2 == p && k2 >= k + 1))))
                            && Location::of_target(#[trigger] edges[n2][p2][k2]) == l;
                    assert(Location::of_target(edges[n2][p2][k2]) == l);
                }
            } else {
                lemma_feeders_come(edges, n, p + 1, 0, acc, l);
                if !acc.dom().contains(l) {
                    let (n2, p2, k2) = choose|n2: int, p2: int, k2: int|
                        0 <= n2 < edges.len() && 0 <= p2 < edges[n2].len() && 0 <= k2 < edges[n2][p2].len()
                            && (n2 > n || (n2 == n && (p2 > p + 1 || (p2 == p + 1 && k2 >= 0))))
                            && Location::of_target(#[trigger] edges[n2][p2][k2]) == l;
                    assert(Location::of_target(edges[n2][p2][k2]) == l);
                }
            }
        } else {
            lemma_feeders_come(edges, n + 1, 0, 0, acc, l);
            if !acc.dom().contains(l) {
                let (n2, p2, k2) = choose|n2: int, p2: int, k2: int|
                    0 <= n2 < edges.len() && 0 <= p2 < edges[n2].len() && 0 <= k2 < edges[n2][p2].len() && (n2
                        > n + 1 || (n2 == n + 1 && (p2 > 0 || (p2 == 0 && k2 >= 0)))) && Location::of_target(
                        #[trigger] edges[n2][p2][k2],
                    ) == l;
                assert(Location::of_target(edges[n2][p2][k2]) == l);
            }
        }
    }
}

/// What is queued at the start holds what `acc` holds, and for each edge from
/// `edges[n][p][k]` on that leads to an input port of node 0, that port with
/// its index and `unit`.
pub proof fn lemma_exits_hold<S>(
    edges: Seq<Seq<Seq<Target>>>,
    n: int,
    p: int,
    k: int,
    acc: Seq<(Location, usize, S)>,
    unit: S,
)
    requires
        0 <= n,
        0 <= p,
        0 <= k,
    ensures
        forall|x: (Location, usize, S)| #[trigger]
            acc.contains(x) ==> exits(edges, n, p, k, acc, unit).contains(x),
        forall|n2: int, p2: int, k2: int|
            0 <= n2 < edges.len() && 0 <= p2 < edges[n2].len() && 0 <= k2 < edges[n2][p2].len() && (n2 > n
                || (n2 == n && (p2 > p || (p2 == p && k2 >= k)))) && (#[trigger] edges[n2][p2][k2]).node == 0
                ==> exits(edges, n, p, k, acc, unit).contains(
                (Location::of_target(edges[n2][p2][k2]), edges[n2][p2][k2].port, unit),
            ),
    decreases edges.len() - n, (if 0 <= n < edges.len() { edges[n].len() - p } else { 0 }), (if 0
        <= n < edges.len() && 0 <= p < edges[n].len() { edges[n][p].len() - k } else { 0 }),
{
    let all = exits(edges, n, p, k, acc, unit);
    if n < edges.len() {
        if p < edges[n].len() {
            if k < edges[n][p].len() {
                let t = edges[n][p][k];
                let e = (Location::of_target(t), t.port, unit);
                let next = if t.node == 0 {
                    acc.push(e)
                } else {
                    acc
                };
                lemma_exits_hold(edges, n, p, k + 1, next, unit);
                assert(all == exits(edges, n, p, k + 1, next, unit));
                assert forall|x: (Location, usize, S)| #[trigger] acc.contains(x) implies all.contains(x) by {
                    vstd::seq_lib::lemma_seq_contains_after_push(acc, e, x);
                    assert(next.contains(x));
                }
                assert forall|n2: int, p2: int, k2: int|
                    0 <= n2 < edges.len() && 0 <= p2 < edges[n2].len() && 0 <= k2 < edges[n2][p2].len() && (n2
                        > n || (n2 == n && (p2 > p || (p2 == p && k2 >= k)))) && (
                    #[trigger] edges[n2][p2][k2]).node == 0 implies all.contains(
                    (Location::of_target(edges[n2][p2][k2]), edges[n2][p2][k2].port, unit),
                ) by {
                    if n2 == n && p2 == p && k2 == k {
                        vstd::seq_lib::lemma_seq_contains_after_push(acc, e, e);
                        assert(next.contains(e));
                    }
                }
            } else {
                lemma_exits_hold(edges, n, p + 1, 0, acc, unit);
                assert(all == exits(edges, n, p + 1, 0, acc, unit));
            }
        } else {
            lemma_exits_hold(edges, n + 1, 0, 0, acc, unit);
            assert(all == exits(edges, n + 1, 0, 0, acc, unit));
        }
    } else {
        assert(all == acc);
    }
}

/// What is queued at the start is held by `acc`, or is an input port of node
/// 0 that an edge leads to, with its index and `unit`.
pub proof fn lemma_exits_come<S>(
    edges: Seq<Seq<Seq<Target>>>,
    n: int,
    p: int,
    k: int,
    acc: Seq<(Location, usize, S)>,
    unit: S,
    x: (Location, usize, S),
)
    requires
        0 <= n,
        0 <= p,
        0 <= k,
        exits(edges, n, p, k, acc, unit).contains(x),
    ensures
        acc.contains(x) || exists|n2: int, p2: int, k2: int|
            0 <= n2 < edges.len() && 0 <= p2 < edges[n2].len() && 0 <= k2 < edges[n2][p2].len() && x == (
                Location::of_target(#[trigger] edges[n2][p2][k2]),
                edges[n2][p2][k2].port,
                unit,
            ) && edges[n2][p2][k2].node == 0,
    decreases edges.len() - n, (if 0 <= n < edges.len() { edges[n].len() - p } else { 0 }), (if 0
        <= n < edges.len() && 0 <= p < edges[n].len() { edges[n][p].len() - k } else { 0 }),
{
    if n < edges.len() {
        if p < edges[n].len() {
            if k < edges[n][p].len() {
                let t = edges[n][p][k];
                let e = (Location::of_target(t), t.port, unit);
                let next = if t.node == 0 {
                    acc.push(e)
                } else {
                    acc
                };
                assert(exits(edges, n, p, k, acc, unit) == exits(edges, n, p, k + 1, next, unit));
                lemma_exits_come(edges, n, p, k + 1, next, unit, x);
                if next.contains(x) && !acc.contains(x) {
                    vstd::seq_lib::lemma_seq_contains_after_push(acc, e, x);
                    assert(t.node == 0 && x == e);
                    assert(0 <= n < edges.len() && 0 <= p < edges[n].len() && 0 <= k < edges[n][p].len() && x
                        == (Location::of_target(edges[n][p][k]), edges[n][p][k].port, unit)
                        && edges[n][p][k].node == 0);
                }
            } else {
                assert(exits(edges, n, p, k, acc, unit) == exits(edges, n, p + 1, 0, acc, unit));
                lemma_exits_come(edges, n, p + 1, 0, acc, unit, x);
            }
        } else {
            assert(exits(edges, n, p, k, acc, unit) == exits(edges, n + 1, 0, 0, acc, unit));
            lemma_exits_come(edges, n + 1, 0, 0, acc, unit, x);
        }
    }
}

/// At the start of the walk, what is found and queued is sound and tended.
pub proof fn lemma_start_walks<T: Timestamp>(
    nodes: Seq<Seq<Seq<Seq<T::Summary>>>>,
    edges: Seq<Seq<Seq<Target>>>,
)
    requires
        shaped(nodes, edges),
        sized(nodes, edges),
        edges_closed(nodes, edges),
    ensures
        sound::<T>(nodes, edges, feeders(edges, 0, 0, 0, Map::empty()), survey_start::<T>(nodes, edges)),
        tended::<T>(
            nodes,
            edges,
            feeders(edges, 0, 0, 0, Map::empty()),
            survey_start::<T>(nodes, edges),
            None,
        ),
{
    let reverse = feeders(edges, 0, 0, 0, Map::empty());
    let start = survey_start::<T>(nodes, edges);
    let unit = T::Summary::identity();
    lemma_feeders_hold(edges, 0, 0, 0, Map::empty());
    lemma_exits_hold(edges, 0, 0, 0, Seq::<(Location, usize, T::Summary)>::empty(), unit);
    assert forall|l: Location, o: usize, s: T::Summary| #[trigger]
        held(nodes, edges, start.found, l, o, s) implies is_walk_back::<T>(nodes, reverse, l, o, s) by {
        assert(start.found[l].len() == 0);
    }
    assert forall|a: int| 0 <= a < start.queue.len() implies is_walk_back::<T>(
        nodes,
        reverse,
        (#[trigger] start.queue[a]).0,
        start.queue[a].1,
        start.queue[a].2,
    ) by {
        let x = start.queue[a];
        assert(start.queue.contains(x));
        lemma_exits_come(edges, 0, 0, 0, Seq::<(Location, usize, T::Summary)>::empty(), unit, x);
        assert(!Seq::<(Location, usize, T::Summary)>::empty().contains(x));
        let (n2, p2, k2) = choose|n2: int, p2: int, k2: int|
            0 <= n2 < edges.len() && 0 <= p2 < edges[n2].len() && 0 <= k2 < edges[n2][p2].len() && x == (
                Location::of_target(#[trigger] edges[n2][p2][k2]),
                edges[n2][p2][k2].port,
                unit,
            ) && edges[n2][p2][k2].node == 0;
        assert(reverse.dom().contains(Location::of_target(edges[n2][p2][k2])));
        assert(starts::<T>(reverse, x.0, x.1, x.2));
        let trail = seq![(x.0, x.2)];
        assert(is_trail::<T>(nodes, reverse, x.1, trail));
        assert(trail.last() == (x.0, x.2));
    }
    assert forall|l: Location, o: usize, s: T::Summary|
        #![trigger held(nodes, edges, start.found, l, o, s)]
        #![trigger starts::<T>(reverse, l, o, s)]
        (held(nodes, edges, start.found, l, o, s) || starts::<T>(reverse, l, o, s)) implies None::<
        (Location, usize, T::Summary),
    > == Some((l, o, s)) || start.queue.contains((l, o, s)) || closed::<T>(
        nodes,
        reverse,
        start.found,
        l,
        o,
        s,
    ) by {
        if held(nodes, edges, start.found, l, o, s) {
            assert(start.found[l].len() == 0);
        }
        if starts::<T>(reverse, l, o, s) {
            lemma_feeders_come(edges, 0, 0, 0, Map::empty(), l);
            let (n2, p2, k2) = choose|n2: int, p2: int, k2: int|
                0 <= n2 < edges.len() && 0 <= p2 < edges[n2].len() && 0 <= k2 < edges[n2][p2].len() && (n2 > 0
                    || (n2 == 0 && (p2 > 0 || (p2 == 0 && k2 >= 0)))) && Location::of_target(
                    #[trigger] edges[n2][p2][k2],
                ) == l;
            assert(edges[n2][p2][k2].node == 0);
            assert(edges[n2][p2][k2].port == o);
        }
    }
}

/// What covers a summary covers every summary that it is less than or equal
/// to.
pub proof fn lemma_covered_below<S: PartialOrder>(
    found: Map<Location, Seq<Seq<S>>>,
    l: Location,
    o: usize,
    c: S,
    d: S,
)
    requires
        covered(found, l, o, c),
        c.leq(d),
    ensures
        covered(found, l, o, d),
{
    let f = found[l][o as int];
    let i = choose|i: int| 0 <= i < f.len() && (#[trigger] f[i]).leq(c);
    S::le_transitive(f[i], c, d);
}

/// Once the queue is empty, the summary of every walk back of a hop or more
/// is covered where the walk ends.
pub proof fn lemma_trails_covered<T: Timestamp>(
    nodes: Seq<Seq<Seq<Seq<T::Summary>>>>,
    edges: Seq<Seq<Seq<Target>>>,
    reverse: Map<Location, Source>,
    st: Survey<T::Summary>,
    o: usize,
    trail: Seq<(Location, T::Summary)>,
)
    requires
        survey_fits(nodes, edges, st),
        st.queue.len() == 0,
        tended::<T>(nodes, edges, reverse, st, None),
        is_trail::<T>(nodes, reverse, o, trail),
        trail.len() >= 2,
    ensures
        covered(st.found, trail.last().0, o, trail.last().1),
    decreases trail.len(),
{
    let last = trail[trail.len() - 1];
    let prev = trail[trail.len() - 2];
    assert(hop::<T>(nodes, reverse, trail[trail.len() - 2], trail[trail.len() - 2 + 1]));
    if trail.len() == 2 {
        assert(starts::<T>(reverse, prev.0, o, prev.1));
        assert(closed::<T>(nodes, reverse, st.found, prev.0, o, prev.1));
    } else {
        let shorter = trail.drop_last();
        assert(is_trail::<T>(nodes, reverse, o, shorter)) by {
            assert(shorter[0] == trail[0]);
            assert forall|a: int| 0 <= a < shorter.len() - 1 implies hop::<T>(
                nodes,
                reverse,
                #[trigger] shorter[a],
                shorter[a + 1],
            ) by {
                assert(shorter[a] == trail[a] && shorter[a + 1] == trail[a + 1]);
            }
        }
        assert(shorter.last() == prev);
        lemma_trails_covered::<T>(nodes, edges, reverse, st, o, shorter);
        let row = st.found[prev.0][o as int];
        let idx = choose|idx: int| 0 <= idx < row.len() && (#[trigger] row[idx]).leq(prev.1);
        let f = row[idx];
        assert(row.contains(f));
        assert(held(nodes, edges, st.found, prev.0, o, f));
        assert(closed::<T>(nodes, reverse, st.found, prev.0, o, f));
        match prev.0.port {
            Port::Target(_) => {
                lemma_covered_below(st.found, last.0, o, f, last.1);
            },
            Port::Source(j) => {
                let i = last.0.port->Target_0;
                let ops = nodes[prev.0.node as int][i as int][j as int];
                let k = choose|k: int| 0 <= k < ops.len() && (#[trigger] ops[k]).compose(prev.1) == Some(last.1);
                <T::Summary as PathSummary<T>>::compose_grows(ops[k], f, prev.1);
                let c = ops[k].compose(f).unwrap();
                assert(nodes[prev.0.node as int][i as int][j as int][k].compose(f) is Some);
                assert(covered(
                    st.found,
                    Location { node: prev.0.node, port: Port::Target(i as int as usize) },
                    o,
                    c,
                ));
                lemma_covered_below(st.found, last.0, o, c, last.1);
            },
        }
    }
}

/// The summaries to the outputs of the scope are the least summaries of the
/// walks back from the outputs: each summary found for a port and an output
/// is the summary of a walk back from the output to the port; the summary of
/// every such walk of a hop or more is greater than or equal to one that was
/// found; and no summary found is less than or equal to another.
pub proof fn lemma_surveyed_walks<T: Timestamp>(
    nodes: Seq<Seq<Seq<Seq<T::Summary>>>>,
    edges: Seq<Seq<Seq<Target>>>,
)
    requires
        shaped(nodes, edges),
        sized(nodes, edges),
        edges_closed(nodes, edges),
    ensures
        forall|l: Location, o: usize, s: T::Summary| #[trigger]
            held(nodes, edges, surveyed::<T>(nodes, edges), l, o, s) ==> is_walk_back::<T>(
                nodes,
                feeders(edges, 0, 0, 0, Map::empty()),
                l,
                o,
                s,
            ),
        forall|o: usize, trail: Seq<(Location, T::Summary)>| #[trigger]
            is_trail::<T>(nodes, feeders(edges, 0, 0, 0, Map::empty()), o, trail) && trail.len() >= 2
                ==> covered(surveyed::<T>(nodes, edges), trail.last().0, o, trail.last().1),
        antichains(nodes, edges, surveyed::<T>(nodes, edges)),
{
    let reverse = feeders(edges, 0, 0, 0, Map::empty());
    let start = survey_start::<T>(nodes, edges);
    lemma_survey_lawful::<T>(nodes, edges);
    let n = choose|n: nat| surveyed_after::<T>(nodes, edges, n);
    let end = survey_run::<T>(nodes, reverse, start, n);
    lemma_exits_fit(nodes, edges, 0, 0, 0, Seq::empty(), T::Summary::identity());
    lemma_feeders_fit(nodes, edges, 0, 0, 0, Map::empty());
    lemma_survey_run_fits::<T>(nodes, edges, reverse, start, n);
    lemma_start_walks::<T>(nodes, edges);
    lemma_run_walks::<T>(nodes, edges, reverse, start, n);
    assert(end.found == surveyed::<T>(nodes, edges));
    assert forall|o: usize, trail: Seq<(Location, T::Summary)>| #[trigger]
        is_trail::<T>(nodes, reverse, o, trail) && trail.len() >= 2 implies covered(
        end.found,
        trail.last().0,
        o,
        trail.last().1,
    ) by {
        lemma_trails_covered::<T>(nodes, edges, reverse, end, o, trail);
    }
}

} // verus!
