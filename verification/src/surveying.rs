//! Why the walk for the summaries to the outputs of the scope comes to an
//! end.
//!
//! Each summary that the walk queues has entered an antichain, and an element
//! that enters an antichain takes away from what could still enter it. Where
//! there are only so many summaries, only so many can enter.
use vstd::prelude::*;
use crate::order::{PartialOrder, PathSummary, Timestamp};
use crate::antichain::{dominated, inserted, not_above};
use crate::location::{Location, Port, Source, Target};
use crate::graph::{shaped, sized, is_port, edges_closed};
use crate::acyclic::{port_list, lemma_port_list};
use crate::summarize::{
    Survey, padded, prepared, offered, backed, feeders, survey_step, survey_run, survey_start,
    surveyed_after, survey_ends, survey_fits, feeders_fit, lemma_offered_fits,
    lemma_survey_step_fits, lemma_feeders_fit, lemma_exits_fit,
};

verus! {

/// The values of `S` are told apart by codes below `bound`.
pub open spec fn countable<S>(code: spec_fn(S) -> int, bound: int) -> bool {
    &&& forall|x: S| 0 <= #[trigger] code(x) < bound
    &&& forall|x: S, y: S| #[trigger] code(x) == #[trigger] code(y) ==> x == y
}

/// The value with code `i` is not dominated by the antichain `a`.
pub open spec fn admitted<S: PartialOrder>(a: Seq<S>, code: spec_fn(S) -> int, i: int) -> bool {
    exists|x: S| #[trigger] code(x) == i && !dominated(a, x)
}

/// The codes of the values that the antichain `a` does not dominate.
pub open spec fn open_codes<S: PartialOrder>(a: Seq<S>, code: spec_fn(S) -> int, bound: int) -> Set<
    int,
> {
    Set::new(|i: int| 0 <= i < bound && admitted(a, code, i))
}

/// How many values the antichain `a` does not dominate.
pub open spec fn room<S: PartialOrder>(a: Seq<S>, code: spec_fn(S) -> int, bound: int) -> nat {
    open_codes(a, code, bound).len()
}

/// The codes of the values that an antichain does not dominate are finitely
/// many.
pub proof fn lemma_open_codes_finite<S: PartialOrder>(a: Seq<S>, code: spec_fn(S) -> int, bound: int)
    requires
        0 <= bound,
    ensures
        open_codes(a, code, bound).finite(),
        room(a, code, bound) <= bound,
{
    vstd::set_lib::lemma_int_range(0, bound);
    assert(open_codes(a, code, bound).subset_of(vstd::set_lib::set_int_range(0, bound)));
    vstd::set_lib::lemma_len_subset(open_codes(a, code, bound), vstd::set_lib::set_int_range(0, bound));
}

/// An element that enters an antichain leaves less room in it.
pub proof fn lemma_room_drops<S: PartialOrder>(a: Seq<S>, c: S, code: spec_fn(S) -> int, bound: int)
    requires
        countable(code, bound),
        !dominated(a, c),
    ensures
        room(inserted(a, c), code, bound) < room(a, code, bound),
{
    let b = inserted(a, c);
    let kept = a.filter(not_above(c));
    assert(b == kept.push(c));
    assert(0 <= code(c) < bound);
    lemma_open_codes_finite(a, code, bound);
    lemma_open_codes_finite(b, code, bound);
    let before = open_codes(a, code, bound);
    let after = open_codes(b, code, bound);
    S::le_reflexive(c);
    assert(b[kept.len() as int] == c);
    assert(dominated(b, c));
    assert forall|x: S| dominated(a, x) implies dominated(b, x) by {
        let i = choose|i: int| 0 <= i < a.len() && (#[trigger] a[i]).leq(x);
        if c.leq(a[i]) {
            S::le_transitive(c, a[i], x);
        } else {
            assert(not_above(c)(a[i]));
            a.lemma_filter_contains(not_above(c), i);
            let k = kept.index_of(a[i]);
            assert(b[k] == a[i]);
        }
    }
    assert(before.contains(code(c))) by {
        assert(admitted(a, code, code(c)));
    }
    assert(!after.contains(code(c))) by {
        if admitted(b, code, code(c)) {
            let x = choose|x: S| #[trigger] code(x) == code(c) && !dominated(b, x);
            assert(x == c);
        }
    }
    assert forall|i: int| after.contains(i) implies before.remove(code(c)).contains(i) by {
        let x = choose|x: S| #[trigger] code(x) == i && !dominated(b, x);
        assert(!dominated(a, x));
        assert(admitted(a, code, i));
    }
    assert(after.subset_of(before.remove(code(c))));
    vstd::set_lib::lemma_len_subset(after, before.remove(code(c)));
}

/// The antichain of `row` for the output `o`: empty where the row has none.
pub open spec fn at_output<S>(row: Seq<Seq<S>>, o: int) -> Seq<S> {
    if 0 <= o < row.len() {
        row[o]
    } else {
        Seq::empty()
    }
}

/// The room in the antichains of `row` for the outputs below `outputs`.
pub open spec fn row_room<S: PartialOrder>(
    row: Seq<Seq<S>>,
    outputs: int,
    code: spec_fn(S) -> int,
    bound: int,
) -> nat
    decreases outputs,
{
    if outputs <= 0 {
        0
    } else {
        row_room(row, outputs - 1, code, bound) + room(at_output(row, outputs - 1), code, bound)
    }
}

/// The room in the antichains that `found` holds for `ports[..upto]`.
pub open spec fn total_room<S: PartialOrder>(
    found: Map<Location, Seq<Seq<S>>>,
    ports: Seq<Location>,
    upto: int,
    outputs: int,
    code: spec_fn(S) -> int,
    bound: int,
) -> nat
    decreases upto,
{
    if upto <= 0 {
        0
    } else {
        total_room(found, ports, upto - 1, outputs, code, bound) + row_room(
            found[ports[upto - 1]],
            outputs,
            code,
            bound,
        )
    }
}

/// Rows with the same antichains have the same room.
proof fn lemma_row_room_same<S: PartialOrder>(
    r1: Seq<Seq<S>>,
    r2: Seq<Seq<S>>,
    outputs: int,
    code: spec_fn(S) -> int,
    bound: int,
)
    requires
        forall|o: int| 0 <= o < outputs ==> at_output(r1, o) == at_output(r2, o),
    ensures
        row_room(r1, outputs, code, bound) == row_room(r2, outputs, code, bound),
    decreases outputs,
{
    if outputs > 0 {
        lemma_row_room_same(r1, r2, outputs - 1, code, bound);
    }
}

/// A row with less room in one antichain and the others as they were has
/// less room.
proof fn lemma_row_room_less<S: PartialOrder>(
    r1: Seq<Seq<S>>,
    r2: Seq<Seq<S>>,
    outputs: int,
    at: int,
    code: spec_fn(S) -> int,
    bound: int,
)
    requires
        forall|o: int| 0 <= o < outputs && o != at ==> at_output(r1, o) == at_output(r2, o),
        room(at_output(r2, at), code, bound) < room(at_output(r1, at), code, bound),
    ensures
        row_room(r2, outputs, code, bound) <= row_room(r1, outputs, code, bound),
        0 <= at < outputs ==> row_room(r2, outputs, code, bound) < row_room(r1, outputs, code, bound),
    decreases outputs,
{
    if outputs > 0 {
        lemma_row_room_less(r1, r2, outputs - 1, at, code, bound);
    }
}

/// Where one row of `found` is replaced by a row with no more room, there is
/// no more room in all; and less, where the row has less and is that of one
/// of the ports.
proof fn lemma_total_room_insert<S: PartialOrder>(
    found: Map<Location, Seq<Seq<S>>>,
    ports: Seq<Location>,
    upto: int,
    outputs: int,
    loc: Location,
    row: Seq<Seq<S>>,
    code: spec_fn(S) -> int,
    bound: int,
)
    requires
        0 <= upto <= ports.len(),
        found.dom().contains(loc),
        row_room(row, outputs, code, bound) <= row_room(found[loc], outputs, code, bound),
    ensures
        total_room(found.insert(loc, row), ports, upto, outputs, code, bound) <= total_room(
            found,
            ports,
            upto,
            outputs,
            code,
            bound,
        ),
        row_room(row, outputs, code, bound) < row_room(found[loc], outputs, code, bound) && (exists|
            idx: int,
        |
            0 <= idx < upto && ports[idx] == loc) ==> total_room(
            found.insert(loc, row),
            ports,
            upto,
            outputs,
            code,
            bound,
        ) < total_room(found, ports, upto, outputs, code, bound),
    decreases upto,
{
    if upto > 0 {
        lemma_total_room_insert(found, ports, upto - 1, outputs, loc, row, code, bound);
        if row_room(row, outputs, code, bound) < row_room(found[loc], outputs, code, bound) && (exists|
            idx: int,
        |
            0 <= idx < upto && ports[idx] == loc) {
            let idx = choose|idx: int| 0 <= idx < upto && ports[idx] == loc;
            if idx < upto - 1 {
                assert(0 <= idx < upto - 1 && ports[idx] == loc);
            }
        }
    }
}

/// Making room for an output in a row leaves the room in its antichains.
proof fn lemma_padded_room<S: PartialOrder>(
    row: Seq<Seq<S>>,
    n: int,
    outputs: int,
    code: spec_fn(S) -> int,
    bound: int,
)
    ensures
        row_room(padded(row, n), outputs, code, bound) == row_room(row, outputs, code, bound),
{
    assert forall|o: int| 0 <= o < outputs implies at_output(padded(row, n), o) == at_output(row, o) by {
        if row.len() < n && row.len() <= o < n {
            assert(padded(row, n)[o] =~= Seq::<S>::empty());
        }
    }
    lemma_row_room_same(padded(row, n), row, outputs, code, bound);
}

/// The room that is left for the walk in the state `st`.
pub open spec fn spare<S: PartialOrder>(
    nodes: Seq<Seq<Seq<Seq<S>>>>,
    edges: Seq<Seq<Seq<Target>>>,
    st: Survey<S>,
    code: spec_fn(S) -> int,
    bound: int,
) -> nat {
    total_room(
        st.found,
        port_list(nodes, edges, nodes.len() as int),
        port_list(nodes, edges, nodes.len() as int).len() as int,
        nodes[0].len() as int,
        code,
        bound,
    )
}

/// Making room and offering a summary leave no more room to the walk, and
/// what they queue has taken room.
proof fn lemma_offered_spare<S: PartialOrder>(
    nodes: Seq<Seq<Seq<Seq<S>>>>,
    edges: Seq<Seq<Seq<Target>>>,
    st: Survey<S>,
    loc: Location,
    output: usize,
    s: S,
    code: spec_fn(S) -> int,
    bound: int,
)
    requires
        countable(code, bound),
        survey_fits(nodes, edges, st),
        is_port(nodes, edges, loc),
        output < nodes[0].len(),
    ensures
        spare(nodes, edges, prepared(st, loc, output), code, bound) == spare(nodes, edges, st, code, bound),
        prepared(st, loc, output).queue == st.queue,
        spare(nodes, edges, offered(prepared(st, loc, output), loc, output, s), code, bound) <= spare(
            nodes,
            edges,
            st,
            code,
            bound,
        ),
        offered(prepared(st, loc, output), loc, output, s).queue == st.queue || (spare(
            nodes,
            edges,
            offered(prepared(st, loc, output), loc, output, s),
            code,
            bound,
        ) < spare(nodes, edges, st, code, bound) && offered(
            prepared(st, loc, output),
            loc,
            output,
            s,
        ).queue.len() == st.queue.len() + 1),
{
    let ports = port_list(nodes, edges, nodes.len() as int);
    let outputs = nodes[0].len() as int;
    let ready = prepared(st, loc, output);
    let row0 = st.found[loc];
    let row = ready.found[loc];
    lemma_padded_room(row0, output + 1, outputs, code, bound);
    lemma_total_room_insert(st.found, ports, ports.len() as int, outputs, loc, row, code, bound);
    lemma_total_room_insert(ready.found, ports, ports.len() as int, outputs, loc, row0, code, bound);
    assert(ready.found.insert(loc, row0) =~= st.found);
    if !dominated(row[output as int], s) {
        let row2 = row.update(output as int, inserted(row[output as int], s));
        lemma_room_drops(row[output as int], s, code, bound);
        assert forall|o: int| 0 <= o < outputs && o != output implies at_output(row, o) == at_output(
            row2,
            o,
        ) by {}
        lemma_row_room_less(row, row2, outputs, output as int, code, bound);
        lemma_port_list(nodes, edges, nodes.len() as int, loc);
        let idx = ports.index_of(loc);
        assert(0 <= idx < ports.len() && ports[idx] == loc);
        lemma_total_room_insert(ready.found, ports, ports.len() as int, outputs, loc, row2, code, bound);
    }
}

/// Following a summary back across a node leaves no more room to the walk,
/// and where it leaves as much, it queues nothing.
proof fn lemma_backed_spare<T: Timestamp>(
    nodes: Seq<Seq<Seq<Seq<T::Summary>>>>,
    edges: Seq<Seq<Seq<Target>>>,
    st: Survey<T::Summary>,
    node: usize,
    j: int,
    output: usize,
    s: T::Summary,
    i: int,
    k: int,
    code: spec_fn(T::Summary) -> int,
    bound: int,
)
    requires
        countable(code, bound),
        sized(nodes, edges),
        survey_fits(nodes, edges, st),
        node < nodes.len(),
        node < edges.len(),
        output < nodes[0].len(),
        0 <= i,
        0 <= k,
    ensures
        spare(nodes, edges, backed::<T>(nodes, st, node, j, output, s, i, k), code, bound) <= spare(
            nodes,
            edges,
            st,
            code,
            bound,
        ),
        spare(nodes, edges, backed::<T>(nodes, st, node, j, output, s, i, k), code, bound) == spare(
            nodes,
            edges,
            st,
            code,
            bound,
        ) ==> backed::<T>(nodes, st, node, j, output, s, i, k).queue == st.queue,
    decreases nodes[node as int].len() - i, (if 0 <= i < nodes[node as int].len() {
        nodes[node as int][i][j].len() - k
    } else {
        0
    }),
{
    if i < nodes[node as int].len() {
        let loc = Location { node, port: Port::Target(i as usize) };
        let ready = prepared(st, loc, output);
        assert(is_port(nodes, edges, loc));
        lemma_offered_fits(nodes, edges, st, loc, output, s);
        lemma_offered_spare(nodes, edges, st, loc, output, s, code, bound);
        if k < nodes[node as int][i][j].len() {
            match nodes[node as int][i][j][k].compose(s) {
                Some(c) => {
                    lemma_offered_fits(nodes, edges, st, loc, output, c);
                    lemma_offered_spare(nodes, edges, st, loc, output, c, code, bound);
                    lemma_backed_spare::<T>(
                        nodes,
                        edges,
                        offered(ready, loc, output, c),
                        node,
                        j,
                        output,
                        s,
                        i,
                        k + 1,
                        code,
                        bound,
                    );
                },
                None => {
                    lemma_backed_spare::<T>(nodes, edges, ready, node, j, output, s, i, k + 1, code, bound);
                },
            }
        } else {
            lemma_backed_spare::<T>(nodes, edges, ready, node, j, output, s, i + 1, 0, code, bound);
        }
    }
}

/// A step of the walk leaves less room to it, or as much room and a shorter
/// queue.
proof fn lemma_step_spare<T: Timestamp>(
    nodes: Seq<Seq<Seq<Seq<T::Summary>>>>,
    edges: Seq<Seq<Seq<Target>>>,
    reverse: Map<Location, Source>,
    st: Survey<T::Summary>,
    code: spec_fn(T::Summary) -> int,
    bound: int,
)
    requires
        countable(code, bound),
        sized(nodes, edges),
        survey_fits(nodes, edges, st),
        feeders_fit(nodes, edges, reverse),
        st.queue.len() > 0,
    ensures
        spare(nodes, edges, survey_step::<T>(nodes, reverse, st), code, bound) < spare(
            nodes,
            edges,
            st,
            code,
            bound,
        ) || (spare(nodes, edges, survey_step::<T>(nodes, reverse, st), code, bound) == spare(
            nodes,
            edges,
            st,
            code,
            bound,
        ) && survey_step::<T>(nodes, reverse, st).queue.len() < st.queue.len()),
{
    let (loc, output, s) = st.queue[0];
    let rest = Survey { queue: st.queue.subrange(1, st.queue.len() as int), ..st };
    assert(survey_fits(nodes, edges, rest)) by {
        assert forall|i: int| 0 <= i < rest.queue.len() implies is_port(
            nodes,
            edges,
            (#[trigger] rest.queue[i]).0,
        ) && rest.queue[i].1 < nodes[0].len() by {
            assert(rest.queue[i] == st.queue[i + 1]);
        }
    }
    assert(spare(nodes, edges, rest, code, bound) == spare(nodes, edges, st, code, bound));
    match loc.port {
        Port::Source(j) => {
            lemma_backed_spare::<T>(nodes, edges, rest, loc.node, j as int, output, s, 0, 0, code, bound);
        },
        Port::Target(_) => {
            if reverse.dom().contains(loc) {
                let from = Location::of_source(reverse[loc]);
                lemma_offered_spare(nodes, edges, rest, from, output, s, code, bound);
            }
        },
    }
}

/// A run of one step more is a run from the state after one step.
proof fn lemma_survey_shift<T: Timestamp>(
    nodes: Seq<Seq<Seq<Seq<T::Summary>>>>,
    reverse: Map<Location, Source>,
    st: Survey<T::Summary>,
    n: nat,
)
    ensures
        survey_run::<T>(nodes, reverse, st, n + 1) == survey_run::<T>(
            nodes,
            reverse,
            survey_step::<T>(nodes, reverse, st),
            n,
        ),
    decreases n,
{
    if n > 0 {
        lemma_survey_shift::<T>(nodes, reverse, st, (n - 1) as nat);
    } else {
        assert(survey_run::<T>(nodes, reverse, st, 1) == survey_step::<T>(
            nodes,
            reverse,
            survey_run::<T>(nodes, reverse, st, 0),
        ));
    }
}

/// The walk ends from every state that fits the graph: by induction on the
/// room that is left to it, and with the same room on the length of its queue.
proof fn lemma_survey_induct<T: Timestamp>(
    nodes: Seq<Seq<Seq<Seq<T::Summary>>>>,
    edges: Seq<Seq<Seq<Target>>>,
    reverse: Map<Location, Source>,
    st: Survey<T::Summary>,
    code: spec_fn(T::Summary) -> int,
    bound: int,
)
    requires
        countable(code, bound),
        sized(nodes, edges),
        survey_fits(nodes, edges, st),
        feeders_fit(nodes, edges, reverse),
    ensures
        exists|n: nat| (#[trigger] survey_run::<T>(nodes, reverse, st, n)).queue.len() == 0,
    decreases spare(nodes, edges, st, code, bound), st.queue.len(),
{
    if st.queue.len() == 0 {
        assert(survey_run::<T>(nodes, reverse, st, 0).queue.len() == 0);
    } else {
        let next = survey_step::<T>(nodes, reverse, st);
        lemma_survey_step_fits::<T>(nodes, edges, reverse, st);
        lemma_step_spare::<T>(nodes, edges, reverse, st, code, bound);
        lemma_survey_induct::<T>(nodes, edges, reverse, next, code, bound);
        let n = choose|n: nat| (#[trigger] survey_run::<T>(nodes, reverse, next, n)).queue.len() == 0;
        lemma_survey_shift::<T>(nodes, reverse, st, n);
        assert(survey_run::<T>(nodes, reverse, st, n + 1).queue.len() == 0);
    }
}

/// The walk ends in every graph, where codes below `bound` tell the summaries
/// apart.
proof fn lemma_survey_ends<T: Timestamp>(
    nodes: Seq<Seq<Seq<Seq<T::Summary>>>>,
    edges: Seq<Seq<Seq<Target>>>,
    code: spec_fn(T::Summary) -> int,
    bound: int,
)
    requires
        shaped(nodes, edges),
        sized(nodes, edges),
        edges_closed(nodes, edges),
        countable(code, bound),
    ensures
        survey_ends::<T>(nodes, edges),
{
    let reverse = feeders(edges, 0, 0, 0, Map::empty());
    let start = survey_start::<T>(nodes, edges);
    lemma_exits_fit(nodes, edges, 0, 0, 0, Seq::empty(), T::Summary::identity());
    lemma_feeders_fit(nodes, edges, 0, 0, 0, Map::empty());
    lemma_survey_induct::<T>(nodes, edges, reverse, start, code, bound);
    let n = choose|n: nat| (#[trigger] survey_run::<T>(nodes, reverse, start, n)).queue.len() == 0;
    assert(surveyed_after::<T>(nodes, edges, n));
}

/// The codes of summaries.
pub open spec fn codes_of<T: Timestamp>() -> spec_fn(T::Summary) -> int {
    |x: T::Summary| x.code()
}

/// The walk for the summaries to the outputs of the scope comes to an end in
/// every graph.
pub proof fn lemma_survey_lawful<T: Timestamp>(
    nodes: Seq<Seq<Seq<Seq<T::Summary>>>>,
    edges: Seq<Seq<Seq<Target>>>,
)
    requires
        shaped(nodes, edges),
        sized(nodes, edges),
        edges_closed(nodes, edges),
    ensures
        survey_ends::<T>(nodes, edges),
{
    let code = codes_of::<T>();
    let bound = T::Summary::codes();
    assert forall|x: T::Summary| 0 <= #[trigger] code(x) < bound by {
        <T::Summary as PathSummary<T>>::code_bounded(x);
    }
    assert forall|x: T::Summary, y: T::Summary| #[trigger] code(x) == #[trigger] code(y) implies x == y by {
        <T::Summary as PathSummary<T>>::code_distinct(x, y);
    }
    lemma_survey_ends::<T>(nodes, edges, code, bound);
}

} // verus!
