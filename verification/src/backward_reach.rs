use std::cmp::Ordering;
use vstd::prelude::*;
use vstd::std_specs::cmp::PartialOrdSpec;

verus! {

/// A transition system that can list the immediate predecessors of a state.
///
/// What an implementation hands out is described by a relation rather than
/// by a function: two calls on one state may return lists that differ in
/// representation, as long as both satisfy `is_basis`.
pub trait PredBasis<T> {
    /// The states whose predecessors the system is able to compute: all of
    /// them, unless an implementation says otherwise.
    open spec fn admits(&self, state: &T) -> bool {
        true
    }

    /// Whether `basis` is a list of immediate predecessors of `state` that
    /// the system may return: any list, unless an implementation says more.
    open spec fn is_basis(&self, state: &T, basis: Seq<T>) -> bool {
        true
    }

    /// The immediate predecessors of `state`.
    fn pred_basis(&self, state: &T) -> (basis: Vec<T>)
        requires
            self.admits(state),
        ensures
            self.is_basis(state, basis@),
    ;
}

/// `a <= b`, as the comparison of `T` specifies it.
pub open spec fn below<T: PartialOrd>(a: &T, b: &T) -> bool {
    a.partial_cmp_spec(b) == Some(Ordering::Less) || a.partial_cmp_spec(b) == Some(Ordering::Equal)
}

/// `a >= b`, as the comparison of `T` specifies it.
pub open spec fn above<T: PartialOrd>(a: &T, b: &T) -> bool {
    a.partial_cmp_spec(b) == Some(Ordering::Greater) || a.partial_cmp_spec(b) == Some(
        Ordering::Equal,
    )
}

/// Some item of the list is dominated by `value`.
pub open spec fn some_below<T: PartialOrd>(items: Seq<T>, value: &T) -> bool {
    exists|i: int| 0 <= i < items.len() && below(&#[trigger] items[i], value)
}

/// Some item of the list dominates `value`.
pub open spec fn some_above<T: PartialOrd>(items: Seq<T>, value: &T) -> bool {
    exists|i: int| 0 <= i < items.len() && above(&#[trigger] items[i], value)
}

/// Whether some item of the list is less than or equal to `value`.
pub fn exists_le_than<T: PartialOrd>(items: &Vec<T>, value: &T) -> (found: bool)
    requires
        T::obeys_partial_cmp_spec(),
    ensures
        found == some_below(items@, value),
{
    let mut k: usize = 0;
    while k < items.len()
        invariant
            T::obeys_partial_cmp_spec(),
            k <= items.len(),
            forall|i: int| 0 <= i < k ==> !below(&#[trigger] items@[i], value),
        decreases items.len() - k,
    {
        if items[k] <= *value {
            return true;
        }
        k += 1;
    }
    false
}

/// Whether some item of the list is greater than or equal to `value`.
pub fn exists_ge_than<T: PartialOrd>(items: &Vec<T>, value: &T) -> (found: bool)
    requires
        T::obeys_partial_cmp_spec(),
    ensures
        found == some_above(items@, value),
{
    let mut k: usize = 0;
    while k < items.len()
        invariant
            T::obeys_partial_cmp_spec(),
            k <= items.len(),
            forall|i: int| 0 <= i < k ==> !above(&#[trigger] items@[i], value),
        decreases items.len() - k,
    {
        if items[k] >= *value {
            return true;
        }
        k += 1;
    }
    false
}

/// `pred` is an immediate predecessor of `state`: it stands in a list that
/// the system may return for `state`.
pub open spec fn steps_back<T, P: PredBasis<T> + ?Sized>(ts: &P, state: T, pred: T) -> bool {
    exists|basis: Seq<T>| #[trigger] ts.is_basis(&state, basis) && basis.contains(pred)
}

/// Each state of `path` after the first is an immediate predecessor of the
/// state before it.
pub open spec fn backward_path<T, P: PredBasis<T> + ?Sized>(ts: &P, path: Seq<T>) -> bool {
    forall|k: int, l: int|
        0 <= k && l == k + 1 && l < path.len() ==> steps_back(
            ts,
            #[trigger] path[k],
            #[trigger] path[l],
        )
}

/// `state` is reached from `fin` by taking predecessors any number of times.
pub open spec fn backward_reachable<T, P: PredBasis<T> + ?Sized>(ts: &P, fin: T, state: T) -> bool {
    exists|path: Seq<T>|
        path.len() > 0 && path[0] == fin && path.last() == state && #[trigger] backward_path(
            ts,
            path,
        )
}

/// Some initial state dominates a state that is backward reachable from
/// `fin`.
pub open spec fn coverable<T: PartialOrd, P: PredBasis<T> + ?Sized>(
    ts: &P,
    fin: T,
    init: Seq<T>,
) -> bool {
    exists|state: T| #[trigger] backward_reachable(ts, fin, state) && some_above(init, &state)
}

/// The comparison of `T` is reflexive and transitive, and `>=` is `<=` read
/// from the other side.
pub open spec fn preorder<T: PartialOrd>() -> bool {
    &&& forall|a: T| #[trigger] below(&a, &a)
    &&& forall|a: T, b: T, c: T| #[trigger]
        below(&a, &b) && #[trigger] below(&b, &c) ==> below(&a, &c)
    &&& forall|a: T, b: T| #[trigger] above(&a, &b) <==> below(&b, &a)
}

/// `lower` is a list of predecessors of some state `x`, and `pred` is a
/// predecessor of a state `y` that lies above `x`.
pub open spec fn faces<T: PartialOrd, P: PredBasis<T> + ?Sized>(
    ts: &P,
    x: T,
    lower: Seq<T>,
    y: T,
    pred: T,
) -> bool {
    below(&x, &y) && ts.is_basis(&x, lower) && steps_back(ts, y, pred)
}

/// A smaller state has smaller predecessors: below every predecessor of
/// `y` lies one in any list of predecessors of any `x <= y`.
pub open spec fn monotone<T: PartialOrd, P: PredBasis<T> + ?Sized>(ts: &P) -> bool {
    forall|x: T, lower: Seq<T>, y: T, pred: T| #[trigger]
        faces(ts, x, lower, y, pred) ==> some_below(lower, &pred)
}

/// The search, started with the given worklist and explored list, comes to
/// an end within `fuel` pops, whatever lists of predecessors the system
/// hands out, and asks it only for predecessors of states that it admits.
pub open spec fn runs_within<T: PartialOrd, P: PredBasis<T> + ?Sized>(
    ts: &P,
    init: Seq<T>,
    to_explore: Seq<T>,
    explored: Seq<T>,
    fuel: int,
) -> bool
    decreases fuel,
{
    if to_explore.len() == 0 {
        true
    } else if fuel <= 0 {
        false
    } else {
        let curr = to_explore.last();
        let rest = to_explore.drop_last();
        if some_below(explored, &curr) {
            runs_within(ts, init, rest, explored, fuel - 1)
        } else if some_above(init, &curr) {
            true
        } else {
            &&& ts.admits(&curr)
            &&& forall|basis: Seq<T>| #[trigger]
                ts.is_basis(&curr, basis) ==> runs_within(
                    ts,
                    init,
                    rest + basis,
                    explored.push(curr),
                    fuel - 1,
                )
        }
    }
}

/// The search for `fin` comes to an end.
pub open spec fn search_halts<T: PartialOrd, P: PredBasis<T> + ?Sized>(
    ts: &P,
    fin: T,
    init: Seq<T>,
) -> bool {
    exists|fuel: int| #[trigger] runs_within(ts, init, seq![fin], Seq::<T>::empty(), fuel)
}

/// `state` needs no further attention: it waits on the worklist, has been
/// explored, or is dominated by an explored state.
pub open spec fn settled<T: PartialOrd>(explored: Seq<T>, to_explore: Seq<T>, state: T) -> bool {
    to_explore.contains(state) || explored.contains(state) || some_below(explored, &state)
}

/// Every state of the list is settled.
pub open spec fn all_settled<T: PartialOrd>(
    explored: Seq<T>,
    to_explore: Seq<T>,
    states: Seq<T>,
) -> bool {
    forall|j: int| 0 <= j < states.len() ==> settled(explored, to_explore, #[trigger] states[j])
}

/// `state` has a list of immediate predecessors all of which are settled.
pub open spec fn expanded<T: PartialOrd, P: PredBasis<T> + ?Sized>(
    ts: &P,
    explored: Seq<T>,
    to_explore: Seq<T>,
    state: T,
) -> bool {
    exists|basis: Seq<T>| #[trigger]
        ts.is_basis(&state, basis) && all_settled(explored, to_explore, basis)
}

/// The bookkeeping of the search is sound: the target is settled, no
/// explored state is dominated by an initial state, and every explored
/// state has a list of predecessors all of which are settled.
pub open spec fn closed_under<T: PartialOrd, P: PredBasis<T> + ?Sized>(
    ts: &P,
    fin: T,
    init: Seq<T>,
    explored: Seq<T>,
    to_explore: Seq<T>,
) -> bool {
    &&& settled(explored, to_explore, fin)
    &&& forall|k: int|
        0 <= k < explored.len() ==> !some_above(init, &#[trigger] explored[k])
    &&& forall|k: int|
        0 <= k < explored.len() ==> expanded(ts, explored, to_explore, #[trigger] explored[k])
}

/// One round of the search on a worklist that is not empty. The state on
/// top of the worklist is popped. If an explored state lies below it, it is
/// dropped and its predecessors are not computed. Otherwise, if an initial
/// state dominates it, the round reports that the target is covered.
/// Otherwise its predecessors are pushed and it joins the explored states.
pub fn explore_next<T: PartialOrd, P: PredBasis<T> + ?Sized>(
    ts: &P,
    init: &Vec<T>,
    to_explore: &mut Vec<T>,
    explored: &mut Vec<T>,
) -> (found: bool)
    requires
        T::obeys_partial_cmp_spec(),
        old(to_explore).len() > 0,
        !some_below(old(explored)@, &old(to_explore)@.last()) && !some_above(
            init@,
            &old(to_explore)@.last(),
        ) ==> ts.admits(&old(to_explore)@.last()),
    ensures
        ({
            let curr = old(to_explore)@.last();
            let rest = old(to_explore)@.drop_last();
            if some_below(old(explored)@, &curr) {
                &&& !found
                &&& final(to_explore)@ == rest
                &&& final(explored)@ == old(explored)@
            } else if some_above(init@, &curr) {
                &&& found
                &&& final(to_explore)@ == rest
                &&& final(explored)@ == old(explored)@
            } else {
                &&& !found
                &&& final(explored)@ == old(explored)@.push(curr)
                &&& exists|basis: Seq<T>| #[trigger]
                    ts.is_basis(&curr, basis) && final(to_explore)@ == rest + basis
            }
        }),
{
    let curr = to_explore.pop().unwrap();
    if exists_le_than(explored, &curr) {
        return false;
    }
    if exists_ge_than(init, &curr) {
        return true;
    }
    let mut basis = ts.pred_basis(&curr);
    let ghost handed = basis@;
    to_explore.append(&mut basis);
    explored.push(curr);
    proof {
        assert(ts.is_basis(&curr, handed) && to_explore@ == old(to_explore)@.drop_last() + handed);
    }
    false
}

/// The target is backward reachable from itself.
pub proof fn lemma_reach_start<T, P: PredBasis<T> + ?Sized>(ts: &P, fin: T)
    ensures
        backward_reachable(ts, fin, fin),
{
    let path = seq![fin];
    assert(backward_path(ts, path));
    assert(path.len() > 0 && path[0] == fin && path.last() == fin);
}

/// An immediate predecessor of a backward reachable state is backward
/// reachable.
pub proof fn lemma_reach_step<T, P: PredBasis<T> + ?Sized>(ts: &P, fin: T, state: T, pred: T)
    requires
        backward_reachable(ts, fin, state),
        steps_back(ts, state, pred),
    ensures
        backward_reachable(ts, fin, pred),
{
    let path = choose|path: Seq<T>|
        path.len() > 0 && path[0] == fin && path.last() == state && #[trigger] backward_path(
            ts,
            path,
        );
    let longer = path.push(pred);
    assert forall|k: int, l: int| 0 <= k && l == k + 1 && l < longer.len() implies steps_back(
        ts,
        #[trigger] longer[k],
        #[trigger] longer[l],
    ) by {
        if l < path.len() {
            assert(steps_back(ts, path[k], path[l]));
        }
    }
    assert(backward_path(ts, longer));
    assert(longer.len() > 0 && longer[0] == fin && longer.last() == pred);
}

/// A settled state stays settled when the top of the worklist is dropped
/// because an explored state lies below it.
proof fn lemma_settled_after_prune<T: PartialOrd>(explored: Seq<T>, to_explore: Seq<T>, state: T)
    requires
        to_explore.len() > 0,
        some_below(explored, &to_explore.last()),
        settled(explored, to_explore, state),
    ensures
        settled(explored, to_explore.drop_last(), state),
{
    if to_explore.contains(state) {
        let i = choose|i: int| 0 <= i < to_explore.len() && to_explore[i] == state;
        if i < to_explore.len() - 1 {
            assert(to_explore.drop_last()[i] == state);
        }
    }
}

/// A settled state stays settled when the top of the worklist joins the
/// explored states and `basis` is pushed in its place.
proof fn lemma_settled_after_expand<T: PartialOrd>(
    explored: Seq<T>,
    to_explore: Seq<T>,
    basis: Seq<T>,
    state: T,
)
    requires
        to_explore.len() > 0,
        settled(explored, to_explore, state),
    ensures
        settled(explored.push(to_explore.last()), to_explore.drop_last() + basis, state),
{
    let grown = explored.push(to_explore.last());
    let next = to_explore.drop_last() + basis;
    if to_explore.contains(state) {
        let i = choose|i: int| 0 <= i < to_explore.len() && to_explore[i] == state;
        if i < to_explore.len() - 1 {
            assert(next[i] == state);
        } else {
            assert(grown[explored.len() as int] == state);
        }
    } else if explored.contains(state) {
        let i = choose|i: int| 0 <= i < explored.len() && explored[i] == state;
        assert(grown[i] == state);
    } else {
        let i = choose|i: int| 0 <= i < explored.len() && below(&#[trigger] explored[i], &state);
        assert(below(&grown[i], &state));
    }
}

proof fn lemma_closed_after_prune<T: PartialOrd, P: PredBasis<T> + ?Sized>(
    ts: &P,
    fin: T,
    init: Seq<T>,
    explored: Seq<T>,
    to_explore: Seq<T>,
)
    requires
        to_explore.len() > 0,
        some_below(explored, &to_explore.last()),
        closed_under(ts, fin, init, explored, to_explore),
    ensures
        closed_under(ts, fin, init, explored, to_explore.drop_last()),
{
    let rest = to_explore.drop_last();
    lemma_settled_after_prune(explored, to_explore, fin);
    assert forall|k: int| 0 <= k < explored.len() implies expanded(
        ts,
        explored,
        rest,
        #[trigger] explored[k],
    ) by {
        assert(expanded(ts, explored, to_explore, explored[k]));
        let basis = choose|basis: Seq<T>| #[trigger]
            ts.is_basis(&explored[k], basis) && all_settled(explored, to_explore, basis);
        assert forall|j: int| 0 <= j < basis.len() implies settled(
            explored,
            rest,
            #[trigger] basis[j],
        ) by {
            lemma_settled_after_prune(explored, to_explore, basis[j]);
        }
        assert(ts.is_basis(&explored[k], basis) && all_settled(explored, rest, basis));
    }
}

proof fn lemma_closed_after_expand<T: PartialOrd, P: PredBasis<T> + ?Sized>(
    ts: &P,
    fin: T,
    init: Seq<T>,
    explored: Seq<T>,
    to_explore: Seq<T>,
    handed: Seq<T>,
)
    requires
        to_explore.len() > 0,
        !some_above(init, &to_explore.last()),
        ts.is_basis(&to_explore.last(), handed),
        closed_under(ts, fin, init, explored, to_explore),
    ensures
        closed_under(
            ts,
            fin,
            init,
            explored.push(to_explore.last()),
            to_explore.drop_last() + handed,
        ),
{
    let curr = to_explore.last();
    let grown = explored.push(curr);
    let next = to_explore.drop_last() + handed;
    lemma_settled_after_expand(explored, to_explore, handed, fin);
    assert forall|k: int| 0 <= k < grown.len() implies expanded(
        ts,
        grown,
        next,
        #[trigger] grown[k],
    ) by {
        if k < explored.len() {
            assert(expanded(ts, explored, to_explore, explored[k]));
            let basis = choose|basis: Seq<T>| #[trigger]
                ts.is_basis(&explored[k], basis) && all_settled(explored, to_explore, basis);
            assert forall|j: int| 0 <= j < basis.len() implies settled(
                grown,
                next,
                #[trigger] basis[j],
            ) by {
                lemma_settled_after_expand(explored, to_explore, handed, basis[j]);
            }
            assert(ts.is_basis(&grown[k], basis) && all_settled(grown, next, basis));
        } else {
            assert forall|j: int| 0 <= j < handed.len() implies settled(
                grown,
                next,
                #[trigger] handed[j],
            ) by {
                assert(next[to_explore.len() - 1 + j] == handed[j]);
            }
            assert(ts.is_basis(&grown[k], handed) && all_settled(grown, next, handed));
        }
    }
    assert forall|k: int| 0 <= k < grown.len() implies !some_above(init, &#[trigger] grown[k]) by {
        if k < explored.len() {
            assert(grown[k] == explored[k]);
        }
    }
}

/// Below every state on a backward path from the target lies an explored
/// state, once the bookkeeping is closed and the worklist is empty.
proof fn lemma_path_dominated<T: PartialOrd, P: PredBasis<T> + ?Sized>(
    ts: &P,
    fin: T,
    init: Seq<T>,
    explored: Seq<T>,
    path: Seq<T>,
)
    requires
        preorder::<T>(),
        monotone(ts),
        closed_under(ts, fin, init, explored, Seq::<T>::empty()),
        path.len() > 0,
        path[0] == fin,
        backward_path(ts, path),
    ensures
        some_below(explored, &path.last()),
    decreases path.len(),
{
    let none = Seq::<T>::empty();
    if path.len() == 1 {
        lemma_settled_dominated(explored, fin);
    } else {
        let shorter = path.drop_last();
        let state = shorter.last();
        let pred = path.last();
        assert forall|k: int, l: int| 0 <= k && l == k + 1 && l < shorter.len() implies steps_back(
            ts,
            #[trigger] shorter[k],
            #[trigger] shorter[l],
        ) by {
            assert(steps_back(ts, path[k], path[l]));
        }
        lemma_path_dominated(ts, fin, init, explored, shorter);
        let i = choose|i: int| 0 <= i < explored.len() && below(&#[trigger] explored[i], &state);
        assert(expanded(ts, explored, none, explored[i]));
        let lower = choose|basis: Seq<T>| #[trigger]
            ts.is_basis(&explored[i], basis) && all_settled(explored, none, basis);
        assert(steps_back(ts, path[path.len() - 2], path[path.len() - 1]));
        assert(faces(ts, explored[i], lower, state, pred));
        assert(some_below(lower, &pred));
        let m = choose|m: int| 0 <= m < lower.len() && below(&#[trigger] lower[m], &pred);
        assert(settled(explored, none, lower[m]));
        lemma_settled_dominated(explored, lower[m]);
        let n = choose|n: int| 0 <= n < explored.len() && below(&#[trigger] explored[n], &lower[m]);
        assert(below(&explored[n], &lower[m]) && below(&lower[m], &pred));
        assert(below(&explored[n], &pred));
    }
}

/// With an empty worklist, a settled state has an explored state below it.
proof fn lemma_settled_dominated<T: PartialOrd>(explored: Seq<T>, state: T)
    requires
        preorder::<T>(),
        settled(explored, Seq::<T>::empty(), state),
    ensures
        some_below(explored, &state),
{
    if explored.contains(state) {
        let i = choose|i: int| 0 <= i < explored.len() && explored[i] == state;
        assert(below(&explored[i], &state));
    }
}

/// A closed set of explored states is a certificate of safety. If the
/// order is a preorder and the system is monotone, and the explored states
/// are closed under predecessors up to domination with nothing left to
/// explore, then no initial state dominates a backward reachable state.
pub proof fn lemma_closed_blocks_cover<T: PartialOrd, P: PredBasis<T> + ?Sized>(
    ts: &P,
    fin: T,
    init: Seq<T>,
    explored: Seq<T>,
)
    requires
        preorder::<T>(),
        monotone(ts),
        closed_under(ts, fin, init, explored, Seq::<T>::empty()),
    ensures
        !coverable(ts, fin, init),
{
    if coverable(ts, fin, init) {
        let state = choose|state: T| #[trigger]
            backward_reachable(ts, fin, state) && some_above(init, &state);
        let path = choose|path: Seq<T>|
            path.len() > 0 && path[0] == fin && path.last() == state && #[trigger] backward_path(
                ts,
                path,
            );
        lemma_path_dominated(ts, fin, init, explored, path);
        let k = choose|k: int| 0 <= k < explored.len() && below(&#[trigger] explored[k], &state);
        let i = choose|i: int| 0 <= i < init.len() && above(&#[trigger] init[i], &state);
        assert(below(&state, &init[i]));
        assert(below(&explored[k], &state) && below(&state, &init[i]));
        assert(below(&explored[k], &init[i]));
        assert(above(&init[i], &explored[k]));
        assert(some_above(init, &explored[k]));
    }
}

/// Decides whether some initial state dominates a state from which the
/// target `fin` is reached by steps of the system, by exploring the
/// predecessors of `fin` and dropping every state above an explored one.
///
/// The search need not come to an end on every system: that it does so here
/// is the caller's to show. A positive answer is always right. A negative
/// one is right where the order is a preorder and the system is monotone.
pub fn is_backward_reach<T: PartialOrd, P: PredBasis<T> + ?Sized>(
    ts: &P,
    fin: T,
    init: Vec<T>,
) -> (reached: bool)
    requires
        T::obeys_partial_cmp_spec(),
        search_halts(ts, fin, init@),
    ensures
        reached ==> coverable(ts, fin, init@),
        !reached ==> exists|explored: Seq<T>| #[trigger]
            closed_under(ts, fin, init@, explored, Seq::<T>::empty()),
        preorder::<T>() && monotone(ts) ==> reached == coverable(ts, fin, init@),
{
    is_backward_reach_observed(ts, fin, init, |_state: &T| {})
}

/// The search of `is_backward_reach`, with an observer that is shown every
/// state taken from the worklist, before anything is decided about it. The
/// observer is only ever shown states that are backward reachable from
/// `fin`.
pub fn is_backward_reach_observed<T: PartialOrd, P: PredBasis<T> + ?Sized, F: Fn(&T)>(
    ts: &P,
    fin: T,
    init: Vec<T>,
    observer: F,
) -> (reached: bool)
    requires
        T::obeys_partial_cmp_spec(),
        search_halts(ts, fin, init@),
        forall|state: &T| backward_reachable(ts, fin, *state) ==> call_requires(observer, (state,)),
    ensures
        reached ==> coverable(ts, fin, init@),
        !reached ==> exists|explored: Seq<T>| #[trigger]
            closed_under(ts, fin, init@, explored, Seq::<T>::empty()),
        preorder::<T>() && monotone(ts) ==> reached == coverable(ts, fin, init@),
{
    let ghost target = fin;
    let ghost mut fuel: int = choose|fuel: int| #[trigger]
        runs_within(ts, init@, seq![target], Seq::<T>::empty(), fuel);
    let mut to_explore: Vec<T> = vec![fin];
    let mut explored: Vec<T> = Vec::new();
    proof {
        assert(to_explore@ =~= seq![target]);
        assert(to_explore@[0] == target);
        lemma_reach_start(ts, target);
    }
    while to_explore.len() > 0
        invariant
            T::obeys_partial_cmp_spec(),
            target == fin,
            runs_within(ts, init@, to_explore@, explored@, fuel),
            forall|j: int|
                0 <= j < to_explore.len() ==> backward_reachable(
                    ts,
                    target,
                    #[trigger] to_explore@[j],
                ),
            closed_under(ts, target, init@, explored@, to_explore@),
            forall|state: &T|
                backward_reachable(ts, target, *state) ==> call_requires(observer, (state,)),
        decreases fuel,
    {
        let ghost worklist = to_explore@;
        let ghost seen = explored@;
        let ghost curr = worklist.last();
        observer(&to_explore[to_explore.len() - 1]);
        let found = explore_next(ts, &init, &mut to_explore, &mut explored);
        if found {
            proof {
                assert(backward_reachable(ts, target, worklist[worklist.len() - 1]));
                assert(some_above(init@, &curr));
            }
            return true;
        }
        proof {
            if some_below(seen, &curr) {
                lemma_closed_after_prune(ts, target, init@, seen, worklist);
            } else {
                let handed = choose|basis: Seq<T>| #[trigger]
                    ts.is_basis(&curr, basis) && to_explore@ == worklist.drop_last() + basis;
                lemma_closed_after_expand(ts, target, init@, seen, worklist, handed);
                assert(backward_reachable(ts, target, worklist[worklist.len() - 1]));
                assert forall|j: int| 0 <= j < to_explore.len() implies backward_reachable(
                    ts,
                    target,
                    #[trigger] to_explore@[j],
                ) by {
                    if j < worklist.len() - 1 {
                        assert(to_explore@[j] == worklist[j]);
                    } else {
                        assert(to_explore@[j] == handed[j - (worklist.len() - 1)]);
                        assert(steps_back(ts, curr, to_explore@[j]));
                        lemma_reach_step(ts, target, curr, to_explore@[j]);
                    }
                }
            }
            fuel = fuel - 1;
        }
    }
    proof {
        assert(to_explore@ =~= Seq::<T>::empty());
        assert(closed_under(ts, fin, init@, explored@, Seq::<T>::empty()));
        if preorder::<T>() && monotone(ts) {
            lemma_closed_blocks_cover(ts, target, init@, explored@);
        }
    }
    false
}

} // verus!
