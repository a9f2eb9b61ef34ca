//! The mathematics of work-list search, independent of where the states come
//! from.
//!
//! A search space is a function `adj` that gives every state its neighbours
//! in a fixed order. A search keeps a work list and a set of states already
//! seen; it takes the head of the work list, stops if that is the target,
//! and otherwise adds the head's unseen neighbours to the work list. The
//! order in which they are added is the only difference between the
//! breadth-first and the depth-first search.

use vstd::prelude::*;

verus! {

/// Where newly discovered states enter the work list.
pub enum Order {
    /// At the back, in neighbour order: the work list is a queue.
    BreadthFirst,
    /// At the front, the neighbours taken from last to first: the work list
    /// is a stack.
    DepthFirst,
}

/// The candidates that are not in `seen`, each once, in the order of their
/// first occurrence.
pub open spec fn unseen<T>(cands: Seq<T>, seen: Set<T>) -> Seq<T>
    decreases cands.len(),
{
    if cands.len() == 0 {
        Seq::empty()
    } else {
        let earlier = unseen(cands.drop_last(), seen);
        let c = cands.last();
        if seen.contains(c) || earlier.contains(c) {
            earlier
        } else {
            earlier.push(c)
        }
    }
}

/// The neighbours in the order in which a search looks at them.
pub open spec fn scan_order<T>(order: Order, neighbours: Seq<T>) -> Seq<T> {
    match order {
        Order::BreadthFirst => neighbours,
        Order::DepthFirst => neighbours.reverse(),
    }
}

/// The states that expanding a state with these neighbours discovers, in the
/// order of discovery.
pub open spec fn discovered<T>(order: Order, neighbours: Seq<T>, seen: Set<T>) -> Seq<T> {
    unseen(scan_order(order, neighbours), seen)
}

/// The work list after the discovered states have joined what was left of it.
pub open spec fn merged<T>(order: Order, rest: Seq<T>, found: Seq<T>) -> Seq<T> {
    match order {
        Order::BreadthFirst => rest + found,
        Order::DepthFirst => found.reverse() + rest,
    }
}

/// `head` put in front of a history, if there is one.
pub open spec fn prepend<T>(head: T, tail: Option<Seq<T>>) -> Option<Seq<T>> {
    match tail {
        Some(t) => Some(seq![head] + t),
        None => None,
    }
}

/// The states visited from the given work list on, up to and including the
/// target, or `None` if the work list runs empty first. `fuel` bounds the
/// number of states taken from the work list.
pub open spec fn visit<T>(
    adj: spec_fn(T) -> Seq<T>,
    order: Order,
    target: T,
    work: Seq<T>,
    seen: Set<T>,
    fuel: nat,
) -> Option<Seq<T>>
    decreases fuel,
{
    if fuel == 0 || work.len() == 0 {
        None
    } else if work.first() == target {
        Some(seq![target])
    } else {
        let found = discovered(order, adj(work.first()), seen);
        prepend(
            work.first(),
            visit(
                adj,
                order,
                target,
                merged(order, work.drop_first(), found),
                seen.union(found.to_set()),
                (fuel - 1) as nat,
            ),
        )
    }
}

/// The history so far followed by what the rest of the search visits.
pub open spec fn continued<T>(history: Seq<T>, rest: Option<Seq<T>>) -> Option<Seq<T>> {
    match rest {
        Some(r) => Some(history + r),
        None => None,
    }
}

/// The history of a whole search from `start` for `target`. The start is
/// on the work list and marked as seen before the search begins, so that it
/// is never put on the work list again.
pub open spec fn explore<T>(
    adj: spec_fn(T) -> Seq<T>,
    order: Order,
    start: T,
    target: T,
    fuel: nat,
) -> Option<Seq<T>> {
    visit(adj, order, target, seq![start], set![start], fuel)
}

/// The state after position `i` of `p` is a neighbour of the state at `i`.
pub open spec fn follows<T>(adj: spec_fn(T) -> Seq<T>, p: Seq<T>, i: int) -> bool {
    adj(p[i]).contains(p[i + 1])
}

/// `p` is a walk: it is not empty and each state in it is a neighbour of the
/// one before.
pub open spec fn is_walk<T>(adj: spec_fn(T) -> Seq<T>, p: Seq<T>) -> bool {
    &&& p.len() > 0
    &&& forall|i: int| 0 <= i < p.len() - 1 ==> #[trigger] follows(adj, p, i)
}

/// There is a walk from `from` to `to`. A state reaches itself.
pub open spec fn reachable<T>(adj: spec_fn(T) -> Seq<T>, from: T, to: T) -> bool {
    exists|p: Seq<T>| is_walk(adj, p) && p.first() == from && p.last() == to
}

/// There is a walk from `from` to `to` of at most `moves` moves.
pub open spec fn within<T>(adj: spec_fn(T) -> Seq<T>, from: T, to: T, moves: nat) -> bool {
    exists|p: Seq<T>| #[trigger]
        is_walk(adj, p) && p.first() == from && p.last() == to && p.len() <= moves + 1
}

/// No state of `h` comes before one that is nearer to `start`: whatever
/// number of moves brings a walk from `start` to a state of `h` also
/// brings one to each state before it.
pub open spec fn in_level_order<T>(adj: spec_fn(T) -> Seq<T>, start: T, h: Seq<T>) -> bool {
    forall|i: int, j: int, n: nat|
        #![trigger h[i], within(adj, start, h[j], n)]
        0 <= i <= j < h.len() && within(adj, start, h[j], n) ==> within(adj, start, h[i], n)
}

/// The state at position `i` of `h` is a neighbour of a state before it.
pub open spec fn has_parent<T>(adj: spec_fn(T) -> Seq<T>, h: Seq<T>, i: int) -> bool {
    exists|j: int| 0 <= j < i && #[trigger] adj(h[j]).contains(h[i])
}

/// Every state of `h` from position `from` on, the very first excepted, is a
/// neighbour of a state before it.
pub open spec fn has_parents<T>(adj: spec_fn(T) -> Seq<T>, h: Seq<T>, from: int) -> bool {
    forall|i: int| from <= i < h.len() && 0 < i ==> #[trigger] has_parent(adj, h, i)
}

/// `x` is a neighbour of a state in `past`.
pub open spec fn comes_from<T>(adj: spec_fn(T) -> Seq<T>, past: Seq<T>, x: T) -> bool {
    exists|j: int| 0 <= j < past.len() && #[trigger] adj(past[j]).contains(x)
}

/// The history so far and the work list hold no state twice between them, and
/// every state in them is marked as seen.
pub open spec fn distinct<T>(past: Seq<T>, work: Seq<T>, seen: Set<T>) -> bool {
    &&& (past + work).no_duplicates()
    &&& forall|x: T| #[trigger] (past + work).contains(x) ==> seen.contains(x)
}

/// The search stays in `universe`: every neighbour of a state on the work
/// list, and of a state of the universe, lies in the universe.
pub open spec fn confined<T>(adj: spec_fn(T) -> Seq<T>, universe: Set<T>, work: Seq<T>) -> bool {
    forall|v: T, x: T|
        (work.contains(v) || universe.contains(v)) && #[trigger] adj(v).contains(x)
            ==> universe.contains(x)
}

/// The fuel covers every state that can still be taken from the work list:
/// those on it and those of the universe not yet seen.
pub open spec fn covers<T>(universe: Set<T>, work: Seq<T>, seen: Set<T>, fuel: nat) -> bool {
    universe.finite() && work.len() + universe.difference(seen).len() <= fuel
}

/// The state of a breadth-first search, seen as the sequence `found` of all
/// states discovered so far, of which the first `done` have been visited,
/// with the number of moves that the nearest walk from `start` to each takes.
///
/// The numbers do not fall along the sequence and differ by one at most
/// between the states that wait. Each is the least number of moves to its
/// state. Every state that is as near as the first that waits has been
/// discovered, and so have all neighbours of the states visited.
pub open spec fn leveled<T>(
    adj: spec_fn(T) -> Seq<T>,
    start: T,
    found: Seq<T>,
    done: int,
    level: Seq<nat>,
) -> bool {
    &&& 0 <= done < found.len() == level.len()
    &&& forall|i: int, j: int| 0 <= i <= j < level.len() ==> level[i] <= level[j]
    &&& level.last() <= level[done] + 1
    &&& forall|k: int| 0 <= k < found.len() ==> within(adj, start, #[trigger] found[k], level[k])
    &&& forall|k: int, n: nat|
        0 <= k < found.len() && #[trigger] within(adj, start, found[k], n) ==> level[k] <= n
    &&& forall|v: T, n: nat| #[trigger]
        within(adj, start, v, n) && n <= level[done] ==> found.contains(v)
    &&& forall|k: int, x: T|
        0 <= k < done && #[trigger] adj(found[k]).contains(x) ==> found.contains(x)
}

/// What `unseen` keeps: no state twice, and exactly the candidates that are
/// not in `seen`.
pub proof fn lemma_unseen<T>(cands: Seq<T>, seen: Set<T>)
    ensures
        unseen(cands, seen).no_duplicates(),
        unseen(cands, seen).len() <= cands.len(),
        forall|x: T| #[trigger]
            unseen(cands, seen).contains(x) <==> cands.contains(x) && !seen.contains(x),
    decreases cands.len(),
{
    let out = unseen(cands, seen);
    if cands.len() > 0 {
        let earlier = unseen(cands.drop_last(), seen);
        lemma_unseen(cands.drop_last(), seen);
        assert forall|x: T| #[trigger] out.contains(x) <==> cands.contains(x) && !seen.contains(
            x,
        ) by {
            if out.contains(x) {
                let i = choose|i: int| 0 <= i < out.len() && out[i] == x;
                if i < earlier.len() {
                    assert(earlier.contains(x));
                }
            }
            if cands.contains(x) && !seen.contains(x) {
                let j = choose|j: int| 0 <= j < cands.len() && cands[j] == x;
                if j < cands.len() - 1 {
                    assert(cands.drop_last()[j] == x);
                    assert(earlier.contains(x));
                    let i = choose|i: int| 0 <= i < earlier.len() && earlier[i] == x;
                    assert(out[i] == x);
                } else if !earlier.contains(x) {
                    assert(out[out.len() - 1] == x);
                }
            }
        }
    }
}

/// Marking states that are new to `seen` takes as many states out of the
/// unseen part of the universe as were marked.
pub proof fn lemma_marking_shrinks_unseen<T>(universe: Set<T>, seen: Set<T>, found: Seq<T>)
    requires
        universe.finite(),
        found.no_duplicates(),
        forall|x: T| #[trigger] found.contains(x) ==> universe.contains(x) && !seen.contains(x),
    ensures
        universe.difference(seen.union(found.to_set())).len() + found.len()
            == universe.difference(seen).len(),
    decreases found.len(),
{
    if found.len() == 0 {
        assert(seen.union(found.to_set()) =~= seen);
    } else {
        let before = found.drop_last();
        let x = found.last();
        assert forall|y: T| #[trigger] before.contains(y) implies universe.contains(y)
            && !seen.contains(y) by {
            assert(found.contains(y));
        }
        lemma_marking_shrinks_unseen(universe, seen, before);
        assert(found.contains(x));
        if before.contains(x) {
            let i = choose|i: int| 0 <= i < before.len() && before[i] == x;
            assert(found[i] == found[found.len() - 1]);
        }
        let left = universe.difference(seen.union(before.to_set()));
        assert(universe.difference(seen.union(found.to_set())) =~= left.remove(x)) by {
            assert forall|y: T| found.to_set().contains(y) <==> before.to_set().contains(y) || y
                == x by {
                if found.contains(y) {
                    let i = choose|i: int| 0 <= i < found.len() && found[i] == y;
                    if i < found.len() - 1 {
                        assert(before[i] == y);
                    }
                }
            }
        }
    }
}

/// Looking at one more candidate: it is discovered if it is neither seen nor
/// among the candidates discovered before it.
pub proof fn lemma_unseen_next<T>(cands: Seq<T>, seen: Set<T>, i: int)
    requires
        0 <= i < cands.len(),
    ensures
        unseen(cands.take(i + 1), seen) == if seen.contains(cands[i]) || unseen(
            cands.take(i),
            seen,
        ).contains(cands[i]) {
            unseen(cands.take(i), seen)
        } else {
            unseen(cands.take(i), seen).push(cands[i])
        },
{
    assert(cands.take(i + 1).drop_last() == cands.take(i));
}

/// Visiting a state and then the rest is the same as having it in the
/// history before the rest is visited.
pub proof fn lemma_continued_prepend<T>(history: Seq<T>, head: T, rest: Option<Seq<T>>)
    ensures
        continued(history, prepend(head, rest)) == continued(history.push(head), rest),
{
}

/// The states of a sequence with one more pushed are those of the sequence
/// and the one pushed.
pub proof fn lemma_push_to_set<T>(s: Seq<T>, x: T)
    ensures
        s.push(x).to_set() == s.to_set().insert(x),
{
    let t = s.push(x);
    assert forall|y: T| t.to_set().contains(y) <==> s.to_set().insert(x).contains(y) by {
        if s.contains(y) {
            let i = choose|i: int| 0 <= i < s.len() && s[i] == y;
            assert(t[i] == y);
        }
        assert(t[s.len() as int] == x);
    }
}

/// A reversed sequence holds the same states.
pub proof fn lemma_reverse_contains<T>(s: Seq<T>)
    ensures
        forall|x: T| #[trigger] s.reverse().contains(x) <==> s.contains(x),
{
    let r = s.reverse();
    assert forall|x: T| #[trigger] r.contains(x) <==> s.contains(x) by {
        if s.contains(x) {
            let i = choose|i: int| 0 <= i < s.len() && s[i] == x;
            assert(r[s.len() - 1 - i] == x);
        }
    }
}

/// What expanding a state discovers: states that are neighbours of it and
/// were not seen, none of them twice; and every neighbour is seen afterwards.
pub proof fn lemma_discovered<T>(order: Order, neighbours: Seq<T>, seen: Set<T>)
    ensures
        discovered(order, neighbours, seen).no_duplicates(),
        forall|x: T| #[trigger]
            discovered(order, neighbours, seen).contains(x) <==> neighbours.contains(x)
                && !seen.contains(x),
{
    lemma_unseen(scan_order(order, neighbours), seen);
    lemma_reverse_contains(neighbours);
}

/// Membership in the merged work list.
pub proof fn lemma_merged_contains<T>(order: Order, rest: Seq<T>, found: Seq<T>)
    ensures
        merged(order, rest, found).len() == rest.len() + found.len(),
        forall|x: T| #[trigger]
            merged(order, rest, found).contains(x) <==> rest.contains(x) || found.contains(x),
{
    let m = merged(order, rest, found);
    lemma_reverse_contains(found);
    let front = match order {
        Order::BreadthFirst => rest,
        Order::DepthFirst => found.reverse(),
    };
    let back = match order {
        Order::BreadthFirst => found,
        Order::DepthFirst => rest,
    };
    assert forall|x: T| #[trigger] m.contains(x) <==> front.contains(x) || back.contains(x) by {
        if front.contains(x) {
            let i = choose|i: int| 0 <= i < front.len() && front[i] == x;
            assert(m[i] == x);
        }
        if back.contains(x) {
            let i = choose|i: int| 0 <= i < back.len() && back[i] == x;
            assert(m[i + front.len()] == x);
        }
    }
}

/// One step of a search whose fuel covers its state leaves a state that the
/// remaining fuel covers.
pub proof fn lemma_step_covered<T>(
    adj: spec_fn(T) -> Seq<T>,
    order: Order,
    universe: Set<T>,
    work: Seq<T>,
    seen: Set<T>,
    fuel: nat,
)
    requires
        confined(adj, universe, work),
        covers(universe, work, seen, fuel),
        work.len() > 0,
    ensures
        fuel > 0,
        covers(
            universe,
            merged(order, work.drop_first(), discovered(order, adj(work.first()), seen)),
            seen.union(discovered(order, adj(work.first()), seen).to_set()),
            (fuel - 1) as nat,
        ),
        confined(
            adj,
            universe,
            merged(order, work.drop_first(), discovered(order, adj(work.first()), seen)),
        ),
{
    let found = discovered(order, adj(work.first()), seen);
    assert(work.contains(work.first()));
    lemma_discovered(order, adj(work.first()), seen);
    lemma_merged_contains(order, work.drop_first(), found);
    lemma_marking_shrinks_unseen(universe, seen, found);
}

/// A history that a search returns starts with the head of the work list and
/// holds the target at its end and nowhere else.
pub proof fn lemma_visit_shape<T>(
    adj: spec_fn(T) -> Seq<T>,
    order: Order,
    target: T,
    work: Seq<T>,
    seen: Set<T>,
    fuel: nat,
)
    requires
        visit(adj, order, target, work, seen, fuel) is Some,
    ensures
        ({
            let h = visit(adj, order, target, work, seen, fuel)->0;
            &&& h.len() > 0
            &&& work.len() > 0
            &&& h.first() == work.first()
            &&& h.last() == target
            &&& forall|i: int| 0 <= i < h.len() - 1 ==> h[i] != target
        }),
    decreases fuel,
{
    if work.first() != target {
        let found = discovered(order, adj(work.first()), seen);
        lemma_visit_shape(
            adj,
            order,
            target,
            merged(order, work.drop_first(), found),
            seen.union(found.to_set()),
            (fuel - 1) as nat,
        );
    }
}

/// Every state reaches itself.
pub proof fn lemma_reachable_self<T>(adj: spec_fn(T) -> Seq<T>, a: T)
    ensures
        reachable(adj, a, a),
{
    let p = seq![a];
    assert(is_walk(adj, p) && p.first() == a && p.last() == a);
}

/// A walk can be continued by a neighbour of its end.
pub proof fn lemma_reachable_step<T>(adj: spec_fn(T) -> Seq<T>, a: T, b: T, c: T)
    requires
        reachable(adj, a, b),
        adj(b).contains(c),
    ensures
        reachable(adj, a, c),
{
    let p = choose|p: Seq<T>| is_walk(adj, p) && p.first() == a && p.last() == b;
    let q = p.push(c);
    assert forall|i: int| 0 <= i < q.len() - 1 implies #[trigger] follows(adj, q, i) by {
        if i < p.len() - 1 {
            assert(follows(adj, p, i));
        }
    }
    assert(is_walk(adj, q) && q.first() == a && q.last() == c);
}

/// A set that holds the neighbours of each of its states holds every state
/// that one of its states reaches.
pub proof fn lemma_closed_set_holds_reachable<T>(
    adj: spec_fn(T) -> Seq<T>,
    closed: Set<T>,
    a: T,
    b: T,
)
    requires
        forall|v: T, x: T|
            closed.contains(v) && #[trigger] adj(v).contains(x) ==> closed.contains(x),
        closed.contains(a),
        reachable(adj, a, b),
    ensures
        closed.contains(b),
{
    let p = choose|p: Seq<T>| is_walk(adj, p) && p.first() == a && p.last() == b;
    lemma_walk_stays(adj, closed, p, p.len() - 1);
}

/// A walk that starts in a set that holds the neighbours of each of its
/// states stays in it.
proof fn lemma_walk_stays<T>(adj: spec_fn(T) -> Seq<T>, closed: Set<T>, p: Seq<T>, i: int)
    requires
        forall|v: T, x: T|
            closed.contains(v) && #[trigger] adj(v).contains(x) ==> closed.contains(x),
        is_walk(adj, p),
        closed.contains(p.first()),
        0 <= i < p.len(),
    ensures
        closed.contains(p[i]),
    decreases i,
{
    if i > 0 {
        lemma_walk_stays(adj, closed, p, i - 1);
        assert(follows(adj, p, i - 1));
    }
}

/// Every state in a history is reached from `root`, if every state on the
/// work list is.
pub proof fn lemma_visit_sound<T>(
    adj: spec_fn(T) -> Seq<T>,
    order: Order,
    target: T,
    root: T,
    work: Seq<T>,
    seen: Set<T>,
    fuel: nat,
)
    requires
        forall|w: T| #[trigger] work.contains(w) ==> reachable(adj, root, w),
        visit(adj, order, target, work, seen, fuel) is Some,
    ensures
        forall|i: int|
            0 <= i < visit(adj, order, target, work, seen, fuel)->0.len() ==> reachable(
                adj,
                root,
                #[trigger] visit(adj, order, target, work, seen, fuel)->0[i],
            ),
    decreases fuel,
{
    let cur = work.first();
    assert(work.contains(cur));
    if cur != target {
        let found = discovered(order, adj(cur), seen);
        let next = merged(order, work.drop_first(), found);
        lemma_discovered(order, adj(cur), seen);
        lemma_merged_contains(order, work.drop_first(), found);
        assert forall|w: T| #[trigger] next.contains(w) implies reachable(adj, root, w) by {
            if found.contains(w) {
                lemma_reachable_step(adj, root, cur, w);
            } else {
                let i = choose|i: int|
                    0 <= i < work.drop_first().len() && work.drop_first()[i] == w;
                assert(work[i + 1] == w);
                assert(work.contains(w));
            }
        }
        lemma_visit_sound(
            adj,
            order,
            target,
            root,
            next,
            seen.union(found.to_set()),
            (fuel - 1) as nat,
        );
    }
}

/// Every state in a history but the first waited on the work list behind
/// its head or lies in the universe that confines the neighbours.
pub proof fn lemma_visit_confined<T>(
    adj: spec_fn(T) -> Seq<T>,
    order: Order,
    target: T,
    universe: Set<T>,
    work: Seq<T>,
    seen: Set<T>,
    fuel: nat,
)
    requires
        confined(adj, universe, work),
        covers(universe, work, seen, fuel),
        visit(adj, order, target, work, seen, fuel) is Some,
    ensures
        forall|i: int|
            0 < i < visit(adj, order, target, work, seen, fuel)->0.len() ==> {
                let x = #[trigger] visit(adj, order, target, work, seen, fuel)->0[i];
                work.drop_first().contains(x) || universe.contains(x)
            },
    decreases fuel,
{
    let cur = work.first();
    if cur != target {
        let rest = work.drop_first();
        let found = discovered(order, adj(cur), seen);
        let next = merged(order, rest, found);
        let seen2 = seen.union(found.to_set());
        let h = visit(adj, order, target, work, seen, fuel)->0;
        let tail = visit(adj, order, target, next, seen2, (fuel - 1) as nat)->0;
        lemma_step_covered(adj, order, universe, work, seen, fuel);
        lemma_discovered(order, adj(cur), seen);
        lemma_merged_contains(order, rest, found);
        lemma_visit_shape(adj, order, target, next, seen2, (fuel - 1) as nat);
        assert(work.contains(cur));
        lemma_visit_confined(adj, order, target, universe, next, seen2, (fuel - 1) as nat);
        assert forall|i: int| 0 < i < h.len() implies rest.contains(#[trigger] h[i])
            || universe.contains(h[i]) by {
            let x = tail[i - 1];
            if i == 1 {
                assert(next.contains(x));
            } else if next.drop_first().contains(x) {
                assert(next.contains(x));
            }
        }
    }
}

/// A search that ends without a history has visited everything that `root`
/// reaches, and the target was not among it.
///
/// `done` is the set of states already taken from the work list: all their
/// neighbours have been seen, and everything seen is done or waits on the
/// work list.
pub proof fn lemma_visit_complete<T>(
    adj: spec_fn(T) -> Seq<T>,
    order: Order,
    target: T,
    universe: Set<T>,
    root: T,
    done: Set<T>,
    work: Seq<T>,
    seen: Set<T>,
    fuel: nat,
)
    requires
        confined(adj, universe, work),
        covers(universe, work, seen, fuel),
        forall|v: T, x: T| done.contains(v) && #[trigger] adj(v).contains(x) ==> seen.contains(x),
        forall|v: T| #[trigger] seen.contains(v) ==> done.contains(v) || work.contains(v),
        done.contains(root) || work.contains(root),
        !done.contains(target),
        visit(adj, order, target, work, seen, fuel) is None,
    ensures
        !reachable(adj, root, target),
    decreases fuel,
{
    if work.len() == 0 {
        if reachable(adj, root, target) {
            lemma_closed_set_holds_reachable(adj, done, root, target);
        }
    } else {
        let cur = work.first();
        let rest = work.drop_first();
        let found = discovered(order, adj(cur), seen);
        let next = merged(order, rest, found);
        let seen2 = seen.union(found.to_set());
        let done2 = done.insert(cur);
        lemma_step_covered(adj, order, universe, work, seen, fuel);
        lemma_discovered(order, adj(cur), seen);
        lemma_merged_contains(order, rest, found);
        assert forall|v: T| work.contains(v) implies v == cur || #[trigger] rest.contains(v) by {
            let i = choose|i: int| 0 <= i < work.len() && work[i] == v;
            if i > 0 {
                assert(rest[i - 1] == v);
            }
        }
        lemma_visit_complete(
            adj,
            order,
            target,
            universe,
            root,
            done2,
            next,
            seen2,
            (fuel - 1) as nat,
        );
    }
}

/// Fuel that covers the state of a search is as good as any other that does:
/// the history does not depend on it.
pub proof fn lemma_visit_fuel<T>(
    adj: spec_fn(T) -> Seq<T>,
    order: Order,
    target: T,
    universe: Set<T>,
    work: Seq<T>,
    seen: Set<T>,
    fuel: nat,
    other: nat,
)
    requires
        confined(adj, universe, work),
        covers(universe, work, seen, fuel),
        covers(universe, work, seen, other),
    ensures
        visit(adj, order, target, work, seen, fuel) == visit(
            adj,
            order,
            target,
            work,
            seen,
            other,
        ),
    decreases fuel,
{
    if work.len() > 0 && work.first() != target {
        let found = discovered(order, adj(work.first()), seen);
        lemma_step_covered(adj, order, universe, work, seen, fuel);
        lemma_step_covered(adj, order, universe, work, seen, other);
        lemma_visit_fuel(
            adj,
            order,
            target,
            universe,
            merged(order, work.drop_first(), found),
            seen.union(found.to_set()),
            (fuel - 1) as nat,
            (other - 1) as nat,
        );
    }
}

/// Every state that a search visits, but the one it started from, was
/// discovered as the neighbour of a state visited before it.
///
/// `past` is the history so far. Every state on the work list is a neighbour
/// of a state in it, but for the head of the work list when there is no
/// history yet.
pub proof fn lemma_visit_parents<T>(
    adj: spec_fn(T) -> Seq<T>,
    order: Order,
    target: T,
    past: Seq<T>,
    work: Seq<T>,
    seen: Set<T>,
    fuel: nat,
)
    requires
        forall|k: int|
            0 <= k < work.len() ==> (past.len() == 0 && k == 0) || #[trigger] comes_from(
                adj,
                past,
                work[k],
            ),
        visit(adj, order, target, work, seen, fuel) is Some,
    ensures
        has_parents(
            adj,
            past + visit(adj, order, target, work, seen, fuel)->0,
            past.len() as int,
        ),
    decreases fuel,
{
    let cur = work.first();
    let h = visit(adj, order, target, work, seen, fuel)->0;
    let full = past + h;
    if cur == target {
        assert forall|i: int| past.len() <= i < full.len() && 0 < i implies #[trigger] has_parent(
            adj,
            full,
            i,
        ) by {
            assert(comes_from(adj, past, work[0]));
            let j = choose|j: int|
                0 <= j < past.len() && #[trigger] adj(past[j]).contains(work[0]);
            assert(adj(full[j]).contains(full[i]));
        }
    } else {
        let rest = work.drop_first();
        let found = discovered(order, adj(cur), seen);
        let next = merged(order, rest, found);
        let seen2 = seen.union(found.to_set());
        let past2 = past.push(cur);
        let tail = visit(adj, order, target, next, seen2, (fuel - 1) as nat)->0;
        lemma_discovered(order, adj(cur), seen);
        lemma_merged_contains(order, rest, found);
        assert forall|k: int| 0 <= k < next.len() implies #[trigger] comes_from(
            adj,
            past2,
            next[k],
        ) by {
            if found.contains(next[k]) {
                assert(adj(past2[past.len() as int]).contains(next[k]));
            } else {
                let m = choose|m: int| 0 <= m < rest.len() && rest[m] == next[k];
                assert(comes_from(adj, past, work[m + 1]));
                let j = choose|j: int|
                    0 <= j < past.len() && #[trigger] adj(past[j]).contains(work[m + 1]);
                assert(adj(past2[j]).contains(next[k]));
            }
        }
        lemma_visit_parents(adj, order, target, past2, next, seen2, (fuel - 1) as nat);
        assert(past2 + tail == full);
        assert forall|i: int| past.len() <= i < full.len() && 0 < i implies #[trigger] has_parent(
            adj,
            full,
            i,
        ) by {
            if i == past.len() {
                assert(comes_from(adj, past, work[0]));
                let j = choose|j: int|
                    0 <= j < past.len() && #[trigger] adj(past[j]).contains(work[0]);
                assert(adj(full[j]).contains(full[i]));
            }
        }
    }
}

/// A search that has visited no state twice, and on whose work list no state
/// waits twice, visits no state twice.
pub proof fn lemma_visit_distinct<T>(
    adj: spec_fn(T) -> Seq<T>,
    order: Order,
    target: T,
    past: Seq<T>,
    work: Seq<T>,
    seen: Set<T>,
    fuel: nat,
)
    requires
        distinct(past, work, seen),
        visit(adj, order, target, work, seen, fuel) is Some,
    ensures
        (past + visit(adj, order, target, work, seen, fuel)->0).no_duplicates(),
    decreases fuel,
{
    let cur = work.first();
    let h = visit(adj, order, target, work, seen, fuel)->0;
    let all = past + work;
    if cur == target {
        assert(past + h == all.take(past.len() as int + 1));
    } else {
        let rest = work.drop_first();
        let found = discovered(order, adj(cur), seen);
        let next = merged(order, rest, found);
        let seen2 = seen.union(found.to_set());
        let past2 = past.push(cur);
        let tail = visit(adj, order, target, next, seen2, (fuel - 1) as nat)->0;
        let all2 = past2 + next;
        lemma_discovered(order, adj(cur), seen);
        assert(past2 + rest == all);
        assert forall|i: int, j: int| 0 <= i < j < all2.len() implies all2[i] != all2[j] by {
            lemma_merged_distinct(order, past2, rest, found, i, j);
        }
        assert forall|x: T| #[trigger] all2.contains(x) implies seen2.contains(x) by {
            let i = choose|i: int| 0 <= i < all2.len() && all2[i] == x;
            lemma_merged_contains(order, rest, found);
            if i < past2.len() {
                assert(all[i] == x);
                assert(all.contains(x));
            } else {
                if rest.contains(x) {
                    let k = choose|k: int| 0 <= k < rest.len() && rest[k] == x;
                    assert(all[past2.len() + k] == x);
                    assert(all.contains(x));
                }
            }
        }
        lemma_visit_distinct(adj, order, target, past2, next, seen2, (fuel - 1) as nat);
        assert(past2 + tail == past + h);
    }
}

/// Positions `i` and `j` of what was visited, what was left of the work
/// list and what was found hold different states, if the first two hold no
/// state twice and what was found is new to both.
proof fn lemma_merged_distinct<T>(
    order: Order,
    past: Seq<T>,
    rest: Seq<T>,
    found: Seq<T>,
    i: int,
    j: int,
)
    requires
        (past + rest).no_duplicates(),
        found.no_duplicates(),
        forall|x: T| #[trigger] found.contains(x) ==> !(past + rest).contains(x),
        0 <= i < j < (past + merged(order, rest, found)).len(),
    ensures
        (past + merged(order, rest, found))[i] != (past + merged(order, rest, found))[j],
{
    let old = past + rest;
    let all = past + merged(order, rest, found);
    let p = past.len() as int;
    let r = rest.len() as int;
    let f = found.len() as int;
    // where position `k` of `all` comes from: a position of `old`, or of `found`
    let from_old = |k: int|
        match order {
            Order::BreadthFirst => k < p + r,
            Order::DepthFirst => k < p || k >= p + f,
        };
    let at = |k: int|
        match order {
            Order::BreadthFirst => if k < p + r {
                k
            } else {
                k - p - r
            },
            Order::DepthFirst => if k < p {
                k
            } else if k >= p + f {
                k - f
            } else {
                f - 1 - (k - p)
            },
        };
    assert(from_old(i) ==> all[i] == old[at(i)]);
    assert(from_old(j) ==> all[j] == old[at(j)]);
    if from_old(i) != from_old(j) {
        let (a, b) = if from_old(i) {
            (at(i), at(j))
        } else {
            (at(j), at(i))
        };
        assert(found.contains(found[b]));
    }
}

/// More fuel than the universe has states covers a search from its start.
pub proof fn lemma_start_covered<T>(universe: Set<T>, start: T, fuel: nat)
    requires
        universe.finite(),
        universe.len() < fuel,
    ensures
        covers(universe, seq![start], set![start], fuel),
{
    vstd::set_lib::lemma_len_difference(universe, set![start]);
}

/// A state reaches another exactly when some number of moves brings a walk
/// from the one to the other.
pub proof fn lemma_reachable_within<T>(adj: spec_fn(T) -> Seq<T>, from: T, to: T)
    ensures
        reachable(adj, from, to) <==> exists|n: nat| within(adj, from, to, n),
{
    if reachable(adj, from, to) {
        let p = choose|p: Seq<T>| is_walk(adj, p) && p.first() == from && p.last() == to;
        assert(within(adj, from, to, p.len()));
    }
}

/// A walk of at most `n` moves is a walk of at most `m` moves for every
/// `m` from `n` on.
pub proof fn lemma_within_more<T>(adj: spec_fn(T) -> Seq<T>, from: T, to: T, n: nat, m: nat)
    requires
        within(adj, from, to, n),
        n <= m,
    ensures
        within(adj, from, to, m),
{
}

/// Without a move a walk ends where it starts.
pub proof fn lemma_within_none<T>(adj: spec_fn(T) -> Seq<T>, from: T, to: T)
    ensures
        within(adj, from, to, 0) <==> from == to,
{
    if from == to {
        let p = seq![from];
        assert(is_walk(adj, p) && p.first() == from && p.last() == to && p.len() <= 1);
    }
}

/// A walk of at most `n` moves and one more move make a walk of at most
/// `n + 1` moves.
pub proof fn lemma_within_step<T>(adj: spec_fn(T) -> Seq<T>, from: T, mid: T, to: T, n: nat)
    requires
        within(adj, from, mid, n),
        adj(mid).contains(to),
    ensures
        within(adj, from, to, n + 1),
{
    let p = choose|p: Seq<T>| #[trigger]
        is_walk(adj, p) && p.first() == from && p.last() == mid && p.len() <= n + 1;
    let q = p.push(to);
    assert forall|i: int| 0 <= i < q.len() - 1 implies #[trigger] follows(adj, q, i) by {
        if i < p.len() - 1 {
            assert(follows(adj, p, i));
        }
    }
    assert(is_walk(adj, q) && q.first() == from && q.last() == to && q.len() <= n + 2);
}

/// A walk of at most `n + 1` moves is one of at most `n` moves, or one of
/// at most `n` moves and a last move.
pub proof fn lemma_within_last<T>(adj: spec_fn(T) -> Seq<T>, from: T, to: T, n: nat)
    requires
        within(adj, from, to, n + 1),
        !within(adj, from, to, n),
    ensures
        exists|mid: T| #[trigger] within(adj, from, mid, n) && adj(mid).contains(to),
{
    let p = choose|p: Seq<T>| #[trigger]
        is_walk(adj, p) && p.first() == from && p.last() == to && p.len() <= n + 2;
    let q = p.drop_last();
    let mid = q.last();
    assert forall|i: int| 0 <= i < q.len() - 1 implies #[trigger] follows(adj, q, i) by {
        assert(follows(adj, p, i));
    }
    assert(is_walk(adj, q) && q.first() == from && q.last() == mid && q.len() <= n + 1);
    assert(follows(adj, p, p.len() - 2));
    assert(within(adj, from, mid, n) && adj(mid).contains(to));
}

/// A breadth-first search visits the states level by level.
pub proof fn lemma_visit_leveled<T>(
    adj: spec_fn(T) -> Seq<T>,
    target: T,
    start: T,
    found: Seq<T>,
    done: int,
    level: Seq<nat>,
    fuel: nat,
)
    requires
        0 <= done <= found.len(),
        done < found.len() ==> leveled(adj, start, found, done, level),
        visit(adj, Order::BreadthFirst, target, found.skip(done), found.to_set(), fuel) is Some,
    ensures
        in_level_order(
            adj,
            start,
            found.take(done) + visit(
                adj,
                Order::BreadthFirst,
                target,
                found.skip(done),
                found.to_set(),
                fuel,
            )->0,
        ),
    decreases fuel,
{
    let order = Order::BreadthFirst;
    let work = found.skip(done);
    let seen = found.to_set();
    let cur = work.first();
    let h = visit(adj, order, target, work, seen, fuel)->0;
    if cur == target {
        let all = found.take(done) + h;
        assert forall|i: int, j: int, n: nat|
            #![trigger all[i], within(adj, start, all[j], n)]
            0 <= i <= j < all.len() && within(adj, start, all[j], n) implies within(
            adj,
            start,
            all[i],
            n,
        ) by {
            lemma_within_more(adj, start, found[i], level[i], n);
        }
    } else {
        let fresh = discovered(order, adj(cur), seen);
        let found2 = found + fresh;
        let top: nat = level[done] + 1;
        let level2 = level + Seq::new(fresh.len(), |k: int| top);
        let rest = work.drop_first();
        let next = merged(order, rest, fresh);
        let seen2 = seen.union(fresh.to_set());
        lemma_discovered(order, adj(cur), seen);
        assert(next == found2.skip(done + 1));
        assert(seen2 == found2.to_set()) by {
            assert forall|x: T| seen2.contains(x) <==> found2.to_set().contains(x) by {
                if found.contains(x) {
                    let k = choose|k: int| 0 <= k < found.len() && found[k] == x;
                    assert(found2[k] == x);
                }
                if fresh.contains(x) {
                    let k = choose|k: int| 0 <= k < fresh.len() && fresh[k] == x;
                    assert(found2[k + found.len()] == x);
                }
            }
        }
        if done + 1 < found2.len() {
            lemma_level_step(adj, start, found, done, level);
        }
        lemma_visit_leveled(adj, target, start, found2, done + 1, level2, (fuel - 1) as nat);
        assert(found.take(done) + h == found2.take(done + 1) + visit(
            adj,
            order,
            target,
            next,
            seen2,
            (fuel - 1) as nat,
        )->0);
    }
}

/// Visiting the first state that waits, and discovering its unseen
/// neighbours one level further out, keeps a breadth-first search leveled.
proof fn lemma_level_step<T>(
    adj: spec_fn(T) -> Seq<T>,
    start: T,
    found: Seq<T>,
    done: int,
    level: Seq<nat>,
)
    requires
        leveled(adj, start, found, done, level),
        done + 1 < (found + discovered(
            Order::BreadthFirst,
            adj(found[done]),
            found.to_set(),
        )).len(),
    ensures
        leveled(
            adj,
            start,
            found + discovered(Order::BreadthFirst, adj(found[done]), found.to_set()),
            done + 1,
            level + Seq::new(
                discovered(Order::BreadthFirst, adj(found[done]), found.to_set()).len(),
                |k: int| (level[done] + 1) as nat,
            ),
        ),
{
    let cur = found[done];
    let fresh = discovered(Order::BreadthFirst, adj(cur), found.to_set());
    let top: nat = level[done] + 1;
    let found2 = found + fresh;
    let level2 = level + Seq::new(fresh.len(), |k: int| top);
    lemma_discovered(Order::BreadthFirst, adj(cur), found.to_set());
    assert forall|x: T| found.contains(x) implies found2.contains(x) by {
        let k = choose|k: int| 0 <= k < found.len() && found[k] == x;
        assert(found2[k] == x);
    }
    assert forall|x: T| fresh.contains(x) implies found2.contains(x) by {
        let k = choose|k: int| 0 <= k < fresh.len() && fresh[k] == x;
        assert(found2[k + found.len()] == x);
    }
    assert forall|k: int| 0 <= k < found2.len() implies within(
        adj,
        start,
        #[trigger] found2[k],
        level2[k],
    ) by {
        if k >= found.len() {
            assert(fresh.contains(fresh[k - found.len()]));
            lemma_within_step(adj, start, cur, found2[k], level[done]);
        }
    }
    assert forall|k: int, n: nat|
        0 <= k < found2.len() && #[trigger] within(adj, start, found2[k], n) implies level2[k]
        <= n by {
        if k >= found.len() {
            assert(fresh.contains(fresh[k - found.len()]));
        }
    }
    assert forall|v: T, n: nat| #[trigger]
        within(adj, start, v, n) && n <= level2[done + 1] implies found2.contains(v) by {
        if n > level[done] && !within(adj, start, v, (n - 1) as nat) {
            lemma_within_last(adj, start, v, (n - 1) as nat);
        }
    }
}

/// The history of a breadth-first search is in level order: no state is
/// visited before one that is nearer to the start.
pub proof fn lemma_breadth_first_levels<T>(
    adj: spec_fn(T) -> Seq<T>,
    start: T,
    target: T,
    fuel: nat,
)
    requires
        explore(adj, Order::BreadthFirst, start, target, fuel) is Some,
    ensures
        in_level_order(adj, start, explore(adj, Order::BreadthFirst, start, target, fuel)->0),
{
    let found = seq![start];
    let level = seq![0nat];
    assert(found.to_set() == set![start]);
    lemma_within_none(adj, start, start);
    assert forall|v: T, n: nat| #[trigger]
        within(adj, start, v, n) && n <= level[0] implies found.contains(v) by {
        lemma_within_none(adj, start, v);
    }
    lemma_visit_leveled(adj, target, start, found, 0, level, fuel);
}

/// Any fuel above the number of states in the universe gives a whole search
/// the same history.
pub proof fn lemma_explore_fuel<T>(
    adj: spec_fn(T) -> Seq<T>,
    order: Order,
    universe: Set<T>,
    start: T,
    target: T,
    fuel: nat,
    other: nat,
)
    requires
        confined(adj, universe, seq![start]),
        universe.finite(),
        universe.len() < fuel,
        universe.len() < other,
    ensures
        explore(adj, order, start, target, fuel) == explore(adj, order, start, target, other),
{
    lemma_start_covered(universe, start, fuel);
    lemma_start_covered(universe, start, other);
    lemma_visit_fuel(
        adj,
        order,
        target,
        universe,
        seq![start],
        set![start],
        fuel,
        other,
    );
}

/// A search visits no state twice.
pub proof fn lemma_explore_distinct<T>(
    adj: spec_fn(T) -> Seq<T>,
    order: Order,
    start: T,
    target: T,
    fuel: nat,
)
    requires
        explore(adj, order, start, target, fuel) is Some,
    ensures
        explore(adj, order, start, target, fuel)->0.no_duplicates(),
{
    let work = seq![start];
    let none = Seq::<T>::empty();
    assert(none + work == work);
    assert(work.contains(start));
    lemma_visit_distinct(adj, order, target, none, work, set![start], fuel);
    assert(none + explore(adj, order, start, target, fuel)->0 == explore(
        adj,
        order,
        start,
        target,
        fuel,
    )->0);
}

/// A search finds its target exactly when the start reaches it. The history
/// then leads from the start to the target, holds only states that the start
/// reaches, and holds none of them twice. The history of a breadth-first
/// search is in level order.
pub proof fn lemma_explore<T>(
    adj: spec_fn(T) -> Seq<T>,
    order: Order,
    universe: Set<T>,
    start: T,
    target: T,
    fuel: nat,
)
    requires
        confined(adj, universe, seq![start]),
        universe.finite(),
        universe.len() < fuel,
    ensures
        explore(adj, order, start, target, fuel) is Some <==> reachable(adj, start, target),
        explore(adj, order, start, target, fuel) matches Some(h) ==> {
            &&& h.len() > 0
            &&& h.first() == start
            &&& h.last() == target
            &&& forall|i: int| 0 <= i < h.len() - 1 ==> h[i] != target
            &&& forall|i: int| 0 <= i < h.len() ==> reachable(adj, start, #[trigger] h[i])
            &&& forall|i: int| 0 < i < h.len() ==> universe.contains(#[trigger] h[i])
            &&& has_parents(adj, h, 0)
            &&& h.no_duplicates()
            &&& order is BreadthFirst ==> in_level_order(adj, start, h)
        },
{
    let work = seq![start];
    let seen = set![start];
    lemma_start_covered(universe, start, fuel);
    assert(work.contains(start));
    match explore(adj, order, start, target, fuel) {
        Some(h) => {
            lemma_visit_shape(adj, order, target, work, seen, fuel);
            lemma_reachable_self(adj, start);
            lemma_visit_sound(adj, order, target, start, work, seen, fuel);
            lemma_visit_confined(adj, order, target, universe, work, seen, fuel);
            lemma_visit_parents(adj, order, target, Seq::empty(), work, seen, fuel);
            lemma_explore_distinct(adj, order, start, target, fuel);
            if order is BreadthFirst {
                lemma_breadth_first_levels(adj, start, target, fuel);
            }
        },
        None => {
            lemma_visit_complete(
                adj,
                order,
                target,
                universe,
                start,
                Set::empty(),
                work,
                seen,
                fuel,
            );
        },
    }
}

} // verus!
