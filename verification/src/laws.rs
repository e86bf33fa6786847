use vstd::prelude::*;
use crate::flag::{Flag, MoveFlag};
use crate::_try_drain::DrainState;
use vstd::multiset::Multiset;
use crate::cursor::Cursor;

verus! {

broadcast use vstd::seq_lib::group_seq_properties;

/// The element a decision yields, as a sequence of zero or one elements.
pub open spec fn yielded<T>(item: Option<T>) -> Seq<T> {
    match item {
        Some(x) => seq![x],
        None => Seq::empty(),
    }
}

/// Carries out the decisions `flags` one after another, starting from
/// `st`; once the drain has stopped or has nothing left to look at, the
/// remaining decisions have no effect. The result is the final state and
/// the elements yielded, in order.
pub open spec fn run<T>(st: DrainState<T>, flags: Seq<Flag>) -> (DrainState<T>, Seq<T>)
    decreases flags.len(),
{
    if flags.len() == 0 || !st.is_active() {
        (st, Seq::empty())
    } else {
        let rest = run(st.settle(flags[0]), flags.drop_first());
        (rest.0, yielded(st.settled_item(flags[0])) + rest.1)
    }
}

/// The decision of a filter: yield what matches, keep the rest.
pub open spec fn filter_flag(matches: bool) -> Flag {
    if matches { Flag::Yield } else { Flag::Continue }
}

/// Runs a drain whose decision on each element is `filter_flag(p(x))`
/// until nothing is left to look at.
pub open spec fn filter_run<T>(st: DrainState<T>, p: spec_fn(T) -> bool) -> (DrainState<T>, Seq<T>)
    decreases st.items.len() - st.pos,
{
    if !st.wf() || !st.is_active() {
        (st, Seq::empty())
    } else {
        let flag = filter_flag(p(st.current()));
        let rest = filter_run(st.settle(flag), p);
        (rest.0, yielded(st.settled_item(flag)) + rest.1)
    }
}

/// One step of a filtering drain: passes over the unvisited elements
/// that `p` does not match and removes and yields the first that it
/// matches, if any.
pub open spec fn filter_next<T>(st: DrainState<T>, p: spec_fn(T) -> bool) -> (DrainState<T>, Option<T>)
    decreases st.items.len() - st.pos,
{
    if !st.wf() || !st.is_active() {
        (st, None)
    } else if p(st.current()) {
        (st.settle(Flag::Yield), Some(st.current()))
    } else {
        filter_next(st.settle(Flag::Continue), p)
    }
}

/// A step that passed over `o.items[o.pos..n.pos]`, none of which `p`
/// matches, and then either removed the first match (`r` is that
/// element) or reached the end, is `filter_next`.
pub proof fn lemma_filter_next_of<T>(o: DrainState<T>, n: DrainState<T>, r: Option<T>, p: spec_fn(T) -> bool)
    requires
        o.wf(),
        !o.finished,
        !n.finished,
        o.pos <= n.pos,
        forall|i: int| o.pos <= i < n.pos ==> !p(#[trigger] o.items[i]),
        match r {
            Some(y) => {
                &&& n.pos < o.items.len()
                &&& y == o.items[n.pos as int]
                &&& p(y)
                &&& n.items == o.items.remove(n.pos as int)
            },
            None => {
                &&& n.items == o.items
                &&& n.pos == o.items.len()
            },
        },
    ensures
        filter_next(o, p) == (n, r),
    decreases n.pos - o.pos,
{
    if o.pos == n.pos {
        if r is None {
            assert(n == o);
        }
    } else {
        assert(!p(o.items[o.pos as int]));
        lemma_filter_next_of(o.settle(Flag::Continue), n, r, p);
    }
}

/// Running a filtering drain to its end after one of its steps ends
/// where running it from before that step ends.
pub proof fn lemma_filter_next_run<T>(st: DrainState<T>, p: spec_fn(T) -> bool)
    requires
        st.wf(),
        !st.finished,
    ensures
        filter_next(st, p).0.wf(),
        !filter_next(st, p).0.finished,
        filter_run(filter_next(st, p).0, p).0 == filter_run(st, p).0,
    decreases st.items.len() - st.pos,
{
    if st.is_active() && !p(st.current()) {
        lemma_filter_next_run(st.settle(Flag::Continue), p);
    }
}

/// The state with the position moved to `pos`.
pub open spec fn passed_to<T>(st: DrainState<T>, pos: nat) -> DrainState<T> {
    DrainState { pos, ..st }
}

/// One step of a flag drain whose decision on an element `x` is `g(x)`:
/// passes over the elements judged `Continue` and carries out the first
/// other decision, if any.
pub open spec fn flag_next<T>(st: DrainState<T>, g: spec_fn(T) -> Flag) -> (DrainState<T>, Option<T>)
    decreases st.items.len() - st.pos,
{
    if !st.wf() || !st.is_active() {
        (st, None)
    } else if g(st.current()) is Continue {
        flag_next(st.settle(Flag::Continue), g)
    } else {
        (st.settle(g(st.current())), st.settled_item(g(st.current())))
    }
}

/// A step that passed over `o.items[o.pos..n.pos]`, all judged
/// `Continue` by `g`, and then carried out `g`'s other decision on the
/// next element or reached the end, is `flag_next`.
pub proof fn lemma_flag_next_of<T>(o: DrainState<T>, n: DrainState<T>, r: Option<T>, g: spec_fn(T) -> Flag)
    requires
        o.wf(),
        o.is_active(),
        o.pos <= n.pos <= o.items.len(),
        forall|i: int| o.pos <= i < n.pos ==> (#[trigger] g(o.items[i]) is Continue),
        n.pos == o.items.len() ==> r is None && n == passed_to(o, n.pos),
        n.pos < o.items.len() ==> {
            &&& !(g(o.items[n.pos as int]) is Continue)
            &&& n == passed_to(o, n.pos).settle(g(o.items[n.pos as int]))
            &&& r == passed_to(o, n.pos).settled_item(g(o.items[n.pos as int]))
        },
    ensures
        flag_next(o, g) == (n, r),
    decreases n.pos - o.pos,
{
    if o.pos < n.pos {
        assert(g(o.items[o.pos as int]) is Continue);
        let t = o.settle(Flag::Continue);
        assert(flag_next(o, g) == flag_next(t, g));
        if t.is_active() {
            lemma_flag_next_of(t, n, r, g);
        } else {
            assert(n == t);
            assert(flag_next(t, g) == (t, None::<T>));
        }
    } else {
        assert(passed_to(o, n.pos) == o);
        let f = g(o.current());
        assert(!(f is Continue));
        assert(flag_next(o, g) == (o.settle(f), o.settled_item(f)));
    }
}

/// A flag drain's step loses no element and leaves the kept elements in
/// front as they are: the vector afterwards together with what was
/// yielded is, as a multiset, the vector before.
pub proof fn lemma_flag_next_conserves<T>(st: DrainState<T>, g: spec_fn(T) -> Flag)
    requires
        st.wf(),
    ensures
        flag_next(st, g).0.wf(),
        flag_next(st, g).0.items.to_multiset().add(yielded(flag_next(st, g).1).to_multiset())
            == st.items.to_multiset(),
        st.pos <= flag_next(st, g).0.pos,
        flag_next(st, g).0.items.take(st.pos as int) == st.kept(),
    decreases st.items.len() - st.pos,
{
    broadcast use vstd::multiset::group_multiset_axioms;
    if !st.is_active() {
        assert(Seq::<T>::empty().to_multiset() =~= Multiset::empty());
        assert(st.items.to_multiset().add(Multiset::empty()) =~= st.items.to_multiset());
    } else if g(st.current()) is Continue {
        let t = st.settle(Flag::Continue);
        lemma_flag_next_conserves(t, g);
        let n = flag_next(t, g).0;
        assert(n.items.take(st.pos as int) =~= n.items.take(t.pos as int).take(st.pos as int));
        assert(t.items.take(t.pos as int).take(st.pos as int) =~= st.kept());
    } else {
        lemma_run_conserves(st, seq![g(st.current())]);
        let fs = seq![g(st.current())];
        assert(fs.drop_first() =~= Seq::<Flag>::empty());
        assert(run(st.settle(fs[0]), fs.drop_first()) == (st.settle(fs[0]), Seq::<T>::empty()));
        assert(run(st, fs).0 == flag_next(st, g).0);
        assert(yielded(st.settled_item(g(st.current()))) + Seq::<T>::empty() =~= yielded(flag_next(st, g).1));
    }
}

/// Every decision keeps the state well formed and loses no element: what
/// the vector holds afterwards together with what was yielded is, as a
/// multiset, what it held before; the elements already kept stay as they
/// are, in front.
pub proof fn lemma_run_conserves<T>(st: DrainState<T>, flags: Seq<Flag>)
    requires
        st.wf(),
    ensures
        run(st, flags).0.wf(),
        run(st, flags).0.items.to_multiset().add(run(st, flags).1.to_multiset())
            == st.items.to_multiset(),
        st.pos <= run(st, flags).0.pos,
        run(st, flags).0.items.take(st.pos as int) == st.kept(),
    decreases flags.len(),
{
    broadcast use vstd::multiset::group_multiset_axioms;
    broadcast use vstd::seq_lib::to_multiset_remove;
    if flags.len() == 0 || !st.is_active() {
        assert(Seq::<T>::empty().to_multiset() =~= Multiset::empty());
        assert(st.items.to_multiset().add(Multiset::empty()) =~= st.items.to_multiset());
    } else {
        let flag = flags[0];
        let next = st.settle(flag);
        lemma_run_conserves(next, flags.drop_first());
        let rest = run(next, flags.drop_first());
        let ys = yielded(st.settled_item(flag));
        vstd::seq_lib::lemma_seq_union_to_multiset_commutative(ys, rest.1);
        vstd::seq_lib::lemma_multiset_commutative(ys, rest.1);
        match flag {
            Flag::Yield | Flag::Return => {
                assert(ys.to_multiset() =~= Multiset::singleton(st.current()));
                assert(next.items.to_multiset() == st.items.to_multiset().remove(st.current()));
                assert(st.items.to_multiset().count(st.current()) > 0) by {
                    vstd::seq_lib::to_multiset_contains(st.items, st.current());
                    assert(st.items.contains(st.current()));
                }
                let a = rest.0.items.to_multiset();
                let b = rest.1.to_multiset();
                assert(a.add(b) == next.items.to_multiset());
                assert forall|v: T| #[trigger] a.add(b.insert(st.current())).count(v) == st.items.to_multiset().count(v) by {
                    assert(a.add(b).count(v) == st.items.to_multiset().remove(st.current()).count(v));
                }
                assert(a.add(b.insert(st.current())) =~= st.items.to_multiset());
                assert(next.items.take(st.pos as int) =~= st.kept());
            },
            _ => {
                assert(ys.to_multiset() =~= Multiset::empty());
                assert(rest.0.items.to_multiset().add(rest.1.to_multiset()) =~= st.items.to_multiset());
                assert(rest.0.items.take(st.pos as int) =~= rest.0.items.take(next.pos as int).take(st.pos as int));
                assert(next.items.take(next.pos as int).take(st.pos as int) =~= st.kept());
            },
        }
    }
}

/// The elements that `p` does not match.
pub open spec fn unmatched<T>(p: spec_fn(T) -> bool) -> spec_fn(T) -> bool {
    |x: T| !p(x)
}

/// A filtering drain yields, in order, exactly the unvisited elements that
/// match, and leaves the kept elements followed by the unvisited ones that
/// do not match, in order.
pub proof fn lemma_filter_run<T>(st: DrainState<T>, p: spec_fn(T) -> bool)
    requires
        st.wf(),
        !st.finished,
    ensures
        filter_run(st, p).1 == st.unvisited().filter(p),
        filter_run(st, p).0.items == st.kept() + st.unvisited().filter(unmatched(p)),
        filter_run(st, p).0.pos == filter_run(st, p).0.items.len(),
        !filter_run(st, p).0.finished,
    decreases st.items.len() - st.pos,
{
    reveal_with_fuel(Seq::filter, 1);
    if st.pos == st.items.len() {
        assert(st.unvisited() =~= Seq::<T>::empty());
        assert(st.kept() =~= st.items);
    } else {
        let cur = st.current();
        let rest = st.unvisited().drop_first();
        assert(st.unvisited() =~= seq![cur] + rest);
        rest.lemma_filter_prepend(cur, p);
        rest.lemma_filter_prepend(cur, unmatched(p));
        let flag = filter_flag(p(cur));
        let next = st.settle(flag);
        lemma_filter_run(next, p);
        if p(cur) {
            assert(next.kept() =~= st.kept());
            assert(next.unvisited() =~= rest);
            assert(yielded(st.settled_item(flag)) =~= seq![cur]);
        } else {
            assert(next.kept() =~= st.kept().push(cur));
            assert(next.unvisited() =~= rest);
            assert(yielded(st.settled_item(flag)) =~= Seq::<T>::empty());
            assert(filter_run(st, p).1 =~= filter_run(next, p).1);
            assert(st.kept().push(cur) + rest.filter(unmatched(p))
                =~= st.kept() + (seq![cur] + rest).filter(unmatched(p)));
        }
    }
}

/// Draining a whole vector with a filter: the matching elements are
/// yielded in order, and the vector keeps the others, in order.
pub proof fn lemma_drain_filter<T>(s: Seq<T>, p: spec_fn(T) -> bool)
    ensures
        filter_run(DrainState::start(s), p).1 == s.filter(p),
        filter_run(DrainState::start(s), p).0.items == s.filter(unmatched(p)),
{
    let st = DrainState::start(s);
    lemma_filter_run(st, p);
    assert(st.kept() =~= Seq::<T>::empty());
    assert(st.unvisited() =~= s);
    assert(st.kept() + s.filter(unmatched(p)) =~= s.filter(unmatched(p)));
}

/// What a filter leaves in the vector of the elements it was handed: the
/// element as the predicate left it, `fs[i]`, for every call whose answer
/// `bs[i]` was `false`, in order.
pub open spec fn left_in_place<T>(fs: Seq<T>, bs: Seq<bool>) -> Seq<T>
    decreases fs.len(),
{
    if fs.len() == 0 || bs.len() == 0 {
        Seq::empty()
    } else {
        let rest = left_in_place(fs.drop_last(), bs.drop_last());
        if bs.last() { rest } else { rest.push(fs.last()) }
    }
}

/// Calls that left each element as it was and answered `p` of it leave
/// in place exactly the elements that `p` does not match, in order.
pub proof fn lemma_left_in_place_unchanged<T>(u: Seq<T>, fs: Seq<T>, bs: Seq<bool>, p: spec_fn(T) -> bool)
    requires
        fs.len() == u.len(),
        bs.len() == u.len(),
        forall|i: int| #![trigger u[i]] 0 <= i < u.len() ==> fs[i] == u[i] && bs[i] == p(u[i]),
    ensures
        left_in_place(fs, bs) == u.filter(unmatched(p)),
    decreases u.len(),
{
    if u.len() == 0 {
        reveal(Seq::filter);
        assert(u.filter(unmatched(p)) =~= Seq::<T>::empty());
    } else {
        let k = u.len() - 1;
        let u0 = u.drop_last();
        assert forall|i: int| #![trigger u0[i]] 0 <= i < u0.len() implies
            fs.drop_last()[i] == u0[i] && bs.drop_last()[i] == p(u0[i]) by {
            assert(u[i] == u0[i]);
        }
        assert(u[k] == u.last());
        lemma_left_in_place_unchanged(u0, fs.drop_last(), bs.drop_last(), p);
        u.drop_last().lemma_filter_push(u.last(), unmatched(p));
        assert(u.drop_last().push(u.last()) =~= u);
        assert(fs.last() == u.last() && bs.last() == p(u.last()));
    }
}

/// A filter that hands each element not looked at yet, `u[i]`, to the
/// predicate once (`ms[i]`, left as `fs[i]`, answered `bs[i]`) leaves in
/// place the elements as the predicate left them for which it answered
/// `false`; each of them is one of the handed elements, so no more remain
/// than were handed, and for a predicate that leaves elements as they are
/// and answers `p(x)` this is the filtering run: the unvisited elements
/// that `p` does not match, in order.
pub proof fn lemma_filter_answers<T, F: FnMut(&mut T) -> bool>(pred: F, st: DrainState<T>, fs: Seq<T>, bs: Seq<bool>, p: spec_fn(T) -> bool)
    requires
        st.wf(),
        !st.finished,
        fs.len() == st.unvisited().len(),
        bs.len() == st.unvisited().len(),
        exists|ms: Seq<&mut T>| #![trigger ms.len()]
            ms.len() == fs.len()
            && forall|i: int| #![trigger ms[i]] 0 <= i < ms.len() ==> {
                &&& mut_ref_current(ms[i]) == st.unvisited()[i]
                &&& mut_ref_future(ms[i]) == fs[i]
                &&& call_ensures(pred, (ms[i],), bs[i])
            },
    ensures
        left_in_place(fs, bs).len() <= fs.len(),
        (forall|m: &mut T, b: bool| #[trigger] call_ensures(pred, (m,), b)
            ==> b == p(mut_ref_current(m)) && mut_ref_future(m) == mut_ref_current(m))
            ==> st.kept() + left_in_place(fs, bs) == filter_run(st, p).0.items,
{
    lemma_left_in_place_len(fs, bs);
    if forall|m: &mut T, b: bool| #[trigger] call_ensures(pred, (m,), b)
        ==> b == p(mut_ref_current(m)) && mut_ref_future(m) == mut_ref_current(m) {
        let ms = choose|ms: Seq<&mut T>| #![trigger ms.len()]
            ms.len() == fs.len()
            && forall|i: int| #![trigger ms[i]] 0 <= i < ms.len() ==> {
                &&& mut_ref_current(ms[i]) == st.unvisited()[i]
                &&& mut_ref_future(ms[i]) == fs[i]
                &&& call_ensures(pred, (ms[i],), bs[i])
            };
        let u = st.unvisited();
        assert forall|i: int| #![trigger u[i]] 0 <= i < u.len() implies fs[i] == u[i] && bs[i] == p(u[i]) by {
            assert(call_ensures(pred, (ms[i],), bs[i]));
        }
        lemma_left_in_place_unchanged(u, fs, bs, p);
        lemma_filter_run(st, p);
    }
}

/// No more elements are left in place than were handed over.
pub proof fn lemma_left_in_place_len<T>(fs: Seq<T>, bs: Seq<bool>)
    ensures
        left_in_place(fs, bs).len() <= fs.len(),
    decreases fs.len(),
{
    if fs.len() > 0 && bs.len() > 0 {
        lemma_left_in_place_len(fs.drop_last(), bs.drop_last());
    }
}

/// `Return` and `Break` stop a drain: no later decision changes it or
/// yields anything.
pub proof fn lemma_stop_is_final<T>(st: DrainState<T>, flag: Flag, later: Seq<Flag>)
    requires
        st.wf(),
        st.is_active(),
        flag is Return || flag is Break,
    ensures
        !st.settle(flag).is_active(),
        run(st.settle(flag), later) == (st.settle(flag), Seq::<T>::empty()),
{
}

/// A moving drain whose predicate answers with the handle's decisions
/// behaves as the flag drain: `take`, `take_and_stop`, `keep` and `stop`
/// act as `Yield`, `Return`, `Continue` and `Break`.
pub proof fn lemma_move_decisions_are_flags<T>(st: DrainState<T>)
    requires
        st.wf(),
        st.is_active(),
    ensures
        st.hand_over().settle_moved(None, MoveFlag::Yield(st.current())) == st.settle(Flag::Yield),
        DrainState::<T>::moved_item(MoveFlag::Yield(st.current())) == st.settled_item(Flag::Yield),
        st.hand_over().settle_moved(None, MoveFlag::Return(st.current())) == st.settle(Flag::Return),
        DrainState::<T>::moved_item(MoveFlag::Return(st.current())) == st.settled_item(Flag::Return),
        st.hand_over().settle_moved(Some(st.current()), MoveFlag::Continue) == st.settle(Flag::Continue),
        DrainState::<T>::moved_item(MoveFlag::<T>::Continue) == st.settled_item(Flag::Continue),
        st.hand_over().settle_moved(Some(st.current()), MoveFlag::Break) == st.settle(Flag::Break),
        DrainState::<T>::moved_item(MoveFlag::<T>::Break) == st.settled_item(Flag::Break),
{
    let h = st.hand_over();
    assert(h.items.insert(st.pos as int, st.current()) =~= st.items);
    assert(h.items =~= st.items.remove(st.pos as int));
}

/// A cursor's `advance` and `take` (or `delete`), and a streaming drain's
/// step with or without taking the element, act as the decisions
/// `Continue` and `Yield`.
pub proof fn lemma_cursor_and_stream_steps_are_flags<'a, T>(st: DrainState<T>)
    requires
        st.wf(),
        st.is_active(),
    ensures
        Cursor::<'a, T>::advanced(st) == st.settle(Flag::Continue),
        Cursor::<'a, T>::removed(st) == st.settle(Flag::Yield),
        (DrainState { pos: st.pos + 1, ..st }) == st.settle(Flag::Continue),
        ({
            let stepped = DrainState { pos: st.pos + 1, ..st };
            DrainState {
                items: stepped.items.remove(stepped.pos - 1),
                pos: (stepped.pos - 1) as nat,
                ..stepped
            }
        }) == st.settle(Flag::Yield),
{
}

/// The sum of the first `k` numbers of `xs`.
pub open spec fn sum_first(xs: Seq<nat>, k: int) -> nat
    decreases k,
{
    if k <= 0 {
        0
    } else {
        (sum_first(xs, k - 1) + xs[k - 1]) as nat
    }
}

/// Calls that each hand over `calls[i]` elements and leave at most
/// `lefts[i] - calls[i]` that may still be handed over hand over at most
/// `lefts[0]` elements in all.
pub proof fn lemma_calls_bounded(lefts: Seq<nat>, calls: Seq<nat>)
    requires
        lefts.len() == calls.len() + 1,
        forall|i: int| 0 <= i < calls.len() ==> #[trigger] calls[i] + lefts[i + 1] <= lefts[i],
    ensures
        sum_first(calls, calls.len() as int) + lefts.last() <= lefts[0],
    decreases calls.len(),
{
    if calls.len() > 0 {
        let k = calls.len() - 1;
        lemma_calls_bounded(lefts.drop_last(), calls.drop_last());
        assert(sum_first(calls.drop_last(), k) == sum_first(calls, k)) by {
            lemma_sum_first_prefix(calls.drop_last(), calls, k);
        }
        assert(calls[k] + lefts[k + 1] <= lefts[k]);
    }
}

proof fn lemma_sum_first_prefix(a: Seq<nat>, b: Seq<nat>, k: int)
    requires
        0 <= k <= a.len(),
        k <= b.len(),
        forall|i: int| 0 <= i < k ==> a[i] == b[i],
    ensures
        sum_first(a, k) == sum_first(b, k),
    decreases k,
{
    if k > 0 {
        lemma_sum_first_prefix(a, b, k - 1);
    }
}

/// One element for a call that returned an element, none otherwise.
pub open spec fn count<T>(r: Option<T>) -> nat {
    if r is Some { 1 } else { 0 }
}

/// A drain's life: `states[i + 1]` and `rs[i]` are the state after and the
/// result of its `i`-th call of `next`, each related to the state before
/// as `next` states it. Over the whole life the predicate is handed at
/// most `states[0].left()` elements (for a fresh drain, one per element of
/// the vector, and none once it has stopped); every element is either
/// still in the vector or was returned, exactly once; and the number of
/// elements returned is at most the number of unvisited elements at the
/// start, which `size_hint` reports.
pub proof fn lemma_drain_life<T>(states: Seq<DrainState<T>>, rs: Seq<Option<T>>)
    requires
        states.len() == rs.len() + 1,
        forall|i: int| 0 <= i < rs.len() ==> {
            &&& #[trigger] DrainState::handed(states[i], states[i + 1], rs[i]) + states[i + 1].left() <= states[i].left()
            &&& states[i + 1].items.len() + count(rs[i]) == states[i].items.len()
            &&& !states[i].is_active() ==> rs[i] is None
            &&& states[i].is_active() ==> states[i].pos <= states[i + 1].pos
        },
    ensures
        sum_first(Seq::new(rs.len(), |i: int| DrainState::handed(states[i], states[i + 1], rs[i])), rs.len() as int)
            + states.last().left() <= states[0].left(),
        sum_first(Seq::new(rs.len(), |i: int| count(rs[i])), rs.len() as int) + states.last().items.len()
            == states[0].items.len(),
        sum_first(Seq::new(rs.len(), |i: int| count(rs[i])), rs.len() as int) <= states[0].left(),
        states[0].left() <= states[0].unvisited().len(),
    decreases rs.len(),
{
    let handed = Seq::new(rs.len(), |i: int| DrainState::handed(states[i], states[i + 1], rs[i]));
    let counts = Seq::new(rs.len(), |i: int| count(rs[i]));
    let lefts = Seq::new(states.len(), |i: int| states[i].left());
    assert forall|i: int| 0 <= i < handed.len() implies #[trigger] handed[i] + lefts[i + 1] <= lefts[i] by {
        assert(DrainState::handed(states[i], states[i + 1], rs[i]) + states[i + 1].left() <= states[i].left());
    }
    lemma_calls_bounded(lefts, handed);
    assert forall|i: int| 0 <= i < counts.len() implies #[trigger] counts[i] + lefts[i + 1] <= lefts[i] by {
        assert(DrainState::handed(states[i], states[i + 1], rs[i]) + states[i + 1].left() <= states[i].left());
    }
    lemma_calls_bounded(lefts, counts);
    lemma_counts_conserve(states, rs, rs.len() as int);
}

proof fn lemma_counts_conserve<T>(states: Seq<DrainState<T>>, rs: Seq<Option<T>>, k: int)
    requires
        states.len() == rs.len() + 1,
        0 <= k <= rs.len(),
        forall|i: int| 0 <= i < rs.len() ==> {
            &&& #[trigger] DrainState::handed(states[i], states[i + 1], rs[i]) + states[i + 1].left() <= states[i].left()
            &&& states[i + 1].items.len() + count(rs[i]) == states[i].items.len()
            &&& !states[i].is_active() ==> rs[i] is None
            &&& states[i].is_active() ==> states[i].pos <= states[i + 1].pos
        },
    ensures
        sum_first(Seq::new(rs.len(), |i: int| count(rs[i])), k) + states[k].items.len() == states[0].items.len(),
    decreases k,
{
    if k > 0 {
        let j = k - 1;
        lemma_counts_conserve(states, rs, j);
        assert(DrainState::handed(states[j], states[j + 1], rs[j]) + states[j + 1].left() <= states[j].left());
        assert(Seq::new(rs.len(), |i: int| count(rs[i]))[j] == count(rs[j]));
    }
}

/// The state with the current element replaced by `e`.
pub open spec fn edited<T>(st: DrainState<T>, e: T) -> DrainState<T> {
    DrainState { items: st.items.update(st.pos as int, e), ..st }
}

/// What a moving drain's step amounts to when the predicate answered with
/// the decision of the handle's method: the element as the predicate left
/// it, and the flag that method stands for. `None` for any other answer.
pub open spec fn handle_decision<T>(step: (Option<T>, MoveFlag<T>)) -> Option<(T, Flag)> {
    match step {
        (None, MoveFlag::Yield(x)) => Some((x, Flag::Yield)),
        (None, MoveFlag::Return(x)) => Some((x, Flag::Return)),
        (Some(e), MoveFlag::Continue) => Some((e, Flag::Continue)),
        (Some(e), MoveFlag::Break) => Some((e, Flag::Break)),
        _ => None,
    }
}

/// The flag of a handle's decision.
pub open spec fn decision_flag<T>(step: (Option<T>, MoveFlag<T>)) -> Flag {
    let d = handle_decision(step)->0;
    d.1
}

/// The element of a handle's decision, as the predicate left it.
pub open spec fn decision_element<T>(step: (Option<T>, MoveFlag<T>)) -> T {
    let d = handle_decision(step)->0;
    d.0
}

/// A moving drain whose predicate always answers with the decision of
/// the handle's method behaves as the flag drain: each step is the flag
/// drain's step on the element as the predicate left it, every step but
/// the last keeps its element, and the last yields what the flag drain
/// would.
pub proof fn lemma_handle_decisions_run<T>(states: Seq<DrainState<T>>, steps: Seq<(Option<T>, MoveFlag<T>)>, r: Option<T>)
    requires
        states[0].wf(),
        DrainState::is_move_run(states, steps, r),
        forall|j: int| 0 <= j < steps.len() ==> #[trigger] handle_decision(steps[j]) is Some,
    ensures
        forall|j: int| #![trigger steps[j]] 0 <= j < steps.len() ==> {
            let e = decision_element(steps[j]);
            let f = decision_flag(steps[j]);
            &&& states[j + 1] == edited(states[j], e).settle(f)
            &&& DrainState::<T>::moved_item(steps[j].1) == edited(states[j], e).settled_item(f)
        },
        forall|j: int| #![trigger steps[j]] 0 <= j < steps.len() - 1 ==>
            decision_flag(steps[j]) is Continue,
        r == edited(states[steps.len() - 1], decision_element(steps.last())).settled_item(decision_flag(steps.last())),
{
    assert forall|j: int| #![trigger steps[j]] 0 <= j < steps.len() implies {
        let e = decision_element(steps[j]);
        let f = decision_flag(steps[j]);
        &&& states[j + 1] == edited(states[j], e).settle(f)
        &&& DrainState::<T>::moved_item(steps[j].1) == edited(states[j], e).settled_item(f)
    } by {
        assert(handle_decision(steps[j]) is Some);
        assert(DrainState::is_move_step(states[j], steps[j], states[j + 1]));
        let s = states[j];
        let e = decision_element(steps[j]);
        let h = s.hand_over();
        assert(h.items.insert(s.pos as int, e) =~= s.items.update(s.pos as int, e));
        assert(h.items =~= s.items.update(s.pos as int, e).remove(s.pos as int));
    }
    assert forall|j: int| #![trigger steps[j]] 0 <= j < steps.len() - 1 implies decision_flag(steps[j]) is Continue by {
        assert(handle_decision(steps[j]) is Some);
        assert(DrainState::is_move_step(states[j], steps[j], states[j + 1]));
        assert(DrainState::is_move_step(states[j + 1], steps[j + 1], states[j + 2]));
        assert(DrainState::<T>::moved_item(steps[j].1) is None);
    }
    let k = steps.len() - 1;
    assert(handle_decision(steps[k]) is Some);
    assert(DrainState::is_move_step(states[k], steps[k], states[k + 1]));
}

/// The elements yielded by the results `rs`, in order.
pub open spec fn all_yielded<T>(rs: Seq<Option<T>>) -> Seq<T>
    decreases rs.len(),
{
    if rs.len() == 0 {
        Seq::empty()
    } else {
        all_yielded(rs.drop_last()) + yielded(rs.last())
    }
}

/// The life of a flag drain whose decision on each element `x` is `g(x)`
/// (each call of `next` being `flag_next`): no element is lost or
/// duplicated — the vector at the end together with everything yielded
/// is, as a multiset, the vector at the start — and the elements kept at
/// the start stay in front as they are.
pub proof fn lemma_flag_life<T>(states: Seq<DrainState<T>>, rs: Seq<Option<T>>, g: spec_fn(T) -> Flag)
    requires
        states.len() == rs.len() + 1,
        states[0].wf(),
        forall|i: int| 0 <= i < rs.len() ==> (#[trigger] flag_next(states[i], g)) == (states[i + 1], rs[i]),
    ensures
        states.last().wf(),
        states.last().items.to_multiset().add(all_yielded(rs).to_multiset()) == states[0].items.to_multiset(),
        states.last().items.take(states[0].pos as int) == states[0].kept(),
        states[0].pos <= states.last().pos,
    decreases rs.len(),
{
    broadcast use vstd::multiset::group_multiset_axioms;
    if rs.len() == 0 {
        assert(Seq::<T>::empty().to_multiset() =~= Multiset::empty());
        assert(states[0].items.to_multiset().add(Multiset::empty()) =~= states[0].items.to_multiset());
    } else {
        let k = rs.len() - 1;
        lemma_flag_life(states.drop_last(), rs.drop_last(), g);
        let prev = states[k];
        assert(states.drop_last().last() == prev);
        assert(flag_next(prev, g) == (states[k + 1], rs[k]));
        lemma_flag_next_conserves(prev, g);
        vstd::seq_lib::lemma_multiset_commutative(all_yielded(rs.drop_last()), yielded(rs[k]));
        let a = states.last().items.to_multiset();
        let b = all_yielded(rs.drop_last()).to_multiset();
        let c = yielded(rs[k]).to_multiset();
        assert(all_yielded(rs) == all_yielded(rs.drop_last()) + yielded(rs[k]));
        assert(a.add(b.add(c)) =~= a.add(c).add(b));
        assert(states.last().items.take(states[0].pos as int)
            =~= states.last().items.take(prev.pos as int).take(states[0].pos as int));
        assert(prev.items.take(prev.pos as int).take(states[0].pos as int)
            =~= prev.items.take(states[0].pos as int));
    }
}

} // verus!
