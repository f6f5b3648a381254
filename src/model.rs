//! A model of cursors over one shared source, and the laws it obeys.
//!
//! [`step`] is what a single advance does; the `next` methods of both
//! adaptors state their effect through it. [`run`] lets any number of cursors
//! advance in any order, and the lemmas below say what every such run keeps.

use vstd::prelude::*;

verus! {

/// What one cursor advance does to the shared state, described over the
/// whole sequence that the source produces.
pub struct Step<T> {
    /// Number of items pulled from the source so far (the cache length).
    pub frontier: nat,
    /// Whether the source has reported that it has no more items.
    pub exhausted: bool,
    /// The cursor's position after the advance.
    pub pos: nat,
    /// What the advance hands back.
    pub item: Option<T>,
}

/// One advance of a cursor at `pos` over a source whose items are `whole`,
/// of which the first `frontier` are cached.
///
/// Behind the frontier the cached item is replayed; at the frontier the source
/// is pulled once, unless it is known to be exhausted; past the end nothing
/// changes and the terminal `None` comes back.
pub open spec fn step<T>(whole: Seq<T>, frontier: nat, exhausted: bool, pos: nat) -> Step<T> {
    if pos < frontier {
        Step { frontier, exhausted, pos: pos + 1, item: Some(whole[pos as int]) }
    } else if pos == frontier && !exhausted {
        if frontier < whole.len() {
            Step { frontier: frontier + 1, exhausted: false, pos: pos + 1, item: Some(whole[pos as int]) }
        } else {
            Step { frontier, exhausted: true, pos, item: None }
        }
    } else {
        Step { frontier, exhausted, pos, item: None }
    }
}

/// The whole sequence a shared source stands for: what has been cached, then,
/// unless the source is known to be exhausted, what it has still to produce.
pub open spec fn whole_of<T>(cached: Seq<T>, exhausted: bool, rest: Seq<T>) -> Seq<T> {
    if exhausted {
        cached
    } else {
        cached + rest
    }
}

/// Any number of cursors over one shared source: the shared state, each
/// cursor's position, and what each cursor has been handed so far.
pub struct World<T> {
    /// Number of items pulled from the source so far.
    pub frontier: nat,
    /// Whether the source has reported that it has no more items.
    pub exhausted: bool,
    /// Each cursor's position.
    pub positions: Seq<nat>,
    /// What each cursor has been handed, in order.
    pub seen: Seq<Seq<T>>,
}

/// A fresh adaptor with `cursors` fresh cursors.
pub open spec fn start<T>(cursors: nat) -> World<T> {
    World {
        frontier: 0,
        exhausted: false,
        positions: Seq::new(cursors, |i: int| 0nat),
        seen: Seq::new(cursors, |i: int| Seq::<T>::empty()),
    }
}

/// Cursor `c` advances once.
pub open spec fn advance<T>(whole: Seq<T>, w: World<T>, c: int) -> World<T> {
    let s = step(whole, w.frontier, w.exhausted, w.positions[c]);
    World {
        frontier: s.frontier,
        exhausted: s.exhausted,
        positions: w.positions.update(c, s.pos),
        seen: match s.item {
            Some(x) => w.seen.update(c, w.seen[c].push(x)),
            None => w.seen,
        },
    }
}

/// The cursors named in `schedule` advance, one after the other.
pub open spec fn run<T>(whole: Seq<T>, w: World<T>, schedule: Seq<int>) -> World<T>
    decreases schedule.len(),
{
    if schedule.len() == 0 {
        w
    } else {
        advance(whole, run(whole, w, schedule.drop_last()), schedule.last())
    }
}

/// How often cursor `c` advances in `schedule`.
pub open spec fn steps_of(schedule: Seq<int>, c: int) -> nat
    decreases schedule.len(),
{
    if schedule.len() == 0 {
        0
    } else {
        steps_of(schedule.drop_last(), c) + if schedule.last() == c { 1nat } else { 0nat }
    }
}

/// Every entry of `schedule` names one of `cursors` cursors.
pub open spec fn schedule_within(schedule: Seq<int>, cursors: nat) -> bool {
    forall|i: int| 0 <= i < schedule.len() ==> 0 <= #[trigger] schedule[i] < cursors
}

/// The state every reachable world is in: nothing is pulled past the source's
/// end, each cursor stands at or behind the frontier and has been handed
/// exactly the source's items before its position, and the frontier is where
/// some cursor stands.
pub open spec fn consistent<T>(whole: Seq<T>, w: World<T>) -> bool {
    &&& w.frontier <= whole.len()
    &&& w.exhausted ==> w.frontier == whole.len()
    &&& w.seen.len() == w.positions.len()
    &&& forall|c: int| 0 <= c < w.positions.len() ==> #[trigger] w.positions[c] <= w.frontier
    &&& forall|c: int| 0 <= c < w.positions.len() ==> #[trigger] w.seen[c] == whole.take(w.positions[c] as int)
    &&& w.frontier > 0 ==> exists|c: int| 0 <= c < w.positions.len() && #[trigger] w.positions[c] == w.frontier
}

proof fn lemma_advance_consistent<T>(whole: Seq<T>, w: World<T>, c: int)
    requires
        consistent(whole, w),
        0 <= c < w.positions.len(),
    ensures
        consistent(whole, advance(whole, w, c)),
        advance(whole, w, c).positions.len() == w.positions.len(),
        advance(whole, w, c).frontier >= w.frontier,
        w.exhausted ==> advance(whole, w, c).frontier == w.frontier && advance(whole, w, c).exhausted,
{
    let n = advance(whole, w, c);
    let p: int = w.positions[c] as int;
    assert forall|d: int| 0 <= d < n.positions.len() implies #[trigger] n.seen[d] == whole.take(n.positions[d] as int) by {
        if d == c && n.positions[d] == p + 1 {
            assert(whole.take(p + 1) =~= whole.take(p).push(whole[p]));
        }
    }
    assert forall|d: int| 0 <= d < n.positions.len() implies #[trigger] n.positions[d] <= n.frontier by {
    }
    if n.frontier > 0 {
        if n.frontier == w.frontier {
            let e = choose|e: int| 0 <= e < w.positions.len() && #[trigger] w.positions[e] == w.frontier;
            if e == c {
                assert(n.positions[c] == n.frontier);
            } else {
                assert(n.positions[e] == n.frontier);
            }
        } else {
            assert(n.positions[c] == n.frontier);
        }
    }
}

/// What any interleaving of cursors leaves behind depends, per cursor, only on
/// how often that cursor advanced: a cursor that advanced `k` times has been
/// handed exactly the source's first `min(k, n)` items, whatever the others
/// did in between. The source has been pulled for exactly the furthest
/// position any cursor reached, so no position is pulled twice.
pub proof fn lemma_interleaving<T>(whole: Seq<T>, cursors: nat, schedule: Seq<int>)
    requires
        schedule_within(schedule, cursors),
    ensures
        consistent(whole, run(whole, start::<T>(cursors), schedule)),
        run(whole, start::<T>(cursors), schedule).positions.len() == cursors,
        forall|c: int| 0 <= c < cursors ==> {
            let m = if steps_of(schedule, c) <= whole.len() { steps_of(schedule, c) } else { whole.len() };
            &&& #[trigger] run(whole, start::<T>(cursors), schedule).positions[c] == m
            &&& run(whole, start::<T>(cursors), schedule).seen[c] == whole.take(m as int)
        },
        run(whole, start::<T>(cursors), schedule).exhausted <==> exists|c: int|
            0 <= c < cursors && #[trigger] steps_of(schedule, c) > whole.len(),
    decreases schedule.len(),
{
    let w0 = start::<T>(cursors);
    if schedule.len() == 0 {
        assert forall|c: int| 0 <= c < cursors implies #[trigger] w0.seen[c] == whole.take(w0.positions[c] as int) by {
            assert(whole.take(0) =~= Seq::<T>::empty());
        }
    } else {
        let prefix = schedule.drop_last();
        assert(schedule_within(prefix, cursors)) by {
            assert forall|i: int| 0 <= i < prefix.len() implies 0 <= #[trigger] prefix[i] < cursors by {
                assert(prefix[i] == schedule[i]);
            }
        }
        lemma_interleaving(whole, cursors, prefix);
        let w = run(whole, w0, prefix);
        let c = schedule.last();
        assert(0 <= schedule[schedule.len() - 1] < cursors);
        lemma_advance_consistent(whole, w, c);
        let n = run(whole, w0, schedule);
        assert(n == advance(whole, w, c));
        assert forall|d: int| 0 <= d < cursors implies #[trigger] steps_of(schedule, d)
            == steps_of(prefix, d) + if d == c { 1nat } else { 0nat } by {
        }
        if n.exhausted {
            if !w.exhausted {
                assert(steps_of(schedule, c) > whole.len());
            } else {
                let e = choose|e: int| 0 <= e < cursors && #[trigger] steps_of(prefix, e) > whole.len();
                assert(steps_of(schedule, e) > whole.len());
            }
        } else {
            assert forall|d: int| 0 <= d < cursors implies !(#[trigger] steps_of(schedule, d) > whole.len()) by {
                assert(!(steps_of(prefix, d) > whole.len()));
            }
        }
    }
}

/// Draining each of any number of cursors hands every one of them the
/// source's whole sequence, while the source yields each item exactly once:
/// the frontier, the count of items pulled, ends at the source's length, and
/// the source's end is observed.
pub proof fn lemma_single_pull<T>(whole: Seq<T>, cursors: nat, schedule: Seq<int>)
    requires
        cursors >= 1,
        schedule_within(schedule, cursors),
        forall|c: int| 0 <= c < cursors ==> #[trigger] steps_of(schedule, c) > whole.len(),
    ensures
        forall|c: int| 0 <= c < cursors ==> #[trigger] run(whole, start::<T>(cursors), schedule).seen[c] == whole,
        run(whole, start::<T>(cursors), schedule).frontier == whole.len(),
        run(whole, start::<T>(cursors), schedule).exhausted,
{
    lemma_interleaving(whole, cursors, schedule);
    let w = run(whole, start::<T>(cursors), schedule);
    assert forall|c: int| 0 <= c < cursors implies #[trigger] w.seen[c] == whole by {
        assert(whole.take(whole.len() as int) =~= whole);
    }
    assert(steps_of(schedule, 0) > whole.len());
    assert(w.positions[0] == whole.len());
}

/// Advancing from a reachable world never lowers the frontier nor moves a
/// cursor back, so every item a cursor was handed stays what it was, and the
/// cached prefix is only ever extended. Once the source is exhausted nothing
/// more is pulled, and a cursor standing at the end stays there.
pub proof fn lemma_handed_out_kept<T>(whole: Seq<T>, w: World<T>, schedule: Seq<int>)
    requires
        consistent(whole, w),
        schedule_within(schedule, w.positions.len()),
    ensures
        consistent(whole, run(whole, w, schedule)),
        run(whole, w, schedule).positions.len() == w.positions.len(),
        run(whole, w, schedule).frontier >= w.frontier,
        whole.take(w.frontier as int).is_prefix_of(whole.take(run(whole, w, schedule).frontier as int)),
        forall|c: int| 0 <= c < w.positions.len() ==> #[trigger] run(whole, w, schedule).positions[c] >= w.positions[c],
        forall|c: int, i: int| 0 <= c < w.positions.len() && 0 <= i < w.seen[c].len() ==>
            #[trigger] run(whole, w, schedule).seen[c][i] == w.seen[c][i],
        w.exhausted ==> run(whole, w, schedule).exhausted && run(whole, w, schedule).frontier == w.frontier,
        forall|c: int| 0 <= c < w.positions.len() && w.exhausted && w.positions[c] == w.frontier ==>
            #[trigger] run(whole, w, schedule).positions[c] == w.positions[c],
    decreases schedule.len(),
{
    if schedule.len() > 0 {
        let prefix = schedule.drop_last();
        assert(schedule_within(prefix, w.positions.len())) by {
            assert forall|i: int| 0 <= i < prefix.len() implies 0 <= #[trigger] prefix[i] < w.positions.len() by {
                assert(prefix[i] == schedule[i]);
            }
        }
        lemma_handed_out_kept(whole, w, prefix);
        let m = run(whole, w, prefix);
        assert(0 <= schedule[schedule.len() - 1] < w.positions.len());
        lemma_advance_consistent(whole, m, schedule.last());
        let n = run(whole, w, schedule);
        assert forall|c: int, i: int| 0 <= c < w.positions.len() && 0 <= i < w.seen[c].len() implies
            #[trigger] n.seen[c][i] == w.seen[c][i] by {
            assert(n.seen[c] == whole.take(n.positions[c] as int));
            assert(w.seen[c] == whole.take(w.positions[c] as int));
        }
    }
}

/// Once a cursor has been told that there is nothing more, it is told so
/// again on its next advance, whatever any cursor did in between.
pub proof fn lemma_terminal_sticky<T>(whole: Seq<T>, w: World<T>, c: int, schedule: Seq<int>)
    requires
        consistent(whole, w),
        0 <= c < w.positions.len(),
        step(whole, w.frontier, w.exhausted, w.positions[c]).item is None,
        schedule_within(schedule, w.positions.len()),
    ensures
        ({
            let r = run(whole, advance(whole, w, c), schedule);
            step(whole, r.frontier, r.exhausted, r.positions[c]).item is None
        }),
{
    lemma_advance_consistent(whole, w, c);
    let a = advance(whole, w, c);
    assert(a.exhausted && a.positions[c] == a.frontier);
    lemma_handed_out_kept(whole, a, schedule);
}

/// The world `w` with one more cursor, fresh at position 0.
pub open spec fn join<T>(w: World<T>) -> World<T> {
    World { positions: w.positions.push(0nat), seen: w.seen.push(Seq::<T>::empty()), ..w }
}

/// A cursor that joins a world whose frontier is `f` replays the cached
/// items without pulling anything: after `j <= f` advances nothing has been
/// pulled, and after more the source has been pulled only for the positions
/// past `f`. Either way it has been handed the source's first items in order.
pub proof fn lemma_replay<T>(whole: Seq<T>, w: World<T>, j: nat)
    requires
        consistent(whole, w),
    ensures
        ({
            let k = w.positions.len() as int;
            let r = run(whole, join(w), Seq::new(j, |i: int| k));
            let m = if j <= whole.len() { j } else { whole.len() };
            &&& consistent(whole, r)
            &&& r.positions.len() == k + 1
            &&& r.frontier == if m <= w.frontier { w.frontier } else { m }
            &&& r.positions[k] == m
            &&& r.seen[k] == whole.take(m as int)
        }),
    decreases j,
{
    let k = w.positions.len() as int;
    let joined = join(w);
    assert(consistent(whole, joined)) by {
        assert(joined.positions[k] == 0);
        assert(whole.take(0) =~= Seq::<T>::empty());
        assert forall|c: int| 0 <= c < joined.positions.len() implies #[trigger] joined.seen[c]
            == whole.take(joined.positions[c] as int) by {
            if c < k {
                assert(joined.seen[c] == w.seen[c]);
            }
        }
        assert forall|c: int| 0 <= c < joined.positions.len() implies #[trigger] joined.positions[c]
            <= joined.frontier by {
            if c < k {
                assert(joined.positions[c] == w.positions[c]);
            }
        }
        if w.frontier > 0 {
            let e = choose|e: int| 0 <= e < w.positions.len() && #[trigger] w.positions[e] == w.frontier;
            assert(joined.positions[e] == joined.frontier);
        }
    }
    let sched = Seq::new(j, |i: int| k);
    if j > 0 {
        lemma_replay(whole, w, (j - 1) as nat);
        let prev = Seq::new((j - 1) as nat, |i: int| k);
        assert(sched.drop_last() =~= prev);
        let pw = run(whole, joined, prev);
        lemma_advance_consistent(whole, pw, k);
        let p: int = pw.positions[k] as int;
        if p < whole.len() {
            assert(whole.take(p + 1) =~= whole.take(p).push(whole[p]));
        }
    }
}

} // verus!
