//! How commitments cut down execution windows.
//!
//! When an event is committed to a time, every uncommitted event that the
//! compiled graph relates to it has its window cut down to what the
//! commitment leaves. This module states that in terms of the compiled
//! weights, the commitments and the windows alone, and proves what follows
//! from it: windows never widen, a settled schedule is not changed by
//! propagating again, and commitments of different events commute.

use crate::interval::{clamp, Interval};
use vstd::prelude::*;

verus! {

/// The interval `[-w(b, a), w(a, b)]` in which `b` happens after `a`,
/// according to the compiled weights `d`. There is none unless `d` relates
/// the two events in both directions.
pub open spec fn offset(d: Map<(i32, i32), i64>, a: i32, b: i32) -> Option<Interval> {
    if d.dom().contains((b, a)) && d.dom().contains((a, b)) {
        Some(Interval(clamp(-d[(b, a)]), d[(a, b)]))
    } else {
        None
    }
}

/// The window of event `n` after the commitment of event `c` has been
/// propagated: where `c` is committed, `n` is not, and the compiled weights
/// relate the two, the window of `n` is cut down to the window of `c` shifted
/// by the offset from `c` to `n`.
pub open spec fn tightened(
    d: Map<(i32, i32), i64>,
    k: Seq<Option<i64>>,
    w: Seq<Interval>,
    c: int,
    n: int,
) -> Interval {
    if k[c] is Some && k[n] is None && offset(d, c as i32, n as i32) is Some {
        w[n].meet(w[c].plus(offset(d, c as i32, n as i32)->0))
    } else {
        w[n]
    }
}

/// The windows after the commitment of event `c` has been propagated to
/// every other event.
pub open spec fn propagated(
    d: Map<(i32, i32), i64>,
    k: Seq<Option<i64>>,
    w: Seq<Interval>,
    c: int,
) -> Seq<Interval> {
    Seq::new(w.len(), |n: int| tightened(d, k, w, c, n))
}

/// The windows after the commitments of the events below `upto` have been
/// propagated one after the other, in the order of their IDs.
pub open spec fn replayed(
    d: Map<(i32, i32), i64>,
    k: Seq<Option<i64>>,
    w: Seq<Interval>,
    upto: nat,
) -> Seq<Interval>
    decreases upto,
{
    if upto == 0 {
        w
    } else {
        propagated(d, k, replayed(d, k, w, (upto - 1) as nat), upto - 1)
    }
}

/// Propagation and replay never widen a window, and leave the number of
/// windows alone.
pub proof fn lemma_replayed_within(
    d: Map<(i32, i32), i64>,
    k: Seq<Option<i64>>,
    w: Seq<Interval>,
    upto: nat,
)
    ensures
        replayed(d, k, w, upto).len() == w.len(),
        forall|n: int| 0 <= n < w.len() ==> (#[trigger] replayed(d, k, w, upto)[n]).within(w[n]),
        forall|n: int|
            0 <= n < w.len() && n < k.len() && k[n] is Some
                ==> #[trigger] replayed(d, k, w, upto)[n] == w[n],
    decreases upto,
{
    if upto > 0 {
        lemma_replayed_within(d, k, w, (upto - 1) as nat);
    }
}

/// The windows after `event` has been committed to `time` on a schedule that
/// is up to date: the window of `event` is the point `[time, time]`, and the
/// commitment has been propagated over the compiled weights `d`.
pub open spec fn commit_windows(
    d: Map<(i32, i32), i64>,
    k: Seq<Option<i64>>,
    w: Seq<Interval>,
    event: int,
    time: i64,
) -> Seq<Interval> {
    propagated(d, k.update(event, Some(time)), w.update(event, Interval::spec_point(time)), event)
}

/// The windows after `event` has been committed to `time` on a schedule that
/// was dirty, where `d` are the weights of its new compilation: the window
/// of `event` is the point `[time, time]`, every commitment has been
/// propagated again, that of `event` among them, and the commitment of
/// `event` has been propagated once more.
pub open spec fn recompiled_commit_windows(
    d: Map<(i32, i32), i64>,
    k: Seq<Option<i64>>,
    w: Seq<Interval>,
    event: int,
    time: i64,
) -> Seq<Interval> {
    propagated(
        d,
        k.update(event, Some(time)),
        replayed(
            d,
            k.update(event, Some(time)),
            w.update(event, Interval::spec_point(time)),
            w.len(),
        ),
        event,
    )
}

/// Whether the window of event `n` lies within what the commitment of event
/// `c` leaves to it: the window of `c` shifted by the offset from `c` to `n`.
pub open spec fn settled_pair(d: Map<(i32, i32), i64>, w: Seq<Interval>, c: int, n: int) -> bool {
    w[n].within(w[c].plus(offset(d, c as i32, n as i32)->0))
}

/// Whether every commitment of an event below `upto` has been propagated:
/// the window of every uncommitted event lies within what each of those
/// commitments leaves to it.
pub open spec fn settled_below(
    d: Map<(i32, i32), i64>,
    k: Seq<Option<i64>>,
    w: Seq<Interval>,
    upto: int,
) -> bool {
    forall|c: int, n: int|
        0 <= c < upto && c < w.len() && 0 <= n < w.len() && k[c] is Some && k[n] is None && offset(
            d,
            c as i32,
            n as i32,
        ) is Some ==> #[trigger] settled_pair(d, w, c, n)
}

/// Whether every commitment has been propagated.
pub open spec fn settled(d: Map<(i32, i32), i64>, k: Seq<Option<i64>>, w: Seq<Interval>) -> bool {
    settled_below(d, k, w, w.len() as int)
}

/// Whether every commitment but that of event `e` has been propagated.
pub open spec fn settled_but(
    d: Map<(i32, i32), i64>,
    k: Seq<Option<i64>>,
    w: Seq<Interval>,
    e: int,
) -> bool {
    forall|c: int, n: int|
        0 <= c < w.len() && c != e && 0 <= n < w.len() && k[c] is Some && k[n] is None && offset(
            d,
            c as i32,
            n as i32,
        ) is Some ==> #[trigger] settled_pair(d, w, c, n)
}

/// Propagating the commitment of event `e` settles it, and unsettles no
/// other.
pub proof fn lemma_propagated_settles(
    d: Map<(i32, i32), i64>,
    k: Seq<Option<i64>>,
    w: Seq<Interval>,
    e: int,
)
    requires
        k.len() == w.len(),
        0 <= e < w.len(),
        k[e] is Some,
    ensures
        forall|n: int|
            0 <= n < w.len() && k[n] is None && offset(d, e as i32, n as i32) is Some
                ==> #[trigger] settled_pair(d, propagated(d, k, w, e), e, n),
        forall|c: int, n: int|
            0 <= c < w.len() && 0 <= n < w.len() && k[c] is Some && k[n] is None && settled_pair(
                d,
                w,
                c,
                n,
            ) ==> #[trigger] settled_pair(d, propagated(d, k, w, e), c, n),
{
}

/// Where every commitment has been propagated, propagating them again
/// changes no window.
pub proof fn lemma_settled_replay(
    d: Map<(i32, i32), i64>,
    k: Seq<Option<i64>>,
    w: Seq<Interval>,
    upto: nat,
)
    requires
        k.len() == w.len(),
        upto <= w.len(),
        settled(d, k, w),
    ensures
        replayed(d, k, w, upto) == w,
    decreases upto,
{
    if upto > 0 {
        lemma_settled_replay(d, k, w, (upto - 1) as nat);
        let c = (upto - 1) as int;
        assert forall|n: int| 0 <= n < w.len() implies tightened(d, k, w, c, n) == w[n] by {
            if k[c] is Some && k[n] is None && offset(d, c as i32, n as i32) is Some {
                assert(settled_pair(d, w, c, n));
            }
        }
        assert(propagated(d, k, w, c) =~= w);
    }
}

/// Commitments of two different events commute: whichever of the two is
/// committed first, the schedule ends with the same commitments and the same
/// windows.
pub proof fn lemma_commits_commute(
    d: Map<(i32, i32), i64>,
    k: Seq<Option<i64>>,
    w: Seq<Interval>,
    a: int,
    at: i64,
    b: int,
    bt: i64,
)
    requires
        k.len() == w.len(),
        0 <= a < w.len(),
        0 <= b < w.len(),
        a != b,
    ensures
        k.update(a, Some(at)).update(b, Some(bt)) == k.update(b, Some(bt)).update(a, Some(at)),
        commit_windows(d, k.update(a, Some(at)), commit_windows(d, k, w, a, at), b, bt)
            == commit_windows(d, k.update(b, Some(bt)), commit_windows(d, k, w, b, bt), a, at),
{
    let k1 = k.update(a, Some(at));
    let k2 = k.update(b, Some(bt));
    let w1 = commit_windows(d, k, w, a, at);
    let w2 = commit_windows(d, k, w, b, bt);
    let w12 = commit_windows(d, k1, w1, b, bt);
    let w21 = commit_windows(d, k2, w2, a, at);
    assert(k1.update(b, Some(bt)) =~= k2.update(a, Some(at)));
    assert forall|n: int| 0 <= n < w.len() implies w12[n] == w21[n] by {
        let wa = w.update(a, Interval::spec_point(at));
        let wb = w.update(b, Interval::spec_point(bt));
        assert(w1[n] == tightened(d, k1, wa, a, n));
        assert(w2[n] == tightened(d, k2, wb, b, n));
        let w1b = w1.update(b, Interval::spec_point(bt));
        let w2a = w2.update(a, Interval::spec_point(at));
        assert(w12[n] == tightened(d, k1.update(b, Some(bt)), w1b, b, n));
        assert(w21[n] == tightened(d, k2.update(a, Some(at)), w2a, a, n));
    }
    assert(w12 =~= w21);
}

/// The window that the commitment of event `c` to `time` leaves to event
/// `n`, where the compiled weights `d` relate the two.
pub open spec fn shifted(d: Map<(i32, i32), i64>, c: int, time: i64, n: int) -> Interval {
    Interval::spec_point(time).plus(offset(d, c as i32, n as i32)->0)
}

/// One more commitment changes a replay in one way only: the window of
/// every uncommitted event that the compiled weights relate to the newly
/// committed event `x` is cut down by the shift from `x` as well, once the
/// replay has reached `x`.
proof fn lemma_replay_with_one_more(
    d: Map<(i32, i32), i64>,
    k: Seq<Option<i64>>,
    w: Seq<Interval>,
    x: int,
    time: i64,
    upto: nat,
    n: int,
)
    requires
        k.len() == w.len(),
        upto <= w.len(),
        0 <= x < w.len(),
        0 <= n < w.len(),
        k[x] is None,
    ensures
        replayed(
            d,
            k.update(x, Some(time)),
            w.update(x, Interval::spec_point(time)),
            upto,
        )[n] == if n == x {
            Interval::spec_point(time)
        } else if k[n] is None && x < upto && offset(d, x as i32, n as i32) is Some {
            replayed(d, k, w, upto)[n].meet(shifted(d, x, time, n))
        } else {
            replayed(d, k, w, upto)[n]
        },
    decreases upto,
{
    let kx = k.update(x, Some(time));
    let wx = w.update(x, Interval::spec_point(time));
    lemma_replayed_within(d, kx, wx, upto);
    lemma_replayed_within(d, k, w, upto);
    if upto > 0 {
        let c = (upto - 1) as int;
        let before = (upto - 1) as nat;
        lemma_replay_with_one_more(d, k, w, x, time, before, n);
        lemma_replay_with_one_more(d, k, w, x, time, before, c);
        lemma_replay_with_one_more(d, k, w, x, time, before, x);
        lemma_replayed_within(d, kx, wx, before);
        lemma_replayed_within(d, k, w, before);
        let rx = replayed(d, kx, wx, before);
        let r = replayed(d, k, w, before);
        assert(replayed(d, kx, wx, upto)[n] == tightened(d, kx, rx, c, n));
        assert(replayed(d, k, w, upto)[n] == tightened(d, k, r, c, n));
        if c != x && k[c] is Some {
            assert(rx[c] == wx[c]);
            assert(r[c] == w[c]);
        }
    }
}

/// Commitments of two different events commute on a schedule that is dirty,
/// too: whichever of the two is committed first, and so brings the schedule
/// up to date, the schedule ends with the same commitments and the same
/// windows. Neither event is committed before.
pub proof fn lemma_commits_commute_dirty(
    d: Map<(i32, i32), i64>,
    k: Seq<Option<i64>>,
    w: Seq<Interval>,
    a: int,
    at: i64,
    b: int,
    bt: i64,
)
    requires
        k.len() == w.len(),
        0 <= a < w.len(),
        0 <= b < w.len(),
        a != b,
        k[a] is None,
        k[b] is None,
    ensures
        commit_windows(
            d,
            k.update(a, Some(at)),
            recompiled_commit_windows(d, k, w, a, at),
            b,
            bt,
        ) == commit_windows(
            d,
            k.update(b, Some(bt)),
            recompiled_commit_windows(d, k, w, b, bt),
            a,
            at,
        ),
{
    let n_all = w.len();
    let ka = k.update(a, Some(at));
    let kb = k.update(b, Some(bt));
    let wa = w.update(a, Interval::spec_point(at));
    let wb = w.update(b, Interval::spec_point(bt));
    let ra = replayed(d, ka, wa, n_all);
    let rb = replayed(d, kb, wb, n_all);
    let r = replayed(d, k, w, n_all);
    lemma_replayed_within(d, ka, wa, n_all);
    lemma_replayed_within(d, kb, wb, n_all);
    lemma_replayed_within(d, k, w, n_all);
    let first_a = recompiled_commit_windows(d, k, w, a, at);
    let first_b = recompiled_commit_windows(d, k, w, b, bt);
    let both_ab = commit_windows(d, ka, first_a, b, bt);
    let both_ba = commit_windows(d, kb, first_b, a, at);
    assert(ka.update(b, Some(bt)) =~= kb.update(a, Some(at)));
    assert forall|n: int| 0 <= n < n_all implies both_ab[n] == both_ba[n] by {
        lemma_replay_with_one_more(d, k, w, a, at, n_all, n);
        lemma_replay_with_one_more(d, k, w, b, bt, n_all, n);
        lemma_replay_with_one_more(d, k, w, a, at, n_all, a);
        lemma_replay_with_one_more(d, k, w, b, bt, n_all, b);
        assert(first_a[n] == tightened(d, ka, ra, a, n));
        assert(first_b[n] == tightened(d, kb, rb, b, n));
        let next_a = first_a.update(b, Interval::spec_point(bt));
        let next_b = first_b.update(a, Interval::spec_point(at));
        assert(both_ab[n] == tightened(d, ka.update(b, Some(bt)), next_a, b, n));
        assert(both_ba[n] == tightened(d, kb.update(a, Some(at)), next_b, a, n));
    }
    assert(both_ab =~= both_ba);
}

} // verus!
