//! What holds of a hub across its operations: where jobs lie, how drains
//! order and empty it, what cancelling twice and pruning leave, and where a
//! job that arrives already due goes.

use vstd::prelude::*;
use vstd::arithmetic::div_mod::lemma_fundamental_div_mod;
use crate::hub::{
    Hub, body_removed, first_owner, lemma_pruned, owned_by_none, prunable, pruned,
    regular_spoke, walk_spokes_spec, walked, walked_all,
};
use crate::job::{Job, JobBody, JobId, JobMetadata};
use crate::spoke::{BoundingSpokeTime, Spoke, latest_first, lemma_walk_spec, parts, queued, walk_spec};

verus! {

/// Two distinct multiples of `w` lie at least `w` apart.
proof fn lemma_aligned_gap(a: u64, b: u64, w: u64)
    requires
        w > 0,
        a % w == 0,
        b % w == 0,
        a < b,
    ensures
        a + w <= b,
{
    lemma_fundamental_div_mod(a as int, w as int);
    lemma_fundamental_div_mod(b as int, w as int);
    let p = a as int / w as int;
    let q = b as int / w as int;
    assert(p < q) by (nonlinear_arith)
        requires
            a == w * p,
            b == w * q,
            a < b,
            w > 0,
    ;
    assert(w * p + w <= w * q) by (nonlinear_arith)
        requires
            p < q,
            w > 0,
    ;
}

/// Walking ordered, aligned spokes of width `w` hands out only jobs due at
/// `now`, none earlier than the first spoke's start, in non-decreasing
/// trigger order.
proof fn lemma_walk_spokes(s: Seq<Spoke>, now: u64, w: u64)
    requires
        w > 0,
        forall|i: int| 0 <= i < s.len() ==> regular_spoke(#[trigger] s[i], w),
        forall|i: int, j: int| 0 <= i < j < s.len() ==> s[i].bounds().start() < s[j].bounds().start(),
    ensures
        ({
            let out = walk_spokes_spec(s, now);
            &&& forall|i: int| 0 <= i < out.len() ==> #[trigger] out[i].0.trigger() <= now
            &&& s.len() > 0 ==> forall|i: int|
                0 <= i < out.len() ==> s[0].bounds().start() <= #[trigger] out[i].0.trigger()
            &&& forall|i: int, j: int|
                0 <= i < j < out.len() ==> out[i].0.trigger() <= out[j].0.trigger()
        }),
    decreases s.len(),
{
    if s.len() > 0 && s[0].bounds().start() <= now {
        let s0 = s[0];
        let rest = s.drop_first();
        lemma_walk_spokes(rest, now, w);
        lemma_walk_spec(s0.queue(), s0.bodies(), now);
        let a = walk_spec(s0.queue(), s0.bodies(), now).0;
        let b = walk_spokes_spec(rest, now);
        let out = walk_spokes_spec(s, now);
        assert(out == a + b);
        assert(regular_spoke(s0, w));
        assert forall|i: int| 0 <= i < a.len() implies s0.bounds().covers(#[trigger] a[i].0.trigger()) by {
            let k = choose|k: int| 0 <= k < s0.queue().len() && s0.queue()[k] == a[i].0;
            assert(s0.bounds().covers(s0.queue()[k].trigger()));
        }
        if rest.len() > 0 {
            assert(rest[0] == s[1]);
            assert(regular_spoke(s[1], w));
            lemma_aligned_gap(s0.bounds().start(), s[1].bounds().start(), w);
            assert forall|i: int| 0 <= i < b.len() implies s[1].bounds().start() <= #[trigger] b[i].0.trigger() by {
            }
        } else {
            assert(b.len() == 0);
        }
        assert forall|i: int| 0 <= i < out.len() implies #[trigger] out[i].0.trigger() <= now by {
            if i >= a.len() {
                assert(out[i] == b[i - a.len()]);
            }
        }
        assert forall|i: int| 0 <= i < out.len() implies s[0].bounds().start() <= #[trigger] out[i].0.trigger() by {
            if i >= a.len() {
                assert(out[i] == b[i - a.len()]);
                assert(s[0].bounds().start() < s[1].bounds().start());
            } else {
                assert(out[i] == a[i]);
            }
        }
        assert forall|i: int, j: int|
            0 <= i < j < out.len() implies out[i].0.trigger() <= out[j].0.trigger() by {
            if j < a.len() {
                assert(out[i] == a[i]);
                assert(out[j] == a[j]);
            } else if i >= a.len() {
                assert(out[i] == b[i - a.len()]);
                assert(out[j] == b[j - a.len()]);
            } else {
                assert(out[i] == a[i]);
                assert(out[j] == b[j - a.len()]);
                assert(s0.bounds().covers(a[i].0.trigger()));
            }
        }
    }
}

/// A job that is pending and has a due entry in the queue is handed out by
/// a walk.
proof fn lemma_walk_hands_out(q: Seq<JobMetadata>, b: Map<JobId, JobBody>, now: u64, id: JobId, k: int)
    requires
        latest_first(q),
        b.contains_key(id),
        0 <= k < q.len(),
        q[k].id() == id,
        q[k].trigger() <= now,
    ensures
        exists|i: int|
            0 <= i < walk_spec(q, b, now).0.len() && (#[trigger] walk_spec(q, b, now).0[i]).0.id()
                == id,
    decreases q.len(),
{
    let m = q.last();
    assert(m.trigger() <= q[k].trigger());
    let r = walk_spec(q, b, now);
    if b.contains_key(m.id()) {
        if m.id() == id {
            assert(r.0[0] == (m, b[m.id()]));
        } else {
            assert(k < q.len() - 1);
            assert(q.drop_last()[k] == q[k]);
            lemma_walk_hands_out(q.drop_last(), b.remove(m.id()), now, id, k);
            let s = walk_spec(q.drop_last(), b.remove(m.id()), now);
            let i = choose|i: int| 0 <= i < s.0.len() && (#[trigger] s.0[i]).0.id() == id;
            assert(r.0[i + 1] == s.0[i]);
        }
    } else {
        assert(m.id() != id);
        assert(k < q.len() - 1);
        assert(q.drop_last()[k] == q[k]);
        lemma_walk_hands_out(q.drop_last(), b, now, id, k);
    }
}

/// Every job queued in a regular spoke lies within the spoke's bounds.
pub proof fn lemma_bucket_containment(h: Hub)
    requires
        h.wf(),
    ensures
        forall|i: int, k: int|
            0 <= i < h.spokes().len() && 0 <= k < h.spokes()[i].queue().len()
                ==> h.spokes()[i].bounds().start() <= #[trigger] h.spokes()[i].queue()[k].trigger()
                < h.spokes()[i].bounds().end(),
{
    assert forall|i: int, k: int|
        0 <= i < h.spokes().len() && 0 <= k < h.spokes()[i].queue().len() implies h.spokes()[i].bounds().start()
            <= #[trigger] h.spokes()[i].queue()[k].trigger() < h.spokes()[i].bounds().end() by {
        assert(regular_spoke(h.spokes()[i], h.duration()));
    }
}

/// Every regular spoke spans exactly the hub's spoke duration.
pub proof fn lemma_unique_bucket_width(h: Hub)
    requires
        h.wf(),
    ensures
        forall|i: int|
            0 <= i < h.spokes().len() ==> #[trigger] h.spokes()[i].bounds().end() - h.spokes()[i].bounds().start()
                == h.duration(),
{
    assert forall|i: int| 0 <= i < h.spokes().len() implies #[trigger] h.spokes()[i].bounds().end()
        - h.spokes()[i].bounds().start() == h.duration() by {
        assert(regular_spoke(h.spokes()[i], h.duration()));
    }
}

/// A drain hands out the past spoke's jobs in non-decreasing trigger order,
/// then the regular spokes' jobs in non-decreasing trigger order; and the
/// whole is in non-decreasing trigger order when no regular spoke queues a
/// job earlier than a due job of the past spoke.
pub proof fn lemma_drain_ordering(h0: Hub, h1: Hub, now: u64, out: Seq<Job>)
    requires
        h0.wf(),
        Hub::drained(h0, h1, now, out),
    ensures
        ({
            let n = walk_spec(h0.past().queue(), h0.past().bodies(), now).0.len();
            &&& forall|i: int, j: int|
                0 <= i < j < n ==> out[i].trigger() <= out[j].trigger()
            &&& forall|i: int, j: int|
                n <= i < j < out.len() ==> out[i].trigger() <= out[j].trigger()
        }),
        (forall|m: int, i: int, k: int|
            0 <= m < h0.past().queue().len() && h0.past().queue()[m].trigger() <= now && 0 <= i
                < h0.spokes().len() && 0 <= k < h0.spokes()[i].queue().len()
                ==> #[trigger] h0.past().queue()[m].trigger()
                <= #[trigger] h0.spokes()[i].queue()[k].trigger()) ==> forall|i: int, j: int|
            0 <= i < j < out.len() ==> out[i].trigger() <= out[j].trigger(),
{
    let p = h0.past();
    lemma_walk_spec(p.queue(), p.bodies(), now);
    lemma_walk_spokes(h0.spokes(), now, h0.duration());
    let a = walk_spec(p.queue(), p.bodies(), now).0;
    let b = walk_spokes_spec(h0.spokes(), now);
    let po = parts(out);
    assert(po == a + b);
    assert(po.len() == out.len());
    assert forall|i: int| 0 <= i < out.len() implies #[trigger] po[i].0 == out[i].metadata() by {}
    assert forall|i: int, j: int| 0 <= i < j < a.len() implies out[i].trigger() <= out[j].trigger() by {
        assert(po[i] == a[i]);
        assert(po[j] == a[j]);
    }
    assert forall|i: int, j: int|
        a.len() <= i < j < out.len() implies out[i].trigger() <= out[j].trigger() by {
        assert(po[i] == b[i - a.len()]);
        assert(po[j] == b[j - a.len()]);
    }
    if forall|m: int, i: int, k: int|
        0 <= m < p.queue().len() && p.queue()[m].trigger() <= now && 0 <= i < h0.spokes().len()
            && 0 <= k < h0.spokes()[i].queue().len() ==> #[trigger] p.queue()[m].trigger()
            <= #[trigger] h0.spokes()[i].queue()[k].trigger() {
        assert forall|i: int, j: int| 0 <= i < j < out.len() implies out[i].trigger()
            <= out[j].trigger() by {
            if i < a.len() && j >= a.len() {
                assert(po[i] == a[i]);
                assert(po[j] == b[j - a.len()]);
                let x = a[i].0;
                let mi = choose|mi: int| 0 <= mi < p.queue().len() && p.queue()[mi] == x;
                lemma_walk_spokes_member(h0.spokes(), now, j - a.len());
                let (si, sk) = choose|si: int, sk: int|
                    0 <= si < h0.spokes().len() && 0 <= sk < h0.spokes()[si].queue().len()
                        && #[trigger] h0.spokes()[si].queue()[sk] == b[j - a.len()].0;
                assert(p.queue()[mi].trigger() <= h0.spokes()[si].queue()[sk].trigger());
            }
        }
    }
}

/// Each job that walking spokes hands out is an entry of one of them.
proof fn lemma_walk_spokes_member(s: Seq<Spoke>, now: u64, x: int)
    requires
        forall|i: int| 0 <= i < s.len() ==> #[trigger] latest_first(s[i].queue()),
        0 <= x < walk_spokes_spec(s, now).len(),
    ensures
        exists|si: int, sk: int|
            0 <= si < s.len() && 0 <= sk < s[si].queue().len() && #[trigger] s[si].queue()[sk]
                == walk_spokes_spec(s, now)[x].0,
    decreases s.len(),
{
    let s0 = s[0];
    assert(latest_first(s0.queue()));
    lemma_walk_spec(s0.queue(), s0.bodies(), now);
    let a = walk_spec(s0.queue(), s0.bodies(), now).0;
    let rest = s.drop_first();
    if x < a.len() {
        assert(walk_spokes_spec(s, now)[x] == a[x]);
        let k = choose|k: int| 0 <= k < s0.queue().len() && s0.queue()[k] == a[x].0;
        assert(s[0].queue()[k] == walk_spokes_spec(s, now)[x].0);
    } else {
        assert forall|i: int| 0 <= i < rest.len() implies #[trigger] latest_first(rest[i].queue()) by {
            assert(rest[i] == s[i + 1]);
        }
        assert(walk_spokes_spec(s, now)[x] == walk_spokes_spec(rest, now)[x - a.len()]);
        lemma_walk_spokes_member(rest, now, x - a.len());
        let (si, sk) = choose|si: int, sk: int|
            0 <= si < rest.len() && 0 <= sk < rest[si].queue().len() && #[trigger] rest[si].queue()[sk]
                == walk_spokes_spec(rest, now)[x - a.len()].0;
        assert(rest[si] == s[si + 1]);
        assert(s[si + 1].queue()[sk] == walk_spokes_spec(s, now)[x].0);
    }
}

/// After a drain at `now`, no entry due at `now` is left queued, in the past
/// spoke or in any regular spoke; and since every pending job has an entry
/// in its spoke's queue, no pending job due at `now` is left in the hub.
pub proof fn lemma_drain_completeness(h0: Hub, h1: Hub, now: u64, out: Seq<Job>)
    requires
        h0.wf(),
        Hub::drained(h0, h1, now, out),
    ensures
        forall|k: int|
            0 <= k < h1.past().queue().len() ==> #[trigger] h1.past().queue()[k].trigger() > now,
        forall|i: int, k: int|
            0 <= i < h1.spokes().len() && 0 <= k < h1.spokes()[i].queue().len()
                ==> #[trigger] h1.spokes()[i].queue()[k].trigger() > now,
{
    lemma_walk_spec(h0.past().queue(), h0.past().bodies(), now);
    let t = choose|t: Seq<Spoke>|
        #[trigger] walked_all(h0.spokes(), t, now) && h1.spokes() == pruned(t, now);
    lemma_pruned(t, now);
    assert forall|i: int, k: int|
        0 <= i < h1.spokes().len() && 0 <= k < h1.spokes()[i].queue().len()
            implies #[trigger] h1.spokes()[i].queue()[k].trigger() > now by {
        let x = h1.spokes()[i];
        assert(t.contains(x));
        let j = choose|j: int| 0 <= j < t.len() && t[j] == x;
        let before = h0.spokes()[j];
        assert(walked(before, t[j], now));
        assert(regular_spoke(before, h0.duration()));
        if before.bounds().start() <= now {
            lemma_walk_spec(before.queue(), before.bodies(), now);
        } else {
            assert(before.bounds().covers(before.queue()[k].trigger()));
        }
    }
}

/// At most one spoke of `h`, the past spoke included, holds a body for `id`.
pub open spec fn single_owner(h: Hub, id: JobId) -> bool {
    &&& h.past().bodies().contains_key(id) ==> owned_by_none(h.spokes(), id)
    &&& forall|i: int, j: int|
        0 <= i < h.spokes().len() && 0 <= j < h.spokes().len()
            && #[trigger] h.spokes()[i].bodies().contains_key(id)
            && #[trigger] h.spokes()[j].bodies().contains_key(id) ==> i == j
}

/// Once a cancel of `id` succeeds, a second cancel of `id` right after it
/// returns false, when at most one spoke held the job.
pub proof fn lemma_cancel_idempotent(h0: Hub, h1: Hub, h2: Hub, id: JobId, r1: bool, r2: bool)
    requires
        h0.wf(),
        single_owner(h0, id),
        Hub::cancelled(h0, h1, id, r1),
        r1,
        Hub::cancelled(h1, h2, id, r2),
    ensures
        !r2,
{
    if h0.past().bodies().contains_key(id) {
        assert(!h1.past().bodies().contains_key(id));
        assert(owned_by_none(h1.spokes(), id));
    } else {
        let i = choose|i: int|
            #[trigger] first_owner(h0.spokes(), id, i) && h1.spokes() == h0.spokes().update(
                i,
                h1.spokes()[i],
            ) && body_removed(h0.spokes()[i], h1.spokes()[i], id);
        assert forall|j: int| 0 <= j < h1.spokes().len() implies !(
        #[trigger] h1.spokes()[j].bodies().contains_key(id)) by {
            if j != i {
                assert(h1.spokes()[j] == h0.spokes()[j]);
                if h0.spokes()[j].bodies().contains_key(id) {
                    assert(h0.spokes()[i].bodies().contains_key(id));
                }
            }
        }
    }
}

/// After pruning at `now`, no regular spoke left is both over at `now` and
/// without pending jobs.
pub proof fn lemma_prune_sound(h0: Hub, h1: Hub, now: u64)
    requires
        h1.spokes() == pruned(h0.spokes(), now),
    ensures
        forall|i: int|
            0 <= i < h1.spokes().len() ==> !(#[trigger] h1.spokes()[i].bounds().end() < now
                && h1.spokes()[i].bodies().len() == 0),
{
    lemma_pruned(h0.spokes(), now);
    assert forall|i: int| 0 <= i < h1.spokes().len() implies !(
    #[trigger] h1.spokes()[i].bounds().end() < now && h1.spokes()[i].bodies().len() == 0) by {
        assert(!prunable(h1.spokes()[i], now));
    }
}

/// A job routed while already due goes to the past spoke: finding it gives
/// the past spoke's bounds `[0, u64::MAX)`, and a drain at any instant from
/// its trigger time on hands it out.
pub proof fn lemma_past_round_trip(
    h0: Hub,
    h1: Hub,
    h2: Hub,
    job: Job,
    now: u64,
    later: u64,
    out: Seq<Job>,
)
    requires
        h0.wf(),
        h1.wf(),
        Hub::added(h0, h1, job, now),
        job.trigger() < now,
        job.trigger() <= later,
        Hub::drained(h1, h2, later, out),
    ensures
        h1.past().bounds().start() == 0,
        h1.past().bounds().end() == u64::MAX,
        forall|r: Option<BoundingSpokeTime>| h1.owner(job.id(), r) <==> r == Some(h1.past().bounds()),
        exists|i: int| 0 <= i < out.len() && (#[trigger] out[i]).id() == job.id(),
{
    let p = h1.past();
    assert(p.bodies().contains_key(job.id()));
    let k = choose|k: int|
        0 <= k <= h0.past().queue().len() && p.queue() == h0.past().queue().insert(
            k,
            job.metadata(),
        );
    assert(p.queue()[k] == job.metadata());
    lemma_walk_hands_out(p.queue(), p.bodies(), later, job.id(), k);
    let a = walk_spec(p.queue(), p.bodies(), later).0;
    let i = choose|i: int| 0 <= i < a.len() && (#[trigger] a[i]).0.id() == job.id();
    let po = parts(out);
    assert(po == a + walk_spokes_spec(h1.spokes(), later));
    assert(po.len() == out.len());
    assert(po[i] == a[i]);
    assert(po[i].0 == out[i].metadata());
}

/// A walk hands out each job with the body it had, at most once per
/// identity, and leaves only bodies it was given.
proof fn lemma_walk_ids(q: Seq<JobMetadata>, b: Map<JobId, JobBody>, now: u64)
    ensures
        ({
            let r = walk_spec(q, b, now);
            &&& forall|i: int|
                0 <= i < r.0.len() ==> b.contains_key((#[trigger] r.0[i]).0.id()) && r.0[i].1
                    == b[r.0[i].0.id()]
            &&& forall|i: int, j: int|
                0 <= i < j < r.0.len() ==> (#[trigger] r.0[i]).0.id() != (#[trigger] r.0[j]).0.id()
            &&& forall|x: JobId| #[trigger] r.2.contains_key(x) ==> b.contains_key(x) && r.2[x] == b[x]
        }),
    decreases q.len(),
{
    if q.len() > 0 && q.last().trigger() <= now {
        let m = q.last();
        let r = walk_spec(q, b, now);
        if b.contains_key(m.id()) {
            let b2 = b.remove(m.id());
            lemma_walk_ids(q.drop_last(), b2, now);
            let s = walk_spec(q.drop_last(), b2, now);
            assert(r.0 == seq![(m, b[m.id()])] + s.0);
            assert forall|i: int| 0 <= i < r.0.len() implies b.contains_key(
                (#[trigger] r.0[i]).0.id(),
            ) && r.0[i].1 == b[r.0[i].0.id()] by {
                if i > 0 {
                    assert(r.0[i] == s.0[i - 1]);
                }
            }
            assert forall|i: int, j: int| 0 <= i < j < r.0.len() implies (#[trigger] r.0[i]).0.id()
                != (#[trigger] r.0[j]).0.id() by {
                assert(r.0[j] == s.0[j - 1]);
                if i > 0 {
                    assert(r.0[i] == s.0[i - 1]);
                } else {
                    assert(b2.contains_key(s.0[j - 1].0.id()));
                }
            }
            assert(r.2 == s.2);
            assert forall|x: JobId| #[trigger] r.2.contains_key(x) implies b.contains_key(x) && r.2[x]
                == b[x] by {
                assert(b2.contains_key(x));
                assert(b2[x] == b[x]);
            }
        } else {
            lemma_walk_ids(q.drop_last(), b, now);
            assert(r == walk_spec(q.drop_last(), b, now));
        }
    }
}

/// Each job that walking spokes hands out has its body in one of them.
proof fn lemma_walk_spokes_bodies(s: Seq<Spoke>, now: u64, x: int)
    requires
        0 <= x < walk_spokes_spec(s, now).len(),
    ensures
        exists|si: int|
            0 <= si < s.len() && (#[trigger] s[si]).bodies().contains_key(
                walk_spokes_spec(s, now)[x].0.id(),
            ),
    decreases s.len(),
{
    let s0 = s[0];
    lemma_walk_ids(s0.queue(), s0.bodies(), now);
    let a = walk_spec(s0.queue(), s0.bodies(), now).0;
    let rest = s.drop_first();
    if x < a.len() {
        assert(walk_spokes_spec(s, now)[x] == a[x]);
        assert(s[0].bodies().contains_key(a[x].0.id()));
    } else {
        assert(walk_spokes_spec(s, now)[x] == walk_spokes_spec(rest, now)[x - a.len()]);
        lemma_walk_spokes_bodies(rest, now, x - a.len());
        let si = choose|si: int|
            0 <= si < rest.len() && (#[trigger] rest[si]).bodies().contains_key(
                walk_spokes_spec(rest, now)[x - a.len()].0.id(),
            );
        assert(rest[si] == s[si + 1]);
    }
}

/// A job whose identity is new to the hub, routed while already due, is
/// handed out by a drain at any instant from its trigger time on exactly
/// once, with the trigger time and body it was routed with.
pub proof fn lemma_past_round_trip_exact(
    h0: Hub,
    h1: Hub,
    h2: Hub,
    job: Job,
    now: u64,
    later: u64,
    out: Seq<Job>,
)
    requires
        h0.wf(),
        h1.wf(),
        !queued(h0.past().queue(), job.id()),
        owned_by_none(h0.spokes(), job.id()),
        Hub::added(h0, h1, job, now),
        job.trigger() < now,
        job.trigger() <= later,
        Hub::drained(h1, h2, later, out),
    ensures
        exists|i: int|
            0 <= i < out.len() && (#[trigger] out[i]).metadata() == job.metadata() && out[i].body()
                == job.body() && forall|j: int|
                0 <= j < out.len() && (#[trigger] out[j]).id() == job.id() ==> j == i,
{
    let id = job.id();
    let p = h1.past();
    let q0 = h0.past().queue();
    let k = choose|k: int|
        0 <= k <= q0.len() && p.queue() == q0.insert(k, job.metadata());
    assert(p.queue()[k] == job.metadata());
    assert forall|kk: int| 0 <= kk < p.queue().len() && #[trigger] p.queue()[kk].id() == id implies kk
        == k by {
        if kk < k {
            assert(p.queue()[kk] == q0[kk]);
        } else if kk > k {
            assert(p.queue()[kk] == q0[kk - 1]);
        }
    }
    lemma_walk_hands_out(p.queue(), p.bodies(), later, id, k);
    lemma_walk_spec(p.queue(), p.bodies(), later);
    lemma_walk_ids(p.queue(), p.bodies(), later);
    let a = walk_spec(p.queue(), p.bodies(), later).0;
    let bs = walk_spokes_spec(h1.spokes(), later);
    let i = choose|i: int| 0 <= i < a.len() && (#[trigger] a[i]).0.id() == id;
    assert(p.queue().contains(a[i].0));
    let kk = choose|kk: int| 0 <= kk < p.queue().len() && p.queue()[kk] == a[i].0;
    assert(a[i].0 == job.metadata());
    assert(a[i].1 == job.body());
    let po = parts(out);
    assert(po == a + bs);
    assert(po.len() == out.len());
    assert forall|x: int| 0 <= x < out.len() implies #[trigger] po[x] == (
        out[x].metadata(),
        out[x].body(),
    ) by {}
    assert(po[i] == a[i]);
    assert forall|j: int| 0 <= j < out.len() && (#[trigger] out[j]).id() == id implies j == i by {
        if j < a.len() {
            assert(po[j] == a[j]);
            if j != i {
                if j < i {
                    assert(a[j].0.id() != a[i].0.id());
                } else {
                    assert(a[i].0.id() != a[j].0.id());
                }
            }
        } else {
            assert(po[j] == bs[j - a.len()]);
            lemma_walk_spokes_bodies(h1.spokes(), later, j - a.len());
            let si = choose|si: int|
                0 <= si < h1.spokes().len() && (#[trigger] h1.spokes()[si]).bodies().contains_key(
                    bs[j - a.len()].0.id(),
                );
            assert(h1.spokes()[si] == h0.spokes()[si]);
        }
    }
}

/// A job that was cancelled, and that only one spoke held, is not handed
/// out by a later drain, and no spoke holds it afterwards.
pub proof fn lemma_cancelled_never_drained(
    h0: Hub,
    h1: Hub,
    h2: Hub,
    id: JobId,
    now: u64,
    out: Seq<Job>,
)
    requires
        h0.wf(),
        single_owner(h0, id),
        Hub::cancelled(h0, h1, id, true),
        Hub::drained(h1, h2, now, out),
    ensures
        forall|i: int| 0 <= i < out.len() ==> (#[trigger] out[i]).id() != id,
        h2.owner(id, None),
{
    assert(!h1.past().bodies().contains_key(id));
    assert(owned_by_none(h1.spokes(), id)) by {
        if !h0.past().bodies().contains_key(id) {
            let i = choose|i: int|
                #[trigger] first_owner(h0.spokes(), id, i) && h1.spokes() == h0.spokes().update(
                    i,
                    h1.spokes()[i],
                ) && body_removed(h0.spokes()[i], h1.spokes()[i], id);
            assert forall|j: int| 0 <= j < h1.spokes().len() implies !(
            #[trigger] h1.spokes()[j].bodies().contains_key(id)) by {
                if j != i {
                    assert(h1.spokes()[j] == h0.spokes()[j]);
                    if h0.spokes()[j].bodies().contains_key(id) {
                        assert(h0.spokes()[i].bodies().contains_key(id));
                    }
                }
            }
        }
    }
    let p = h1.past();
    lemma_walk_ids(p.queue(), p.bodies(), now);
    let a = walk_spec(p.queue(), p.bodies(), now).0;
    let bs = walk_spokes_spec(h1.spokes(), now);
    let po = parts(out);
    assert(po == a + bs);
    assert(po.len() == out.len());
    assert forall|i: int| 0 <= i < out.len() implies (#[trigger] out[i]).id() != id by {
        assert(po[i] == (out[i].metadata(), out[i].body()));
        if i < a.len() {
            assert(po[i] == a[i]);
        } else {
            assert(po[i] == bs[i - a.len()]);
            lemma_walk_spokes_bodies(h1.spokes(), now, i - a.len());
            let si = choose|si: int|
                0 <= si < h1.spokes().len() && (#[trigger] h1.spokes()[si]).bodies().contains_key(
                    bs[i - a.len()].0.id(),
                );
        }
    }
    let t = choose|t: Seq<Spoke>|
        #[trigger] walked_all(h1.spokes(), t, now) && h2.spokes() == pruned(t, now);
    lemma_pruned(t, now);
    assert forall|j: int| 0 <= j < h2.spokes().len() implies !(
    #[trigger] h2.spokes()[j].bodies().contains_key(id)) by {
        let x = h2.spokes()[j];
        assert(t.contains(x));
        let k = choose|k: int| 0 <= k < t.len() && t[k] == x;
        let before = h1.spokes()[k];
        assert(walked(before, t[k], now));
        lemma_walk_ids(before.queue(), before.bodies(), now);
    }
}

/// A drain at `now` after every regular spoke is over leaves no regular
/// spoke: each is walked empty and then pruned.
pub proof fn lemma_drain_clears_over_spokes(h0: Hub, h1: Hub, now: u64, out: Seq<Job>)
    requires
        h0.wf(),
        Hub::drained(h0, h1, now, out),
        forall|i: int| 0 <= i < h0.spokes().len() ==> #[trigger] h0.spokes()[i].bounds().end() < now,
    ensures
        h1.spokes().len() == 0,
{
    let t = choose|t: Seq<Spoke>|
        #[trigger] walked_all(h0.spokes(), t, now) && h1.spokes() == pruned(t, now);
    assert forall|k: int| 0 <= k < t.len() implies prunable(#[trigger] t[k], now) by {
        let before = h0.spokes()[k];
        assert(regular_spoke(before, h0.duration()));
        assert(before.bounds().end() < now);
        assert(walked(before, t[k], now));
        lemma_walk_spec(before.queue(), before.bodies(), now);
        let after = t[k];
        assert(after.queue().len() == 0) by {
            if after.queue().len() > 0 {
                assert(after.bounds().covers(after.queue()[0].trigger()));
            }
        }
        assert(after.bodies().dom() =~= Set::<JobId>::empty()) by {
            assert forall|x: JobId| !after.bodies().dom().contains(x) by {
                if after.bodies().contains_key(x) {
                    assert(queued(after.queue(), x));
                }
            }
        }
    }
    lemma_pruned(t, now);
    if h1.spokes().len() > 0 {
        assert(t.contains(h1.spokes()[0]));
        assert(!prunable(h1.spokes()[0], now));
    }
}

} // verus!
