//! The notification differ.
//!
//! Compares the branches currently accepted for a change against the set
//! already reported to one subscriber, and derives the delta to notify
//! together with the updated stored state.

use vstd::prelude::*;

use crate::names::clone_names;
use crate::names::contains_name;
use crate::names::lemma_push_to_set;
use crate::names::views;

verus! {

/// The delta among the first `k` accepted names: those not yet notified,
/// in accepted order.
pub open spec fn diff_prefix(now: Seq<String>, notified: Seq<Seq<char>>, k: int) -> Seq<Seq<char>>
    decreases k,
{
    if k <= 0 {
        Seq::empty()
    } else {
        diff_prefix(now, notified, k - 1) + if notified.contains(now[k - 1]@) {
            Seq::empty()
        } else {
            seq![now[k - 1]@]
        }
    }
}

/// The notification delta: the accepted branches not yet notified, in
/// accepted order.
pub open spec fn diff_spec(now: Seq<String>, notified: Seq<Seq<char>>) -> Seq<Seq<char>> {
    diff_prefix(now, notified, now.len() as int)
}

/// The set difference acceptedNow − previouslyNotified, in accepted order.
pub fn diff(accepted_now: &Vec<String>, previously_notified: &Vec<String>) -> (to_notify: Vec<
    String,
>)
    ensures
        views(to_notify@) == diff_spec(accepted_now@, views(previously_notified@)),
{
    let ghost notified = views(previously_notified@);
    let mut to_notify: Vec<String> = Vec::new();
    let n = accepted_now.len();
    let mut i: usize = 0;
    while i < n
        invariant
            i <= n,
            n == accepted_now@.len(),
            notified == views(previously_notified@),
            views(to_notify@) == diff_prefix(accepted_now@, notified, i as int),
        decreases n - i,
    {
        let present = contains_name(previously_notified, &accepted_now[i]);
        if !present {
            let ghost pre = views(to_notify@);
            to_notify.push(accepted_now[i].clone());
            proof {
                assert(views(to_notify@) =~= pre.push(accepted_now@[i as int]@));
                assert(views(to_notify@) =~= diff_prefix(accepted_now@, notified, i + 1));
            }
        } else {
            proof {
                assert(views(to_notify@) =~= diff_prefix(accepted_now@, notified, i + 1));
            }
        }
        i = i + 1;
    }
    to_notify
}

/// Outcome of one subscriber reconciliation.
pub struct Reconcile {
    /// The branches to report now, in accepted order.
    pub to_notify: Vec<String>,
    /// The stored set after a successful notification: the accepted set
    /// united with everything already notified, so no reported branch is
    /// ever dropped from the record.
    pub new_state: Vec<String>,
    /// Whether this notification is the last one for the change.
    pub is_final: bool,
}

/// The stored record after one reconciliation: the accepted branches
/// followed by every previously notified branch the accepted set no
/// longer holds. Nothing that was reported once leaves the record, even
/// when a degraded pass hands back a smaller accepted set.
pub open spec fn updated_state(now: Seq<String>, notified: Seq<String>) -> Seq<Seq<char>> {
    views(now) + diff_spec(notified, views(now))
}

/// The updated record holds exactly the union of the accepted set and the
/// previously notified set.
pub proof fn lemma_updated_state_set(now: Seq<String>, notified: Seq<String>)
    ensures
        updated_state(now, notified).to_set() == views(now).to_set().union(
            views(notified).to_set(),
        ),
{
    let a = views(now);
    let b = diff_spec(notified, views(now));
    lemma_diff_is_set_difference(notified, views(now));
    assert forall|x: Seq<char>| (a + b).to_set().contains(x) implies a.to_set().contains(x)
        || b.to_set().contains(x) by {
        let j = choose|j: int| 0 <= j < (a + b).len() && (a + b)[j] == x;
        if j < a.len() {
            assert(a[j] == x);
        } else {
            assert(b[j - a.len()] == x);
        }
    }
    assert forall|x: Seq<char>|
        a.to_set().contains(x) || b.to_set().contains(x) implies (a + b).to_set().contains(
        x,
    ) by {
        if a.to_set().contains(x) {
            let j = choose|j: int| 0 <= j < a.len() && a[j] == x;
            assert((a + b)[j] == x);
        } else {
            let j = choose|j: int| 0 <= j < b.len() && b[j] == x;
            assert((a + b)[a.len() + j] == x);
        }
    }
    assert(updated_state(now, notified).to_set() =~= a.to_set().union(views(notified).to_set()));
}

/// Reconciles one subscriber against the outcome of a tracking pass. The
/// stored set grows to the union of the accepted set and everything
/// already notified; the caller persists `new_state` only after the
/// notification succeeds, so a transport failure leaves the stored set
/// unchanged and the same delta is offered again on the next pass.
pub fn reconcile_subscriber(
    accepted_now: &Vec<String>,
    previously_notified: &Vec<String>,
    still_pending: bool,
) -> (r: Reconcile)
    ensures
        views(r.to_notify@) == diff_spec(accepted_now@, views(previously_notified@)),
        views(r.new_state@) == updated_state(accepted_now@, previously_notified@),
        views(r.new_state@).to_set() == views(accepted_now@).to_set().union(
            views(previously_notified@).to_set(),
        ),
        r.is_final == !still_pending,
{
    let mut new_state = clone_names(accepted_now);
    let mut retained = diff(previously_notified, accepted_now);
    new_state.append(&mut retained);
    proof {
        assert(views(new_state@) =~= updated_state(accepted_now@, previously_notified@));
        lemma_updated_state_set(accepted_now@, previously_notified@);
    }
    Reconcile {
        to_notify: diff(accepted_now, previously_notified),
        new_state,
        is_final: !still_pending,
    }
}

proof fn lemma_diff_prefix_excludes(now: Seq<String>, notified: Seq<Seq<char>>, k: int)
    ensures
        forall|i: int|
            0 <= i < diff_prefix(now, notified, k).len() ==> !notified.contains(
                #[trigger] diff_prefix(now, notified, k)[i],
            ),
    decreases k,
{
    if k > 0 {
        lemma_diff_prefix_excludes(now, notified, k - 1);
        let prev = diff_prefix(now, notified, k - 1);
        let cur = diff_prefix(now, notified, k);
        assert forall|i: int| 0 <= i < cur.len() implies !notified.contains(cur[i]) by {
            if i < prev.len() {
                assert(cur[i] == prev[i]);
            } else {
                assert(cur[i] == now[k - 1]@);
            }
        }
    }
}

proof fn lemma_diff_prefix_set(now: Seq<String>, notified: Seq<Seq<char>>, k: int)
    requires
        0 <= k <= now.len(),
    ensures
        diff_prefix(now, notified, k).to_set() == views(now).take(k).to_set().difference(
            notified.to_set(),
        ),
    decreases k,
{
    if k == 0 {
        assert(diff_prefix(now, notified, 0).to_set() =~= views(now).take(0).to_set().difference(
            notified.to_set(),
        ));
    } else {
        lemma_diff_prefix_set(now, notified, k - 1);
        let nm = now[k - 1]@;
        assert(views(now).take(k) =~= views(now).take(k - 1).push(nm));
        lemma_push_to_set(views(now).take(k - 1), nm);
        if notified.contains(nm) {
            assert(notified.to_set().contains(nm));
            assert(diff_prefix(now, notified, k) =~= diff_prefix(now, notified, k - 1));
            assert(diff_prefix(now, notified, k).to_set() =~= views(now).take(
                k,
            ).to_set().difference(notified.to_set()));
        } else {
            assert(!notified.to_set().contains(nm));
            assert(diff_prefix(now, notified, k) =~= diff_prefix(now, notified, k - 1).push(nm));
            lemma_push_to_set(diff_prefix(now, notified, k - 1), nm);
            assert(diff_prefix(now, notified, k).to_set() =~= views(now).take(
                k,
            ).to_set().difference(notified.to_set()));
        }
    }
}

/// The delta is exactly the set difference between the accepted set and
/// the already notified set.
pub proof fn lemma_diff_is_set_difference(now: Seq<String>, notified: Seq<Seq<char>>)
    ensures
        diff_spec(now, notified).to_set() == views(now).to_set().difference(notified.to_set()),
{
    lemma_diff_prefix_set(now, notified, now.len() as int);
    assert(views(now).take(now.len() as int) =~= views(now));
}

/// Re-running the differ when the stored set already equals the accepted
/// set yields an empty delta: a pass with nothing new tells the subscriber
/// nothing.
pub proof fn lemma_diff_idempotent(v: Seq<String>)
    ensures
        diff_spec(v, views(v)) == Seq::<Seq<char>>::empty(),
{
    assert forall|i: int| 0 <= i < v.len() implies views(v).contains(#[trigger] v[i]@) by {
        assert(views(v)[i] == v[i]@);
    }
    lemma_diff_prefix_none(v, views(v), v.len() as int);
}

proof fn lemma_diff_prefix_none(now: Seq<String>, notified: Seq<Seq<char>>, k: int)
    requires
        k <= now.len(),
        forall|i: int| 0 <= i < k ==> notified.contains(#[trigger] now[i]@),
    ensures
        diff_prefix(now, notified, k) == Seq::<Seq<char>>::empty(),
    decreases k,
{
    if k > 0 {
        lemma_diff_prefix_none(now, notified, k - 1);
        assert(diff_prefix(now, notified, k) =~= Seq::<Seq<char>>::empty());
    }
}

/// Nothing already notified is ever offered again.
pub proof fn lemma_no_renotification(now: Seq<String>, notified: Seq<Seq<char>>)
    ensures
        diff_spec(now, notified).to_set().disjoint(notified.to_set()),
{
    lemma_diff_prefix_excludes(now, notified, now.len() as int);
    let d = diff_spec(now, notified);
    assert forall|x: Seq<char>| d.to_set().contains(x) implies !notified.to_set().contains(x) by {
        let j = choose|j: int| 0 <= j < d.len() && d[j] == x;
        assert(!notified.contains(d[j]));
    }
}

/// Once a branch was notified it never leaves the stored set — the
/// updated record keeps everything already notified, whatever the current
/// accepted set holds — and it is never offered again.
pub proof fn lemma_notified_monotone(now: Seq<String>, notified: Seq<String>)
    ensures
        views(notified).to_set().subset_of(updated_state(now, notified).to_set()),
        diff_spec(now, views(notified)).to_set().disjoint(views(notified).to_set()),
{
    lemma_updated_state_set(now, notified);
    lemma_no_renotification(now, views(notified));
}

} // verus!
