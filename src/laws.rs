//! Properties of the service that hold across its operations.
use crate::leases::{
    amounts_positive, count_of, holds_peer, ids_unique, lemma_deadline,
    lemma_remove_keeps_wf, lemma_resolved, lemma_resolved_noop, lemma_sum_nonneg, settled,
    with_deadline, Peer,
};
use crate::config::Semaphores;
use crate::state::{acquired, admits, heartbeaten, released, Error, State};
use vstd::prelude::*;

verus! {

/// No semaphore is overbooked: its count never exceeds its full count.
pub proof fn lemma_count_within_max(st: State, s: Seq<char>)
    requires
        st.inv(),
        st.config().max_of(s).is_some(),
    ensures
        count_of(st.ledger(), s) <= st.config().max_of(s).unwrap(),
{
    assert(admits(st.ledger(), st.config(), s));
}

/// Activation is driven to its fixed point: no pending lease on a semaphore fits in what its
/// full count leaves above its count. Every operation, `release` and `remove_expired` among
/// them, returns a state of which this holds.
pub proof fn lemma_no_pending_fits(st: State, s: Seq<char>)
    requires
        st.inv(),
        st.config().max_of(s).is_some(),
    ensures
        settled(st.ledger(), s, st.config().max_of(s).unwrap() as int),
{
    assert(admits(st.ledger(), st.config(), s));
}

/// Peer ids are unique.
pub proof fn lemma_peer_ids_unique(st: State, i: int, j: int)
    requires
        st.inv(),
        0 <= i < j < st.ledger().len(),
    ensures
        st.ledger()[i].peer_id != st.ledger()[j].peer_id,
{
}

/// Every lease is to a configured semaphore.
pub proof fn lemma_leases_configured(st: State, i: int)
    requires
        st.inv(),
        0 <= i < st.ledger().len(),
    ensures
        st.config().max_of(st.ledger()[i].semaphore@).is_some(),
{
    assert(st.config().max_of(st.ledger()[i].semaphore@).is_some());
}

proof fn lemma_deadline_absent(l: Seq<Peer>, id: u64, v: u64)
    requires
        !holds_peer(l, id),
    ensures
        with_deadline(l, id, v) == l,
{
    assert forall|k: int| 0 <= k < l.len() implies #[trigger] with_deadline(l, id, v)[k] == l[k] by {
        assert(l[k].peer_id != id);
    }
    assert(with_deadline(l, id, v) =~= l);
}

/// A second heartbeat with the same parameters has the same outcome as the first and changes
/// nothing but the deadline of the peer's lease.
pub proof fn lemma_heartbeat_idempotent(
    cfg: Semaphores,
    l0: Seq<Peer>,
    l1: Seq<Peer>,
    l2: Seq<Peer>,
    id: u64,
    s: Seq<char>,
    amount: int,
    v1: u64,
    v2: u64,
    r1: Result<(), Error>,
    r2: Result<(), Error>,
)
    requires
        heartbeaten(cfg, l0, l1, id, s, amount, v1, r1),
        heartbeaten(cfg, l1, l2, id, s, amount, v2, r2),
    ensures
        r2 == r1,
        l2 == with_deadline(l1, id, v2),
{
    if holds_peer(l0, id) {
        lemma_deadline(l0, id, v1);
        let i = choose|i: int| 0 <= i < l0.len() && #[trigger] l0[i].peer_id == id;
        assert(l1[i].peer_id == id);
    } else if r1 is Ok {
        assert(l1[l1.len() - 1].peer_id == id);
    } else {
        lemma_deadline_absent(l1, id, v2);
    }
}

/// Releasing a peer a second time returns `false` and changes nothing.
pub proof fn lemma_release_idempotent(
    cfg: Semaphores,
    l0: Seq<Peer>,
    l1: Seq<Peer>,
    l2: Seq<Peer>,
    id: u64,
    r1: bool,
    r2: bool,
)
    requires
        ids_unique(l0),
        amounts_positive(l0),
        released(cfg, l0, l1, id, r1),
        released(cfg, l1, l2, id, r2),
    ensures
        !r2,
        l2 == l1,
{
    if holds_peer(l0, id) {
        let i = choose|i: int|
            0 <= i < l0.len() && (#[trigger] l0[i]).peer_id == id && l1 == resolved_after(cfg, l0, i);
        let mid = l0.remove(i);
        let s = l0[i].semaphore@;
        lemma_remove_keeps_wf(l0, i);
        lemma_resolved(mid, s, cfg.max_of(s).unwrap() - count_of(mid, s));
        if holds_peer(l1, id) {
            let k = choose|k: int| 0 <= k < l1.len() && #[trigger] l1[k].peer_id == id;
            assert(mid[k].peer_id == id);
        }
    }
}

/// The ledger that `released` gives when the lease at `i` leaves.
pub open spec fn resolved_after(cfg: Semaphores, l: Seq<Peer>, i: int) -> Seq<Peer> {
    crate::leases::resolved(
        l.remove(i),
        l[i].semaphore@,
        cfg.max_of(l[i].semaphore@).unwrap() - count_of(l.remove(i), l[i].semaphore@),
    )
}

/// Acquiring a lease and releasing it restores the ledger, and with it the remainder of the
/// semaphore, whether the lease was active or pending.
pub proof fn lemma_acquire_release_restores(
    st: State,
    l1: Seq<Peer>,
    l2: Seq<Peer>,
    s: Seq<char>,
    amount: int,
    valid_until: u64,
    id: u64,
    active: bool,
    r: bool,
)
    requires
        st.inv(),
        acquired(st.config(), st.ledger(), l1, s, amount, valid_until, Ok((id, active))),
        released(st.config(), l1, l2, id, r),
    ensures
        r,
        l2 == st.ledger(),
        count_of(l2, s) == count_of(st.ledger(), s),
{
    let cfg = st.config();
    let l0 = st.ledger();
    let n = l0.len();
    assert(l1[n as int].peer_id == id);
    assert(holds_peer(l1, id));
    let i = choose|i: int|
        0 <= i < l1.len() && (#[trigger] l1[i]).peer_id == id && l2 == resolved_after(cfg, l1, i);
    if i < n {
        assert(l1[i] == l0[i]);
        assert(holds_peer(l0, id));
    }
    assert(l1.remove(n as int) =~= l0);
    let m = cfg.max_of(s).unwrap();
    assert(admits(l0, cfg, s));
    lemma_resolved_noop(l0, s, m - count_of(l0, s));
}

/// A request for the full count is accepted, and is active exactly when the count is zero.
pub proof fn lemma_full_request(
    st: State,
    l1: Seq<Peer>,
    s: Seq<char>,
    valid_until: u64,
    r: Result<(u64, bool), Error>,
)
    requires
        st.inv(),
        st.config().max_of(s).is_some(),
        st.config().max_of(s).unwrap() > 0,
        acquired(
            st.config(),
            st.ledger(),
            l1,
            s,
            st.config().max_of(s).unwrap() as int,
            valid_until,
            r,
        ),
    ensures
        r is Ok,
        r.unwrap().1 <==> count_of(st.ledger(), s) == 0,
{
    lemma_sum_nonneg(st.ledger(), s, true);
}

/// A request for more than the full count is refused as forever pending, and changes nothing.
pub proof fn lemma_oversized_request(
    cfg: Semaphores,
    l0: Seq<Peer>,
    l1: Seq<Peer>,
    s: Seq<char>,
    amount: int,
    valid_until: u64,
    r: Result<(u64, bool), Error>,
)
    requires
        cfg.max_of(s).is_some(),
        amount > cfg.max_of(s).unwrap(),
        acquired(cfg, l0, l1, s, amount, valid_until, r),
    ensures
        r == Err::<(u64, bool), Error>(
            Error::ForeverPending { asked: amount as i64, max: cfg.max_of(s).unwrap() },
        ),
        l1 == l0,
{
}

} // verus!
