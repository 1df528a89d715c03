use crate::config::{lemma_entry_lookup, lemma_lookup_entry, Semaphores};
use crate::leases::{
    amounts_positive, capped, count_of, find_peer, holds_peer, ids_unique, is_lease,
    lemma_deadline, lemma_find_unique, lemma_resolved, lemma_settled_push, lemma_settled_remove,
    lemma_settled_resolved, lemma_sum_nonneg, lemma_sum_remove, lemma_unexpired, resolved,
    settled, sum_of, unexpired, with_deadline, Counts, Leases, Peer,
};
use vstd::prelude::*;

verus! {

/// Errors of the semaphore service.
#[derive(Debug, PartialEq, Eq, Structural)]
pub enum Error {
    /// The request names a semaphore that is not configured.
    UnknownSemaphore,
    /// The request names a peer the ledger holds no lease of.
    UnknownPeer,
    /// The request asks for more than the full count of the semaphore: it could never be active.
    ForeverPending { asked: i64, max: i64 },
}

impl Error {
    /// The HTTP status that reports this error: a bad request, or a conflict for a request that
    /// could never be satisfied.
    pub fn status_code(&self) -> (r: u16)
        ensures
            r == match self {
                Error::UnknownSemaphore => 400u16,
                Error::UnknownPeer => 400u16,
                Error::ForeverPending { .. } => 409u16,
            },
    {
        match self {
            Error::UnknownSemaphore => 400,
            Error::UnknownPeer => 400,
            Error::ForeverPending { .. } => 409,
        }
    }
}

/// What a caller blocking on a pending lease does next.
#[derive(Debug, PartialEq, Eq, Structural)]
pub enum WaitStep {
    /// Stop waiting and report whether the lease is active.
    Done(bool),
    /// Wait for a release for at most this many milliseconds, then check again.
    Wait(u64),
}

/// The count of `s` is within its full count, and no pending lease on `s` would fit.
pub open spec fn admits(l: Seq<Peer>, cfg: Semaphores, s: Seq<char>) -> bool {
    match cfg.max_of(s) {
        Some(m) => count_of(l, s) <= m && settled(l, s, m as int),
        None => true,
    }
}

/// The effect of `acquire` of `amount` on `s`, expiring at `valid_until`.
pub open spec fn acquired(
    cfg: Semaphores,
    before: Seq<Peer>,
    after: Seq<Peer>,
    s: Seq<char>,
    amount: int,
    valid_until: u64,
    r: Result<(u64, bool), Error>,
) -> bool {
    match cfg.max_of(s) {
        None => r == Err::<(u64, bool), Error>(Error::UnknownSemaphore) && after == before,
        Some(m) => if amount > m {
            r == Err::<(u64, bool), Error>(Error::ForeverPending { asked: amount as i64, max: m })
                && after == before
        } else {
            match r {
                Ok((id, active)) => {
                    &&& !holds_peer(before, id)
                    &&& active == (count_of(before, s) + amount <= m)
                    &&& after == before.push(after.last())
                    &&& is_lease(after.last(), id, s, amount, active, valid_until)
                },
                Err(_) => false,
            }
        },
    }
}

/// The effect of releasing peer `id`: its lease leaves and the pending leases of its semaphore
/// that now fit become active.
pub open spec fn released(
    cfg: Semaphores,
    before: Seq<Peer>,
    after: Seq<Peer>,
    id: u64,
    r: bool,
) -> bool {
    if holds_peer(before, id) {
        &&& r
        &&& exists|i: int|
            0 <= i < before.len() && (#[trigger] before[i]).peer_id == id && after == resolved(
                before.remove(i),
                before[i].semaphore@,
                cfg.max_of(before[i].semaphore@).unwrap() - count_of(
                    before.remove(i),
                    before[i].semaphore@,
                ),
            )
    } else {
        !r && after == before
    }
}

/// The effect of a heartbeat of peer `id`: its deadline moves, or, where its lease is gone, it
/// returns as a revenant that is active only if it fits.
pub open spec fn heartbeaten(
    cfg: Semaphores,
    before: Seq<Peer>,
    after: Seq<Peer>,
    id: u64,
    s: Seq<char>,
    amount: int,
    valid_until: u64,
    r: Result<(), Error>,
) -> bool {
    if holds_peer(before, id) {
        r == Ok::<(), Error>(()) && after == with_deadline(before, id, valid_until)
    } else {
        match cfg.max_of(s) {
            None => r == Err::<(), Error>(Error::UnknownSemaphore) && after == before,
            Some(m) => {
                &&& r == Ok::<(), Error>(())
                &&& after == before.push(after.last())
                &&& is_lease(
                    after.last(),
                    id,
                    s,
                    amount,
                    count_of(before, s) + amount <= m,
                    valid_until,
                )
            },
        }
    }
}

/// Litter collection: the leases expired at `now` leave, then each configured semaphore in
/// turn activates what fits.
pub open spec fn resolve_each(l: Seq<Peer>, cfg: Semaphores, names: Seq<Seq<char>>) -> Seq<Peer>
    decreases names.len(),
{
    if names.len() == 0 {
        l
    } else {
        let s = names[0];
        resolve_each(
            resolved(l, s, cfg.max_of(s).unwrap() - count_of(l, s)),
            cfg,
            names.drop_first(),
        )
    }
}

/// The names of the configured semaphores, in order of configuration.
pub open spec fn names_of(cfg: Semaphores) -> Seq<Seq<char>> {
    cfg@.map_values(|e: (String, i64)| e.0@)
}

/// What to do next while blocking on a lease: done once it is active or once `timeout` has
/// elapsed, otherwise wait for the time that is left.
pub fn wait_step(active: bool, elapsed: u64, timeout: u64) -> (r: WaitStep)
    ensures
        active ==> r == WaitStep::Done(true),
        !active && elapsed >= timeout ==> r == WaitStep::Done(false),
        !active && elapsed < timeout ==> r == WaitStep::Wait((timeout - elapsed) as u64),
{
    if active {
        WaitStep::Done(true)
    } else if elapsed >= timeout {
        WaitStep::Done(false)
    } else {
        WaitStep::Wait(timeout - elapsed)
    }
}

/// State of the semaphore service: the ledger of leases and the configured semaphores.
pub struct State {
    /// Must not contain any leases to semaphores that are not configured.
    leases: Leases,
    /// All known semaphores and their full count.
    semaphores: Semaphores,
}

impl State {
    /// The leases, in order of insertion.
    pub closed spec fn ledger(&self) -> Seq<Peer> {
        self.leases@
    }

    /// The configured semaphores.
    pub closed spec fn config(&self) -> Semaphores {
        self.semaphores
    }

    /// Peer ids are unique, amounts positive, every lease is to a configured semaphore, and no
    /// semaphore is overbooked nor has a pending lease that would fit.
    pub open spec fn inv(&self) -> bool {
        &&& ids_unique(self.ledger())
        &&& amounts_positive(self.ledger())
        &&& self.config().wf()
        &&& forall|i: int|
            0 <= i < self.ledger().len() ==> self.config().max_of(
                (#[trigger] self.ledger()[i]).semaphore@,
            ).is_some()
        &&& forall|s: Seq<char>| #[trigger] admits(self.ledger(), self.config(), s)
    }

    /// Creates the state with an empty ledger.
    pub fn new(semaphores: Semaphores) -> (r: State)
        requires
            semaphores.wf(),
        ensures
            r.inv(),
            r.ledger() == Seq::<Peer>::empty(),
            r.config() == semaphores,
    {
        let r = State { leases: Leases::new(), semaphores };
        proof {
            assert forall|s: Seq<char>| #[trigger] admits(r.ledger(), r.config(), s) by {
                if r.config().max_of(s).is_some() {
                    r.config().lemma_max_nonneg(s);
                }
            }
        }
        r
    }

    /// Acquires a lease of `amount` to the semaphore, active if it fits and pending otherwise,
    /// expiring `expires_in` milliseconds after `now`.
    pub fn acquire(&mut self, semaphore: &str, amount: u32, expires_in: u64, now: u64) -> (r:
        Result<(u64, bool), Error>)
        requires
            old(self).inv(),
            amount > 0,
            now + expires_in <= u64::MAX,
        ensures
            final(self).inv(),
            final(self).config() == old(self).config(),
            acquired(
                old(self).config(),
                old(self).ledger(),
                final(self).ledger(),
                semaphore@,
                amount as int,
                (now + expires_in) as u64,
                r,
            ),
    {
        match self.semaphores.get(semaphore) {
            Some(max) => {
                if max < amount as i64 {
                    return Err(Error::ForeverPending { asked: amount as i64, max });
                }
                let valid_until = now + expires_in;
                let ghost before = self.leases@;
                let (active, peer_id) = self.leases.add(semaphore, amount, max, valid_until);
                proof {
                    self.lemma_push_keeps_inv(before, semaphore@, max);
                }
                Ok((peer_id, active))
            },
            None => Err(Error::UnknownSemaphore),
        }
    }

    /// After a lease on `s` was pushed that is active only if it fits, the invariant still holds.
    proof fn lemma_push_keeps_inv(&self, before: Seq<Peer>, s: Seq<char>, max: i64)
        requires
            self.config().wf(),
            self.config().max_of(s) == Some(max),
            ids_unique(self.ledger()),
            amounts_positive(self.ledger()),
            self.ledger().len() == before.len() + 1,
            self.ledger() == before.push(self.ledger().last()),
            self.ledger().last().semaphore@ == s,
            self.ledger().last().active ==> count_of(before, s) + self.ledger().last().amount
                <= max,
            !self.ledger().last().active ==> count_of(before, s) + self.ledger().last().amount
                > max,
            forall|i: int|
                0 <= i < before.len() ==> self.config().max_of(
                    (#[trigger] before[i]).semaphore@,
                ).is_some(),
            forall|t: Seq<char>| #[trigger] admits(before, self.config(), t),
        ensures
            self.inv(),
    {
        let l = self.ledger();
        let p = l.last();
        assert forall|i: int| 0 <= i < l.len() implies self.config().max_of(
            (#[trigger] l[i]).semaphore@,
        ).is_some() by {
            if i < before.len() {
                assert(l[i] == before[i]);
            }
        }
        assert forall|t: Seq<char>| #[trigger] admits(l, self.config(), t) by {
            assert(admits(before, self.config(), t));
            if let Some(m) = self.config().max_of(t) {
                lemma_settled_push(before, p, t, m as int);
            }
        }
    }

    /// Blocks on a lease, one step: moves the deadline of the peer's lease (or brings it back as
    /// a revenant, as a heartbeat does) and reports whether it is active. The caller waits for
    /// releases and asks `is_active` again until `wait_step` says it is done.
    pub fn block_until_acquired(
        &mut self,
        peer_id: u64,
        expires_in: u64,
        semaphore: &str,
        amount: u32,
        now: u64,
    ) -> (r: Result<bool, Error>)
        requires
            old(self).inv(),
            amount > 0,
            now + expires_in <= u64::MAX,
        ensures
            final(self).inv(),
            final(self).config() == old(self).config(),
            heartbeaten(
                old(self).config(),
                old(self).ledger(),
                final(self).ledger(),
                peer_id,
                semaphore@,
                amount as int,
                (now + expires_in) as u64,
                match r {
                    Ok(_) => Ok::<(), Error>(()),
                    Err(e) => Err(e),
                },
            ),
            r is Ok ==> r == Ok::<bool, Error>(find_peer(final(self).ledger(), peer_id).unwrap().active),
    {
        let h = self.heartbeat_for_active_peer(peer_id, semaphore, amount, expires_in, now);
        match h {
            Ok(()) => match self.leases.has_pending(peer_id) {
                Some(active) => Ok(active),
                None => Err(Error::UnknownPeer),
            },
            Err(e) => Err(e),
        }
    }

    /// Whether the peer's lease is active; `UnknownPeer` if the ledger holds none.
    pub fn is_active(&self, peer_id: u64) -> (r: Result<bool, Error>)
        ensures
            match find_peer(self.ledger(), peer_id) {
                Some(p) => r == Ok::<bool, Error>(p.active),
                None => r == Err::<bool, Error>(Error::UnknownPeer),
            },
    {
        match self.leases.has_pending(peer_id) {
            Some(active) => Ok(active),
            None => Err(Error::UnknownPeer),
        }
    }

    /// Keeps the peer's lease from expiring for `expires_in` milliseconds after `now`. A lease
    /// that was litter-collected comes back as a revenant, active only if it fits.
    pub fn heartbeat_for_active_peer(
        &mut self,
        peer_id: u64,
        semaphore: &str,
        amount: u32,
        expires_in: u64,
        now: u64,
    ) -> (r: Result<(), Error>)
        requires
            old(self).inv(),
            amount > 0,
            now + expires_in <= u64::MAX,
        ensures
            final(self).inv(),
            final(self).config() == old(self).config(),
            heartbeaten(
                old(self).config(),
                old(self).ledger(),
                final(self).ledger(),
                peer_id,
                semaphore@,
                amount as int,
                (now + expires_in) as u64,
                r,
            ),
            r is Ok ==> find_peer(final(self).ledger(), peer_id).is_some(),
    {
        let valid_until = now + expires_in;
        let ghost before = self.leases@;
        if self.leases.update_valid_until(peer_id, valid_until) {
            proof {
                let l = self.ledger();
                lemma_deadline(before, peer_id, valid_until);
                assert forall|i: int| 0 <= i < l.len() implies self.config().max_of(
                    (#[trigger] l[i]).semaphore@,
                ).is_some() by {
                    assert(l[i].semaphore == before[i].semaphore);
                }
                assert forall|t: Seq<char>| #[trigger] admits(l, self.config(), t) by {
                    assert(admits(before, self.config(), t));
                    if let Some(m) = self.config().max_of(t) {
                        assert forall|k: int|
                            0 <= k < l.len() && !(#[trigger] l[k]).active && l[k].semaphore@
                                == t implies l[k].amount > m - count_of(l, t) by {
                            assert(before[k].active == l[k].active);
                        }
                    }
                }
                let i = choose|i: int| 0 <= i < before.len() && #[trigger] before[i].peer_id == peer_id;
                assert(l[i].peer_id == peer_id);
                lemma_find_unique(l, i);
            }
            return Ok(());
        }
        match self.semaphores.get(semaphore) {
            Some(max) => {
                proof {
                    assert(self.leases@ == before);
                    self.config().lemma_max_nonneg(semaphore@);
                }
                self.leases.revenant(peer_id, semaphore, amount, false, max, valid_until);
                proof {
                    self.lemma_push_keeps_inv(before, semaphore@, max);
                    let l = self.ledger();
                    lemma_find_unique(l, l.len() - 1);
                }
                Ok(())
            },
            None => Err(Error::UnknownSemaphore),
        }
    }

    /// Removes the peer's lease and activates the pending leases of its semaphore that now fit.
    /// Returns `false` if the ledger held no lease of the peer (e.g. it was litter-collected).
    pub fn release(&mut self, peer_id: u64) -> (r: bool)
        requires
            old(self).inv(),
        ensures
            final(self).inv(),
            final(self).config() == old(self).config(),
            released(old(self).config(), old(self).ledger(), final(self).ledger(), peer_id, r),
            !holds_peer(final(self).ledger(), peer_id),
    {
        let ghost before = self.leases@;
        let ghost cfg = self.semaphores;
        match self.leases.remove(peer_id) {
            Some(semaphore) => {
                let ghost i = choose|i: int|
                    0 <= i < before.len() && before[i].peer_id == peer_id
                        && find_peer(before, peer_id) == Some(before[i])
                        && semaphore@ == before[i].semaphore@ && self.leases@ == before.remove(i);
                let ghost mid = self.leases@;
                let ghost s = semaphore@;
                proof {
                    assert(cfg.max_of(before[i].semaphore@).is_some());
                    lemma_sum_remove(before, i, s, true);
                    assert(before[i].amount > 0);
                    assert(admits(before, cfg, s));
                    assert forall|k: int| 0 <= k < mid.len() implies cfg.max_of(
                        (#[trigger] mid[k]).semaphore@,
                    ).is_some() by {
                        let k2 = if k < i { k } else { k + 1 };
                        assert(mid[k] == before[k2]);
                    }
                }
                match self.semaphores.get(semaphore.as_str()) {
                    Some(full_count) => {
                        proof {
                            cfg.lemma_max_nonneg(s);
                        }
                        self.leases.resolve_pending(semaphore.as_str(), full_count);
                        proof {
                            let l = self.leases@;
                            let rem = full_count - count_of(mid, s);
                            lemma_resolved(mid, s, rem);
                            assert forall|k: int| 0 <= k < l.len() implies cfg.max_of(
                                (#[trigger] l[k]).semaphore@,
                            ).is_some() by {
                                assert(l[k].semaphore == mid[k].semaphore);
                            }
                            assert forall|t: Seq<char>| #[trigger] admits(l, cfg, t) by {
                                assert(admits(before, cfg, t));
                                if t != s {
                                    if let Some(m) = cfg.max_of(t) {
                                        lemma_settled_remove(before, i, t, m as int);
                                        lemma_settled_resolved(mid, s, rem, t, m as int);
                                    }
                                }
                            }
                        }
                    },
                    None => {},
                }
                true
            },
            None => false,
        }
    }

    /// Removes the leases whose deadline is not after `now`, then lets each configured semaphore
    /// activate the pending leases that now fit. Returns the number of leases removed.
    pub fn remove_expired(&mut self, now: u64) -> (r: usize)
        requires
            old(self).inv(),
        ensures
            final(self).inv(),
            final(self).config() == old(self).config(),
            r == old(self).ledger().len() - unexpired(old(self).ledger(), now).len(),
            final(self).ledger() == resolve_each(
                unexpired(old(self).ledger(), now),
                old(self).config(),
                names_of(old(self).config()),
            ),
    {
        let ghost before = self.leases@;
        let ghost cfg = self.semaphores;
        let removed = self.leases.remove_expired(now);
        let ghost swept = self.leases@;
        proof {
            lemma_unexpired(before, now);
            assert forall|k: int| 0 <= k < swept.len() implies cfg.max_of(
                (#[trigger] swept[k]).semaphore@,
            ).is_some() by {
                let j = choose|j: int| 0 <= j < before.len() && #[trigger] swept[k] == before[j];
                assert(cfg.max_of(before[j].semaphore@).is_some());
            }
            assert forall|t: Seq<char>| #[trigger] cfg.max_of(t).is_some() implies count_of(
                swept,
                t,
            ) <= cfg.max_of(t).unwrap() by {
                assert(admits(before, cfg, t));
            }
            assert(names_of(cfg).subrange(0, names_of(cfg).len() as int) =~= names_of(cfg));
        }
        let names = self.semaphores.names();
        let ghost all = names_of(cfg);
        let mut j: usize = 0;
        while j < names.len()
            invariant
                self.semaphores == cfg,
                cfg.wf(),
                all == names_of(cfg),
                names@.len() == all.len(),
                forall|k: int| 0 <= k < names@.len() ==> (#[trigger] names@[k])@ == all[k],
                j <= names@.len(),
                ids_unique(self.leases@),
                amounts_positive(self.leases@),
                forall|k: int| 0 <= k < self.leases@.len() ==> cfg.max_of(
                    (#[trigger] self.leases@[k]).semaphore@,
                ).is_some(),
                forall|t: Seq<char>| #[trigger] cfg.max_of(t).is_some() ==> count_of(
                    self.leases@,
                    t,
                ) <= cfg.max_of(t).unwrap(),
                forall|k: int|
                    0 <= k < j ==> settled(
                        self.leases@,
                        #[trigger] all[k],
                        cfg.max_of(all[k]).unwrap() as int,
                    ),
                resolve_each(swept, cfg, all) == resolve_each(
                    self.leases@,
                    cfg,
                    all.subrange(j as int, all.len() as int),
                ),
            decreases names.len() - j,
        {
            let ghost cur = self.leases@;
            let ghost s = all[j as int];
            proof {
                assert(cfg@[j as int].0@ == s);
                lemma_entry_lookup(cfg@, j as int);
                let rest = all.subrange(j as int, all.len() as int);
                assert(rest[0] == s);
                assert(rest.drop_first() =~= all.subrange(j + 1, all.len() as int));
            }
            let name = &names[j];
            match self.semaphores.get(name.as_str()) {
                Some(full_count) => {
                    proof {
                        cfg.lemma_max_nonneg(s);
                    }
                    self.leases.resolve_pending(name.as_str(), full_count);
                    proof {
                        let l = self.leases@;
                        let rem = full_count - count_of(cur, s);
                        lemma_resolved(cur, s, rem);
                        assert forall|k: int| 0 <= k < l.len() implies cfg.max_of(
                            (#[trigger] l[k]).semaphore@,
                        ).is_some() by {
                            assert(l[k].semaphore == cur[k].semaphore);
                        }
                        assert forall|t: Seq<char>| #[trigger] cfg.max_of(t).is_some() implies count_of(
                            l,
                            t,
                        ) <= cfg.max_of(t).unwrap() by {}
                        assert forall|k: int| 0 <= k < j + 1 implies settled(
                            l,
                            #[trigger] all[k],
                            cfg.max_of(all[k]).unwrap() as int,
                        ) by {
                            if all[k] != s {
                                lemma_settled_resolved(cur, s, rem, all[k], cfg.max_of(all[k]).unwrap() as int);
                            }
                        }
                    }
                },
                None => {},
            }
            j += 1;
        }
        proof {
            let l = self.leases@;
            assert(all.subrange(j as int, all.len() as int) =~= Seq::<Seq<char>>::empty());
            assert forall|t: Seq<char>| #[trigger] admits(l, cfg, t) by {
                if cfg.max_of(t).is_some() {
                    lemma_lookup_entry(cfg@, t);
                    let i = choose|i: int|
                        0 <= i < cfg@.len() && (#[trigger] cfg@[i]).0@ == t && cfg.max_of(t) == Some(cfg@[i].1);
                    assert(all[i] == t);
                }
            }
        }
        removed
    }

    /// Adds to the counts of each semaphore named in `counts` its active and its pending amount,
    /// each sum capped at the largest `i64`.
    pub fn snapshot(&self, counts: &mut Vec<(String, Counts)>)
        requires
            self.inv(),
        ensures
            final(counts)@.len() == old(counts)@.len(),
            forall|j: int|
                0 <= j < final(counts)@.len() ==> {
                    let e = #[trigger] final(counts)@[j];
                    &&& e.0@ == old(counts)@[j].0@
                    &&& e.1.active == capped(
                        old(counts)@[j].1.active + sum_of(self.ledger(), e.0@, true),
                    )
                    &&& e.1.pending == capped(
                        old(counts)@[j].1.pending + sum_of(self.ledger(), e.0@, false),
                    )
                },
    {
        self.leases.fill_counts(counts);
    }

    /// The configured semaphores.
    pub fn semaphores(&self) -> (r: &Semaphores)
        ensures
            *r == self.config(),
    {
        &self.semaphores
    }

    /// The full count of the semaphore minus its count.
    pub fn remainder(&self, semaphore: &str) -> (r: Result<i64, Error>)
        requires
            self.inv(),
        ensures
            match self.config().max_of(semaphore@) {
                Some(m) => r == Ok::<i64, Error>((m - count_of(self.ledger(), semaphore@)) as i64),
                None => r == Err::<i64, Error>(Error::UnknownSemaphore),
            },
    {
        match self.semaphores.get(semaphore) {
            Some(full_count) => {
                proof {
                    assert(admits(self.ledger(), self.config(), semaphore@));
                    lemma_sum_nonneg(self.leases@, semaphore@, true);
                }
                let count = self.leases.count(semaphore);
                Ok(full_count - count)
            },
            None => Err(Error::UnknownSemaphore),
        }
    }
}

} // verus!
