use vstd::prelude::*;
use vstd::set_lib::{lemma_int_range, lemma_len_subset, set_int_range};

verus! {

/// A peer holds a lease to one semaphore, which is either active or pending, and expires at
/// `valid_until` (milliseconds on a monotonic clock).
pub struct Peer {
    /// Identifies the peer in the ledger.
    pub peer_id: u64,
    /// Name of the resource the semaphore protects.
    pub semaphore: String,
    /// `true` if the lease decrements the semaphore count, `false` if it is pending.
    pub active: bool,
    /// The semaphore count is decreased by `amount` while the lease is active.
    pub amount: i64,
    /// Instant upon which the lease may be removed by litter collection.
    pub valid_until: u64,
}

/// Accumulated counts of an individual semaphore.
pub struct Counts {
    /// Accumulated amount of the active leases (the count of the semaphore).
    pub active: i64,
    /// Accumulated amount of the pending leases.
    pub pending: i64,
}

/// The amount `p` contributes to the sum over leases on `s` whose activity is `active`.
pub open spec fn share(p: Peer, s: Seq<char>, active: bool) -> int {
    if p.active == active && p.semaphore@ == s {
        p.amount as int
    } else {
        0
    }
}

/// Sum of the amounts of the leases on `s` whose activity is `active`.
pub open spec fn sum_of(l: Seq<Peer>, s: Seq<char>, active: bool) -> int
    decreases l.len(),
{
    if l.len() == 0 {
        0
    } else {
        share(l[0], s, active) + sum_of(l.drop_first(), s, active)
    }
}

/// The count of semaphore `s`: the sum of the amounts of its active leases.
pub open spec fn count_of(l: Seq<Peer>, s: Seq<char>) -> int {
    sum_of(l, s, true)
}

/// A machine integer holding `v`, or the largest `i64` where `v` does not fit.
pub open spec fn capped(v: int) -> int {
    if v <= i64::MAX {
        v
    } else {
        i64::MAX as int
    }
}

/// The lease of peer `id`, if the ledger holds one.
pub open spec fn find_peer(l: Seq<Peer>, id: u64) -> Option<Peer>
    decreases l.len(),
{
    if l.len() == 0 {
        None
    } else if l[0].peer_id == id {
        Some(l[0])
    } else {
        find_peer(l.drop_first(), id)
    }
}

/// The ledger holds a lease of peer `id`.
pub open spec fn holds_peer(l: Seq<Peer>, id: u64) -> bool {
    exists|i: int| 0 <= i < l.len() && #[trigger] l[i].peer_id == id
}

/// No two leases share a peer id.
pub open spec fn ids_unique(l: Seq<Peer>) -> bool {
    forall|i: int, j: int| 0 <= i < j < l.len() ==> l[i].peer_id != l[j].peer_id
}

/// Every lease asks for a positive amount.
pub open spec fn amounts_positive(l: Seq<Peer>) -> bool {
    forall|i: int| 0 <= i < l.len() ==> #[trigger] l[i].amount > 0
}

/// The ledger after the deadline of peer `id` moved to `valid_until`.
pub open spec fn with_deadline(l: Seq<Peer>, id: u64, valid_until: u64) -> Seq<Peer> {
    l.map_values(|p: Peer| if p.peer_id == id { Peer { valid_until, ..p } } else { p })
}

pub proof fn lemma_sum_push(l: Seq<Peer>, p: Peer, s: Seq<char>, active: bool)
    ensures
        sum_of(l.push(p), s, active) == sum_of(l, s, active) + share(p, s, active),
    decreases l.len(),
{
    if l.len() > 0 {
        assert(l.push(p)[0] == l[0]);
        assert(l.push(p).drop_first() =~= l.drop_first().push(p));
        lemma_sum_push(l.drop_first(), p, s, active);
    } else {
        assert(l.push(p)[0] == p);
        assert(l.push(p).drop_first() =~= Seq::<Peer>::empty());
        assert(sum_of(Seq::<Peer>::empty(), s, active) == 0);
    }
}

pub proof fn lemma_sum_remove(l: Seq<Peer>, i: int, s: Seq<char>, active: bool)
    requires
        0 <= i < l.len(),
    ensures
        sum_of(l.remove(i), s, active) == sum_of(l, s, active) - share(l[i], s, active),
    decreases l.len(),
{
    if i == 0 {
        assert(l.remove(0) =~= l.drop_first());
    } else {
        assert(l.remove(i).drop_first() =~= l.drop_first().remove(i - 1));
        lemma_sum_remove(l.drop_first(), i - 1, s, active);
    }
}

pub proof fn lemma_sum_nonneg(l: Seq<Peer>, s: Seq<char>, active: bool)
    requires
        amounts_positive(l),
    ensures
        sum_of(l, s, active) >= 0,
    decreases l.len(),
{
    if l.len() > 0 {
        assert(l[0].amount > 0);
        lemma_sum_nonneg(l.drop_first(), s, active);
    }
}

pub proof fn lemma_find_at(l: Seq<Peer>, id: u64, i: int)
    requires
        0 <= i < l.len(),
        l[i].peer_id == id,
        forall|j: int| 0 <= j < i ==> l[j].peer_id != id,
    ensures
        find_peer(l, id) == Some(l[i]),
    decreases l.len(),
{
    if i > 0 {
        lemma_find_at(l.drop_first(), id, i - 1);
    }
}

pub proof fn lemma_find_none(l: Seq<Peer>, id: u64)
    requires
        !holds_peer(l, id),
    ensures
        find_peer(l, id) == None::<Peer>,
    decreases l.len(),
{
    if l.len() > 0 {
        assert(l[0].peer_id != id);
        assert forall|i: int| 0 <= i < l.len() - 1 implies #[trigger] l.drop_first()[i].peer_id
            != id by {
            assert(l[i + 1].peer_id != id);
        }
        lemma_find_none(l.drop_first(), id);
    }
}

/// Where the ledger's ids are unique, the lease of a peer is the one at its position.
pub proof fn lemma_find_unique(l: Seq<Peer>, i: int)
    requires
        ids_unique(l),
        0 <= i < l.len(),
    ensures
        find_peer(l, l[i].peer_id) == Some(l[i]),
{
    lemma_find_at(l, l[i].peer_id, i);
}


/// `p` is the lease of peer `id` on `s`, for `amount`, with the given activity and deadline.
pub open spec fn is_lease(
    p: Peer,
    id: u64,
    s: Seq<char>,
    amount: int,
    active: bool,
    valid_until: u64,
) -> bool {
    &&& p.peer_id == id
    &&& p.semaphore@ == s
    &&& p.amount == amount
    &&& p.active == active
    &&& p.valid_until == valid_until
}

pub proof fn lemma_remove_keeps_wf(l: Seq<Peer>, i: int)
    requires
        ids_unique(l),
        amounts_positive(l),
        0 <= i < l.len(),
    ensures
        ids_unique(l.remove(i)),
        amounts_positive(l.remove(i)),
        !holds_peer(l.remove(i), l[i].peer_id),
{
    let r = l.remove(i);
    assert forall|a: int, b: int| 0 <= a < b < r.len() implies r[a].peer_id != r[b].peer_id by {
        let a2 = if a < i { a } else { a + 1 };
        let b2 = if b < i { b } else { b + 1 };
        assert(r[a] == l[a2] && r[b] == l[b2]);
    }
    assert forall|a: int| 0 <= a < r.len() implies #[trigger] r[a].amount > 0 by {
        let a2 = if a < i { a } else { a + 1 };
        assert(r[a] == l[a2]);
    }
    if holds_peer(r, l[i].peer_id) {
        let a = choose|a: int| 0 <= a < r.len() && #[trigger] r[a].peer_id == l[i].peer_id;
        let a2 = if a < i { a } else { a + 1 };
        assert(r[a] == l[a2]);
    }
}

/// First-fit activation: walking the ledger in order while `rem` is positive, each pending
/// lease on `s` whose amount is at most `rem` becomes active and is taken from `rem`.
pub open spec fn resolved(l: Seq<Peer>, s: Seq<char>, rem: int) -> Seq<Peer>
    decreases l.len(),
{
    if l.len() == 0 || rem <= 0 {
        l
    } else if !l[0].active && l[0].semaphore@ == s && l[0].amount <= rem {
        seq![Peer { active: true, ..l[0] }] + resolved(l.drop_first(), s, rem - l[0].amount)
    } else {
        seq![l[0]] + resolved(l.drop_first(), s, rem)
    }
}

/// What is left of `rem` once `resolved` has walked the ledger.
pub open spec fn leftover(l: Seq<Peer>, s: Seq<char>, rem: int) -> int
    decreases l.len(),
{
    if l.len() == 0 || rem <= 0 {
        rem
    } else if !l[0].active && l[0].semaphore@ == s && l[0].amount <= rem {
        leftover(l.drop_first(), s, rem - l[0].amount)
    } else {
        leftover(l.drop_first(), s, rem)
    }
}

/// No pending lease on `s` fits in what `max` leaves above the count of `s`.
pub open spec fn settled(l: Seq<Peer>, s: Seq<char>, max: int) -> bool {
    forall|i: int|
        0 <= i < l.len() && !(#[trigger] l[i]).active && l[i].semaphore@ == s ==> l[i].amount
            > max - count_of(l, s)
}

/// The leases of the ledger whose deadline lies after `now`, in order.
pub open spec fn unexpired(l: Seq<Peer>, now: u64) -> Seq<Peer>
    decreases l.len(),
{
    if l.len() == 0 {
        l
    } else if now < l.last().valid_until {
        unexpired(l.drop_last(), now).push(l.last())
    } else {
        unexpired(l.drop_last(), now)
    }
}

/// `resolved` keeps each lease but for its activity, activates only pending leases on `s`,
/// keeps the counts of other semaphores, and leaves no pending lease on `s` that fits in
/// what is left.
pub proof fn lemma_resolved(l: Seq<Peer>, s: Seq<char>, rem: int)
    requires
        amounts_positive(l),
    ensures
        resolved(l, s, rem).len() == l.len(),
        forall|k: int|
            0 <= k < l.len() ==> {
                let p = #[trigger] resolved(l, s, rem)[k];
                &&& p.peer_id == l[k].peer_id
                &&& p.semaphore == l[k].semaphore
                &&& p.amount == l[k].amount
                &&& p.valid_until == l[k].valid_until
                &&& (p.active == l[k].active || (p.active && l[k].semaphore@ == s))
            },
        count_of(resolved(l, s, rem), s) + leftover(l, s, rem) == count_of(l, s) + rem,
        leftover(l, s, rem) <= rem,
        rem >= 0 ==> leftover(l, s, rem) >= 0,
        forall|t: Seq<char>, b: bool| t != s ==> sum_of(resolved(l, s, rem), t, b) == sum_of(l, t, b),
        forall|k: int|
            0 <= k < l.len() && !(#[trigger] resolved(l, s, rem)[k]).active
                && l[k].semaphore@ == s ==> l[k].amount > leftover(l, s, rem),
    decreases l.len(),
{
    let r = resolved(l, s, rem);
    if l.len() == 0 || rem <= 0 {
        assert forall|k: int| 0 <= k < l.len() && !(#[trigger] r[k]).active
            && l[k].semaphore@ == s implies l[k].amount > leftover(l, s, rem) by {
            assert(l[k].amount > 0);
        }
    } else {
        let t = l.drop_first();
        assert(amounts_positive(t)) by {
            assert forall|i: int| 0 <= i < t.len() implies #[trigger] t[i].amount > 0 by {
                assert(l[i + 1].amount > 0);
            }
        }
        let fits = !l[0].active && l[0].semaphore@ == s && l[0].amount <= rem;
        let rem2 = if fits { rem - l[0].amount } else { rem };
        let h = if fits { Peer { active: true, ..l[0] } } else { l[0] };
        lemma_resolved(t, s, rem2);
        assert(r == seq![h] + resolved(t, s, rem2));
        assert(r[0] == h);
        assert(r.drop_first() =~= resolved(t, s, rem2));
        assert forall|k: int| 0 < k < l.len() implies #[trigger] r[k] == resolved(t, s, rem2)[k
            - 1] by {}
        assert(l[0].amount > 0);
        assert forall|u: Seq<char>, b: bool| u != s implies sum_of(r, u, b) == sum_of(l, u, b) by {
            assert(share(h, u, b) == share(l[0], u, b));
            assert(sum_of(resolved(t, s, rem2), u, b) == sum_of(t, u, b));
            assert(sum_of(r, u, b) == share(r[0], u, b) + sum_of(r.drop_first(), u, b));
        }
        assert forall|k: int|
            0 <= k < l.len() && !(#[trigger] r[k]).active && l[k].semaphore@ == s implies l[k].amount
            > leftover(l, s, rem) by {
            if k > 0 {
                assert(r[k] == resolved(t, s, rem2)[k - 1]);
                assert(l[k] == t[k - 1]);
            }
        }
    }
}

pub proof fn lemma_sum_last(l: Seq<Peer>, s: Seq<char>, active: bool)
    requires
        l.len() > 0,
    ensures
        sum_of(l, s, active) == sum_of(l.drop_last(), s, active) + share(l.last(), s, active),
{
    assert(l =~= l.drop_last().push(l.last()));
    lemma_sum_push(l.drop_last(), l.last(), s, active);
}

/// The leases that survive a sweep are leases of the ledger, so the sweep keeps the ledger
/// well formed and lowers no sum.
pub proof fn lemma_unexpired(l: Seq<Peer>, now: u64)
    requires
        ids_unique(l),
        amounts_positive(l),
    ensures
        ids_unique(unexpired(l, now)),
        amounts_positive(unexpired(l, now)),
        forall|k: int|
            0 <= k < unexpired(l, now).len() ==> exists|j: int|
                0 <= j < l.len() && #[trigger] unexpired(l, now)[k] == l[j],
        forall|s: Seq<char>, b: bool| sum_of(unexpired(l, now), s, b) <= sum_of(l, s, b),
        forall|k: int| 0 <= k < unexpired(l, now).len() ==> now < (#[trigger] unexpired(l, now)[k]).valid_until,
    decreases l.len(),
{
    if l.len() > 0 {
        let d = l.drop_last();
        let u = unexpired(d, now);
        lemma_unexpired(d, now);
        assert forall|s: Seq<char>, b: bool| sum_of(unexpired(l, now), s, b) <= sum_of(l, s, b) by {
            lemma_sum_last(l, s, b);
            if now < l.last().valid_until {
                lemma_sum_push(u, l.last(), s, b);
            }
            assert(l.last().amount > 0);
        }
        if now < l.last().valid_until {
            let r = u.push(l.last());
            assert forall|k: int| 0 <= k < r.len() implies exists|j: int|
                0 <= j < l.len() && #[trigger] r[k] == l[j] by {
                if k < u.len() {
                    let j = choose|j: int| 0 <= j < d.len() && #[trigger] u[k] == d[j];
                    assert(r[k] == l[j]);
                } else {
                    assert(r[k] == l[l.len() - 1]);
                }
            }
            assert forall|a: int, b: int| 0 <= a < b < r.len() implies r[a].peer_id
                != r[b].peer_id by {
                if b == r.len() - 1 {
                    let j = choose|j: int| 0 <= j < d.len() && #[trigger] u[a] == d[j];
                    assert(l[j] == d[j]);
                } else {
                    assert(u[a].peer_id != u[b].peer_id);
                }
            }
            assert forall|a: int| 0 <= a < r.len() implies #[trigger] r[a].amount > 0 by {
                if a < u.len() {
                    assert(u[a].amount > 0);
                }
            }
            assert forall|k: int| 0 <= k < r.len() implies now < (#[trigger] r[k]).valid_until by {
                if k < u.len() {
                    assert(now < u[k].valid_until);
                }
            }
        } else {
            assert forall|k: int| 0 <= k < u.len() implies exists|j: int|
                0 <= j < l.len() && #[trigger] u[k] == l[j] by {
                let j = choose|j: int| 0 <= j < d.len() && #[trigger] u[k] == d[j];
                assert(u[k] == l[j]);
            }
        }
    }
}

pub proof fn lemma_settled_push(l: Seq<Peer>, p: Peer, s: Seq<char>, m: int)
    requires
        settled(l, s, m),
        p.amount > 0,
        (p.semaphore@ == s && !p.active) ==> p.amount > m - count_of(l, s),
    ensures
        settled(l.push(p), s, m),
        count_of(l.push(p), s) == count_of(l, s) + share(p, s, true),
{
    lemma_sum_push(l, p, s, true);
    let q = l.push(p);
    assert forall|i: int|
        0 <= i < q.len() && !(#[trigger] q[i]).active && q[i].semaphore@ == s implies q[i].amount
        > m - count_of(q, s) by {
        if i < l.len() {
            assert(q[i] == l[i]);
        }
    }
}

pub proof fn lemma_settled_remove(l: Seq<Peer>, i: int, s: Seq<char>, m: int)
    requires
        settled(l, s, m),
        0 <= i < l.len(),
        share(l[i], s, true) == 0,
    ensures
        settled(l.remove(i), s, m),
        count_of(l.remove(i), s) == count_of(l, s),
{
    lemma_sum_remove(l, i, s, true);
    let r = l.remove(i);
    assert forall|k: int|
        0 <= k < r.len() && !(#[trigger] r[k]).active && r[k].semaphore@ == s implies r[k].amount
        > m - count_of(r, s) by {
        let k2 = if k < i { k } else { k + 1 };
        assert(r[k] == l[k2]);
    }
}

pub proof fn lemma_settled_resolved(l: Seq<Peer>, s: Seq<char>, rem: int, t: Seq<char>, m: int)
    requires
        amounts_positive(l),
        t != s,
        settled(l, t, m),
    ensures
        settled(resolved(l, s, rem), t, m),
{
    lemma_resolved(l, s, rem);
    let r = resolved(l, s, rem);
    assert forall|k: int|
        0 <= k < r.len() && !(#[trigger] r[k]).active && r[k].semaphore@ == t implies r[k].amount
        > m - count_of(r, t) by {
        assert(l[k].semaphore == r[k].semaphore);
    }
}

/// On a ledger where no pending lease on `s` fits in `rem`, `resolved` changes nothing.
pub proof fn lemma_resolved_noop(l: Seq<Peer>, s: Seq<char>, rem: int)
    requires
        forall|k: int|
            0 <= k < l.len() && !(#[trigger] l[k]).active && l[k].semaphore@ == s ==> l[k].amount
                > rem,
    ensures
        resolved(l, s, rem) == l,
    decreases l.len(),
{
    if l.len() > 0 && rem > 0 {
        let t = l.drop_first();
        assert forall|k: int|
            0 <= k < t.len() && !(#[trigger] t[k]).active && t[k].semaphore@ == s implies t[k].amount
            > rem by {
            assert(t[k] == l[k + 1]);
        }
        lemma_resolved_noop(t, s, rem);
        assert(seq![l[0]] + t =~= l);
    }
}

/// Moving a deadline keeps every other field of every lease, and so every sum.
pub proof fn lemma_deadline(l: Seq<Peer>, id: u64, v: u64)
    ensures
        with_deadline(l, id, v).len() == l.len(),
        forall|k: int|
            0 <= k < l.len() ==> {
                let p = #[trigger] with_deadline(l, id, v)[k];
                &&& p.peer_id == l[k].peer_id
                &&& p.semaphore == l[k].semaphore
                &&& p.amount == l[k].amount
                &&& p.active == l[k].active
                &&& p.valid_until == if l[k].peer_id == id { v } else { l[k].valid_until }
            },
        forall|s: Seq<char>, b: bool| sum_of(with_deadline(l, id, v), s, b) == sum_of(l, s, b),
    decreases l.len(),
{
    if l.len() > 0 {
        lemma_deadline(l.drop_first(), id, v);
        assert(with_deadline(l, id, v).drop_first() =~= with_deadline(l.drop_first(), id, v));
        assert forall|s: Seq<char>, b: bool|
            sum_of(with_deadline(l, id, v), s, b) == sum_of(l, s, b) by {
            assert(sum_of(with_deadline(l.drop_first(), id, v), s, b) == sum_of(l.drop_first(), s, b));
        }
    }
}

/// Relies on rand::random: draws a `u64`; nothing is promised of its value.
#[verifier::external_body]
fn random_peer_id() -> u64 {
    rand::random::<u64>()
}

/// Number of random draws for a fresh peer id before falling back to a search.
const PEER_ID_DRAWS: u32 = 16;

impl Peer {
    /// A copy of this lease.
    pub fn duplicate(&self) -> (r: Peer)
        ensures
            r == *self,
    {
        Peer {
            peer_id: self.peer_id,
            semaphore: self.semaphore.clone(),
            active: self.active,
            amount: self.amount,
            valid_until: self.valid_until,
        }
    }
}

/// The ledger: one lease for each peer, in order of insertion.
pub struct Leases {
    ledger: Vec<Peer>,
}

impl View for Leases {
    type V = Seq<Peer>;

    closed spec fn view(&self) -> Seq<Peer> {
        self.ledger@
    }
}

impl Leases {
    /// Peer ids are unique and every lease has a positive amount.
    pub open spec fn wf(&self) -> bool {
        &&& ids_unique(self@)
        &&& amounts_positive(self@)
    }

    pub fn new() -> (r: Leases)
        ensures
            r.wf(),
            r@ == Seq::<Peer>::empty(),
    {
        Leases { ledger: Vec::new() }
    }

    /// Number of leases in the ledger.
    pub fn len(&self) -> (r: usize)
        ensures
            r == self@.len(),
    {
        self.ledger.len()
    }

    /// Position of the lease of `peer_id`, if any.
    fn index_of(&self, peer_id: u64) -> (r: Option<usize>)
        ensures
            match r {
                Some(i) => {
                    &&& i < self@.len()
                    &&& self@[i as int].peer_id == peer_id
                    &&& find_peer(self@, peer_id) == Some(self@[i as int])
                    &&& holds_peer(self@, peer_id)
                },
                None => !holds_peer(self@, peer_id) && find_peer(self@, peer_id) == None::<Peer>,
            },
    {
        let mut i: usize = 0;
        while i < self.ledger.len()
            invariant
                i <= self.ledger@.len(),
                forall|j: int| 0 <= j < i ==> self.ledger@[j].peer_id != peer_id,
            decreases self.ledger.len() - i,
        {
            if self.ledger[i].peer_id == peer_id {
                proof {
                    lemma_find_at(self.ledger@, peer_id, i as int);
                }
                return Some(i);
            }
            i += 1;
        }
        proof {
            lemma_find_none(self.ledger@, peer_id);
        }
        None
    }

    /// Aggregated count of the active leases of the semaphore (capped at the largest `i64`).
    pub fn count(&self, semaphore: &str) -> (r: i64)
        requires
            self.wf(),
        ensures
            r == capped(count_of(self@, semaphore@)),
    {
        let name = semaphore.to_owned();
        let mut sum: i64 = 0;
        let mut i: usize = 0;
        while i < self.ledger.len()
            invariant
                i <= self.ledger@.len(),
                amounts_positive(self.ledger@),
                name@ == semaphore@,
                sum == capped(count_of(self.ledger@.subrange(0, i as int), semaphore@)),
            decreases self.ledger.len() - i,
        {
            proof {
                let l = self.ledger@;
                assert(l.subrange(0, i + 1) =~= l.subrange(0, i as int).push(l[i as int]));
                lemma_sum_push(l.subrange(0, i as int), l[i as int], semaphore@, true);
            }
            let p = &self.ledger[i];
            if p.active && p.semaphore == name {
                if sum > i64::MAX - p.amount {
                    sum = i64::MAX;
                } else {
                    sum = sum + p.amount;
                }
            }
            i += 1;
        }
        proof {
            assert(self.ledger@.subrange(0, self.ledger@.len() as int) =~= self.ledger@);
        }
        sum
    }

    /// `Some(true)` if the peer holds an active lease, `Some(false)` if its lease is pending,
    /// `None` if the ledger holds no lease of it.
    pub fn has_pending(&self, peer_id: u64) -> (r: Option<bool>)
        ensures
            match find_peer(self@, peer_id) {
                Some(p) => r == Some(p.active),
                None => r == None::<bool>,
            },
    {
        match self.index_of(peer_id) {
            Some(i) => Some(self.ledger[i].active),
            None => None,
        }
    }

    /// Moves the deadline of the peer's lease to `valid_until`. Returns `false` if the ledger holds
    /// no lease of the peer.
    pub fn update_valid_until(&mut self, peer_id: u64, valid_until: u64) -> (r: bool)
        requires
            old(self).wf(),
        ensures
            final(self).wf(),
            r == find_peer(old(self)@, peer_id).is_some(),
            r == holds_peer(old(self)@, peer_id),
            final(self)@ == with_deadline(old(self)@, peer_id, valid_until),
            !r ==> final(self)@ == old(self)@,
    {
        match self.index_of(peer_id) {
            Some(i) => {
                let old_l = Ghost(self.ledger@);
                let p = &self.ledger[i];
                let q = Peer {
                    peer_id: p.peer_id,
                    semaphore: p.semaphore.clone(),
                    active: p.active,
                    amount: p.amount,
                    valid_until,
                };
                self.ledger.set(i, q);
                proof {
                    assert forall|k: int| 0 <= k < old_l@.len() && k != i implies old_l@[k].peer_id
                        != peer_id by {
                        if k < i {
                            assert(old_l@[k].peer_id != old_l@[i as int].peer_id);
                        } else {
                            assert(old_l@[i as int].peer_id != old_l@[k].peer_id);
                        }
                    }
                    assert(self.ledger@ =~= with_deadline(old_l@, peer_id, valid_until));
                }
                true
            },
            None => {
                proof {
                    assert(self.ledger@ =~= with_deadline(self.ledger@, peer_id, valid_until));
                }
                false
            },
        }
    }

    /// Removes the lease of the peer and returns the name of the semaphore it held, or `None`
    /// if the ledger holds no lease of the peer.
    pub fn remove(&mut self, peer_id: u64) -> (r: Option<String>)
        requires
            old(self).wf(),
        ensures
            final(self).wf(),
            !holds_peer(final(self)@, peer_id),
            match r {
                Some(name) => exists|i: int|
                    0 <= i < old(self)@.len() && old(self)@[i].peer_id == peer_id
                        && find_peer(old(self)@, peer_id) == Some(old(self)@[i])
                        && name@ == old(self)@[i].semaphore@ && final(self)@ == old(self)@.remove(
                        i,
                    ),
                None => !holds_peer(old(self)@, peer_id) && final(self)@ == old(self)@,
            },
    {
        match self.index_of(peer_id) {
            Some(i) => {
                proof {
                    lemma_remove_keeps_wf(self.ledger@, i as int);
                }
                let p = self.ledger.remove(i);
                Some(p.semaphore)
            },
            None => None,
        }
    }

    /// A peer id that no lease in the ledger has: the first value not taken among as many
    /// values as there are leases, plus one.
    fn smallest_free_peer_id(&self) -> (r: u64)
        ensures
            !holds_peer(self@, r),
    {
        let n = self.ledger.len();
        let mut c: usize = 0;
        while c < n
            invariant
                n == self.ledger@.len(),
                c <= n,
                forall|k: int| 0 <= k < c ==> holds_peer(self.ledger@, #[trigger] (k as u64)),
            decreases n - c,
        {
            if self.index_of(c as u64).is_none() {
                return c as u64;
            }
            c += 1;
        }
        proof {
            let l = self.ledger@;
            if holds_peer(l, n as u64) {
                let ids = l.map_values(|p: Peer| p.peer_id as int);
                let taken = ids.to_set();
                let range = set_int_range(0, n + 1);
                assert forall|k: int| range.contains(k) implies taken.contains(k) by {
                    let ku = k as u64;
                    if k < n {
                        assert(holds_peer(l, ku));
                    }
                    let i = choose|i: int| 0 <= i < l.len() && #[trigger] l[i].peer_id == ku;
                    assert(ids[i] == k);
                }
                ids.lemma_cardinality_of_set();
                lemma_int_range(0, n + 1);
                vstd::seq_lib::seq_to_set_is_finite(ids);
                lemma_len_subset(range, taken);
            }
        }
        n as u64
    }

    /// Generates a random peer id which does not collide with any lease of the ledger.
    fn new_unique_peer_id(&self) -> (r: u64)
        ensures
            !holds_peer(self@, r),
    {
        let mut attempt: u32 = 0;
        while attempt < PEER_ID_DRAWS
            decreases PEER_ID_DRAWS - attempt,
        {
            let candidate = random_peer_id();
            if self.index_of(candidate).is_none() {
                return candidate;
            }
            attempt += 1;
        }
        self.smallest_free_peer_id()
    }

    /// Adds a lease with a new unique peer id. The lease is active if the count of the semaphore
    /// leaves room for `amount` below `max`, and pending otherwise. Returns whether it is active,
    /// and the peer id.
    pub fn add(&mut self, semaphore: &str, amount: u32, max: i64, valid_until: u64) -> (r: (
        bool,
        u64,
    ))
        requires
            old(self).wf(),
            amount > 0,
            max >= 0,
        ensures
            final(self).wf(),
            !holds_peer(old(self)@, r.1),
            r.0 == (count_of(old(self)@, semaphore@) + amount <= max),
            final(self)@ == old(self)@.push(final(self)@.last()),
            is_lease(final(self)@.last(), r.1, semaphore@, amount as int, r.0, valid_until),
            count_of(old(self)@, semaphore@) <= max ==> count_of(final(self)@, semaphore@) <= max,
    {
        let ghost before = self.ledger@;
        let peer_id = self.new_unique_peer_id();
        let amount = amount as i64;
        let count = self.count(semaphore);
        let active = count <= max - amount;
        self.push_lease(peer_id, semaphore, amount, active, valid_until);
        proof {
            lemma_sum_push(before, self.ledger@.last(), semaphore@, true);
        }
        (active, peer_id)
    }

    fn push_lease(
        &mut self,
        peer_id: u64,
        semaphore: &str,
        amount: i64,
        active: bool,
        valid_until: u64,
    )
        requires
            old(self).wf(),
            amount > 0,
            !holds_peer(old(self)@, peer_id),
        ensures
            final(self).wf(),
            final(self)@ == old(self)@.push(final(self)@.last()),
            is_lease(final(self)@.last(), peer_id, semaphore@, amount as int, active, valid_until),
    {
        let ghost old_l = self.ledger@;
        self.ledger.push(
            Peer { peer_id, semaphore: semaphore.to_owned(), active, amount, valid_until },
        );
        proof {
            let l = self.ledger@;
            assert(l.drop_last() =~= old_l);
            assert forall|i: int, j: int| 0 <= i < j < l.len() implies l[i].peer_id
                != l[j].peer_id by {
                if j == l.len() - 1 {
                    assert(old_l[i].peer_id != peer_id);
                } else {
                    assert(old_l[i].peer_id != old_l[j].peer_id);
                }
            }
            assert forall|i: int| 0 <= i < l.len() implies #[trigger] l[i].amount > 0 by {
                if i < l.len() - 1 {
                    assert(old_l[i].amount > 0);
                }
            }
        }
    }

    /// Activates pending leases of the semaphore, first fit in ledger order, while its count
    /// stays below `max`.
    pub fn resolve_pending(&mut self, semaphore: &str, max: i64)
        requires
            old(self).wf(),
            max >= 0,
        ensures
            final(self).wf(),
            final(self)@ == resolved(old(self)@, semaphore@, max - count_of(old(self)@, semaphore@)),
            settled(final(self)@, semaphore@, max as int),
            count_of(old(self)@, semaphore@) <= max ==> count_of(final(self)@, semaphore@) <= max,
            forall|t: Seq<char>, b: bool|
                t != semaphore@ ==> sum_of(final(self)@, t, b) == sum_of(old(self)@, t, b),
    {
        let ghost old_l = self.ledger@;
        let ghost s = semaphore@;
        let ghost rem0 = max - count_of(old_l, s);
        proof {
            lemma_sum_nonneg(old_l, s, true);
        }
        let name = semaphore.to_owned();
        let mut remainder: i64 = max - self.count(semaphore);
        let n = self.ledger.len();
        proof {
            assert(old_l.subrange(0, n as int) =~= old_l);
            assert(Seq::<Peer>::empty() + old_l =~= old_l);
            assert(old_l.subrange(0, 0) =~= Seq::<Peer>::empty());
        }
        let mut i: usize = 0;
        while i < n && remainder > 0
            invariant
                n == self.ledger@.len(),
                n == old_l.len(),
                amounts_positive(old_l),
                i <= n,
                name@ == s,
                s == semaphore@,
                self.ledger@.subrange(i as int, n as int) == old_l.subrange(i as int, n as int),
                resolved(old_l, s, rem0) == self.ledger@.subrange(0, i as int) + resolved(
                    old_l.subrange(i as int, n as int),
                    s,
                    remainder as int,
                ),
            decreases n - i,
        {
            let ghost cur = self.ledger@;
            let ghost tail = old_l.subrange(i as int, n as int);
            proof {
                assert(tail[0] == cur[i as int]);
                assert(tail.drop_first() =~= old_l.subrange(i + 1, n as int));
            }
            let p = &self.ledger[i];
            if !p.active && p.semaphore == name && remainder >= p.amount {
                let q = Peer {
                    peer_id: p.peer_id,
                    semaphore: p.semaphore.clone(),
                    active: true,
                    amount: p.amount,
                    valid_until: p.valid_until,
                };
                remainder = remainder - q.amount;
                self.ledger.set(i, q);
            }
            proof {
                let h = self.ledger@[i as int];
                assert(self.ledger@.subrange(0, i + 1) =~= cur.subrange(0, i as int).push(h));
                assert(cur.subrange(0, i as int).push(h) + resolved(
                    old_l.subrange(i + 1, n as int),
                    s,
                    remainder as int,
                ) =~= cur.subrange(0, i as int) + (seq![h] + resolved(
                    old_l.subrange(i + 1, n as int),
                    s,
                    remainder as int,
                )));
                assert(self.ledger@.subrange(i + 1, n as int) =~= cur.subrange(i + 1, n as int));
            }
            i += 1;
        }
        proof {
            let tail = old_l.subrange(i as int, n as int);
            assert(resolved(tail, s, remainder as int) == tail);
            assert(self.ledger@ =~= self.ledger@.subrange(0, i as int) + self.ledger@.subrange(
                i as int,
                n as int,
            ));
            lemma_resolved(old_l, s, rem0);
            let f = self.ledger@;
            assert forall|a: int, b: int| 0 <= a < b < f.len() implies f[a].peer_id
                != f[b].peer_id by {
                assert(old_l[a].peer_id != old_l[b].peer_id);
            }
            assert forall|a: int| 0 <= a < f.len() implies #[trigger] f[a].amount > 0 by {
                assert(old_l[a].amount > 0);
            }
            assert forall|k: int|
                0 <= k < f.len() && !(#[trigger] f[k]).active && f[k].semaphore@ == s implies f[k].amount
                > max - count_of(f, s) by {
                assert(f[k] == resolved(old_l, s, rem0)[k]);
            }
        }
    }

    /// Removes every lease whose deadline is not after `now`. Returns the number removed.
    pub fn remove_expired(&mut self, now: u64) -> (r: usize)
        requires
            old(self).wf(),
        ensures
            final(self).wf(),
            final(self)@ == unexpired(old(self)@, now),
            r == old(self)@.len() - final(self)@.len(),
    {
        let mut kept: Vec<Peer> = Vec::new();
        let mut i: usize = 0;
        while i < self.ledger.len()
            invariant
                i <= self.ledger@.len(),
                kept@.len() <= i,
                kept@ == unexpired(self.ledger@.subrange(0, i as int), now),
            decreases self.ledger.len() - i,
        {
            proof {
                let l = self.ledger@;
                assert(l.subrange(0, i + 1).drop_last() =~= l.subrange(0, i as int));
                assert(l.subrange(0, i + 1).last() == l[i as int]);
            }
            if now < self.ledger[i].valid_until {
                kept.push(self.ledger[i].duplicate());
            }
            i += 1;
        }
        proof {
            assert(self.ledger@.subrange(0, self.ledger@.len() as int) =~= self.ledger@);
            lemma_unexpired(self.ledger@, now);
        }
        let before = self.ledger.len();
        self.ledger = kept;
        before - self.ledger.len()
    }

    /// The active and the pending amount on the semaphore, each capped at the largest `i64`.
    pub fn counts_for(&self, semaphore: &str) -> (r: Counts)
        requires
            self.wf(),
        ensures
            r.active == capped(sum_of(self@, semaphore@, true)),
            r.pending == capped(sum_of(self@, semaphore@, false)),
    {
        self.accumulate(semaphore, 0, 0)
    }

    /// `active` and `pending` plus the active and the pending amount on the semaphore, each
    /// capped at the largest `i64`.
    fn accumulate(&self, semaphore: &str, start_active: i64, start_pending: i64) -> (r: Counts)
        requires
            self.wf(),
        ensures
            r.active == capped(start_active + sum_of(self@, semaphore@, true)),
            r.pending == capped(start_pending + sum_of(self@, semaphore@, false)),
    {
        let name = semaphore.to_owned();
        let mut active: i64 = start_active;
        let mut pending: i64 = start_pending;
        proof {
            assert(sum_of(self.ledger@.subrange(0, 0), semaphore@, true) == 0);
            assert(sum_of(self.ledger@.subrange(0, 0), semaphore@, false) == 0);
        }
        let mut i: usize = 0;
        while i < self.ledger.len()
            invariant
                i <= self.ledger@.len(),
                amounts_positive(self.ledger@),
                name@ == semaphore@,
                active == capped(
                    start_active + sum_of(self.ledger@.subrange(0, i as int), semaphore@, true),
                ),
                pending == capped(
                    start_pending + sum_of(self.ledger@.subrange(0, i as int), semaphore@, false),
                ),
            decreases self.ledger.len() - i,
        {
            proof {
                let l = self.ledger@;
                assert(l.subrange(0, i + 1) =~= l.subrange(0, i as int).push(l[i as int]));
                lemma_sum_push(l.subrange(0, i as int), l[i as int], semaphore@, true);
                lemma_sum_push(l.subrange(0, i as int), l[i as int], semaphore@, false);
            }
            let p = &self.ledger[i];
            if p.semaphore == name {
                if p.active {
                    active = if active > i64::MAX - p.amount { i64::MAX } else { active + p.amount };
                } else {
                    pending = if pending > i64::MAX - p.amount { i64::MAX } else { pending + p.amount };
                }
            }
            i += 1;
        }
        proof {
            assert(self.ledger@.subrange(0, self.ledger@.len() as int) =~= self.ledger@);
        }
        Counts { active, pending }
    }

    /// Adds to the counts of each semaphore named in `counts` the active and the pending amount
    /// on it, each sum capped at the largest `i64`.
    pub fn fill_counts(&self, counts: &mut Vec<(String, Counts)>)
        requires
            self.wf(),
        ensures
            final(counts)@.len() == old(counts)@.len(),
            forall|j: int|
                0 <= j < final(counts)@.len() ==> {
                    let e = #[trigger] final(counts)@[j];
                    &&& e.0@ == old(counts)@[j].0@
                    &&& e.1.active == capped(old(counts)@[j].1.active + sum_of(self@, e.0@, true))
                    &&& e.1.pending == capped(
                        old(counts)@[j].1.pending + sum_of(self@, e.0@, false),
                    )
                },
    {
        let mut j: usize = 0;
        while j < counts.len()
            invariant
                self.wf(),
                j <= counts@.len(),
                counts@.len() == old(counts)@.len(),
                forall|k: int| j <= k < counts@.len() ==> #[trigger] counts@[k] == old(counts)@[k],
                forall|k: int|
                    0 <= k < j ==> {
                        let e = #[trigger] counts@[k];
                        &&& e.0@ == old(counts)@[k].0@
                        &&& e.1.active == capped(
                            old(counts)@[k].1.active + sum_of(self@, e.0@, true),
                        )
                        &&& e.1.pending == capped(
                            old(counts)@[k].1.pending + sum_of(self@, e.0@, false),
                        )
                    },
            decreases counts.len() - j,
        {
            let name = counts[j].0.clone();
            let c = self.accumulate(name.as_str(), counts[j].1.active, counts[j].1.pending);
            counts.set(j, (name, c));
            j += 1;
        }
    }

    /// Inserts a revenant: a lease at a peer id the caller supplies, for a client whose lease was
    /// litter-collected. The lease is active if `active` says it was, or if the count of the
    /// semaphore leaves room for `amount` below `max`; so a formerly active revenant may overbook
    /// the semaphore.
    pub fn revenant(
        &mut self,
        peer_id: u64,
        semaphore: &str,
        amount: u32,
        active: bool,
        max: i64,
        valid_until: u64,
    )
        requires
            old(self).wf(),
            !holds_peer(old(self)@, peer_id),
            amount > 0,
            max >= 0,
        ensures
            final(self).wf(),
            final(self)@ == old(self)@.push(final(self)@.last()),
            is_lease(
                final(self)@.last(),
                peer_id,
                semaphore@,
                amount as int,
                active || count_of(old(self)@, semaphore@) + amount <= max,
                valid_until,
            ),
            !active && count_of(old(self)@, semaphore@) <= max ==> count_of(
                final(self)@,
                semaphore@,
            ) <= max,
    {
        let ghost before = self.ledger@;
        let amount = amount as i64;
        let fits = self.count(semaphore) <= max - amount;
        self.push_lease(peer_id, semaphore, amount, active || fits, valid_until);
        proof {
            lemma_sum_push(before, self.ledger@.last(), semaphore@, true);
        }
    }
}

} // verus!
