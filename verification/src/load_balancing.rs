//! The load-balancer core: per-route round-robin counters, pre-expanded
//! weight tables, and backend selection.
use vstd::prelude::*;
use crate::config::Locations;
use crate::text::str_eq;

verus! {

/// Relies on twox-hash's XXH3-64: the hash is a function of the input
/// characters alone. Its value is left unstated.
pub uninterp spec fn xxh3_of(s: Seq<char>) -> u64;

/// Relies on twox-hash's XxHash3_64::oneshot, hashing the UTF-8 bytes of
/// the input.
#[verifier::external_body]
fn xxh3_str(s: &str) -> (r: u64)
    ensures
        r == xxh3_of(s@),
{
    twox_hash::XxHash3_64::oneshot(s.as_bytes())
}

#[derive(PartialEq, Debug)]
pub struct RoundRobinConfig {
    pub index: usize,
    pub weights_indices: Option<Vec<usize>>,
}

/// Per-route round-robin state, keyed by route id.
#[derive(PartialEq, Debug)]
pub struct LoadBalancerConfig {
    pub round_robin: Vec<(u32, RoundRobinConfig)>,
}

/// Some entry carries the id.
pub open spec fn lb_has(s: Seq<(u32, RoundRobinConfig)>, id: u32) -> bool {
    exists|i: int| 0 <= i < s.len() && (#[trigger] s[i]).0 == id
}

/// Position of the first entry carrying the id.
pub open spec fn lb_idx(s: Seq<(u32, RoundRobinConfig)>, id: u32) -> int
    decreases s.len(),
{
    if s.len() == 0 {
        0
    } else if s[0].0 == id {
        0
    } else {
        1 + lb_idx(s.drop_first(), id)
    }
}

/// The entry carrying the id, when ids are unique.
pub open spec fn lb_get(s: Seq<(u32, RoundRobinConfig)>, id: u32) -> RoundRobinConfig {
    s[lb_idx(s, id)].1
}

pub proof fn lemma_lb_idx(s: Seq<(u32, RoundRobinConfig)>, id: u32)
    requires
        lb_has(s, id),
    ensures
        0 <= lb_idx(s, id) < s.len(),
        s[lb_idx(s, id)].0 == id,
    decreases s.len(),
{
    if s.len() > 0 && s[0].0 != id {
        let w = choose|w: int| 0 <= w < s.len() && (#[trigger] s[w]).0 == id;
        assert(s.drop_first()[w - 1].0 == id);
        assert(lb_has(s.drop_first(), id));
        lemma_lb_idx(s.drop_first(), id);
        assert(s[1 + lb_idx(s.drop_first(), id)] == s.drop_first()[lb_idx(s.drop_first(), id)]);
    }
}

/// With unique ids, `lb_get` reads exactly the entry at the id's position.
pub proof fn lemma_lb_get_at(s: Seq<(u32, RoundRobinConfig)>, id: u32, i: int)
    requires
        0 <= i < s.len(),
        s[i].0 == id,
        forall|a: int, b: int|
            0 <= a < b < s.len() ==> (#[trigger] s[a]).0 != (#[trigger] s[b]).0,
    ensures
        lb_has(s, id),
        lb_get(s, id) == s[i].1,
{
    assert(lb_has(s, id));
    lemma_lb_idx(s, id);
    let j = lb_idx(s, id);
    if j != i {
        if j < i {
            assert(s[j].0 != s[i].0);
        } else {
            assert(s[i].0 != s[j].0);
        }
        assert(false);
    }
}

/// The weight table expanded into backend indices: index `i` repeated
/// `weights[i]` times.
pub open spec fn spec_expand(weights: Seq<u32>) -> Seq<usize>
    decreases weights.len(),
{
    if weights.len() == 0 {
        Seq::empty()
    } else {
        spec_expand(weights.drop_last()) + Seq::new(
            weights.last() as nat,
            |j: int| (weights.len() - 1) as usize,
        )
    }
}

pub proof fn lemma_spec_expand_bounds(w: Seq<u32>)
    ensures
        forall|j: int| 0 <= j < spec_expand(w).len() ==> (#[trigger] spec_expand(w)[j]) < w.len(),
        (exists|q: int| 0 <= q < w.len() && w[q] > 0) ==> spec_expand(w).len() >= 1,
    decreases w.len(),
{
    if w.len() > 0 {
        lemma_spec_expand_bounds(w.drop_last());
        if exists|q: int| 0 <= q < w.len() && w[q] > 0 {
            let q = choose|q: int| 0 <= q < w.len() && w[q] > 0;
            if q < w.len() - 1 {
                assert(w.drop_last()[q] > 0);
            }
        }
    }
}


/// Expands an optional weight table into the flat index list.
pub fn expand_weights(weights: &Option<Vec<u32>>) -> (r: Option<Vec<usize>>)
    ensures
        match weights {
            Option::Some(w) => r matches Option::Some(wi) && wi@ == spec_expand(w@),
            Option::None => r is None,
        },
{
    match weights {
        Option::Some(weights) => {
            let wn = weights.len();
            let mut wi: Vec<usize> = Vec::new();
            let mut a: usize = 0;
            proof {
                assert(weights@.take(0) =~= Seq::<u32>::empty());
            }
            while a < wn
                invariant
                    a <= wn,
                    wn == weights@.len(),
                    wi@ == spec_expand(weights@.take(a as int)),
                decreases wn - a,
            {
                let w = weights[a];
                let mut b: u32 = 0;
                while b < w
                    invariant
                        b <= w,
                        a < wn,
                        wn == weights@.len(),
                        w == weights@[a as int],
                        wi@ == spec_expand(weights@.take(a as int)) + Seq::new(
                            b as nat,
                            |j: int| a,
                        ),
                    decreases w - b,
                {
                    wi.push(a);
                    proof {
                        assert(wi@ =~= spec_expand(weights@.take(a as int)) + Seq::new(
                            (b + 1) as nat,
                            |j: int| a,
                        ));
                    }
                    b += 1;
                }
                proof {
                    assert(weights@.take(a + 1).drop_last() =~= weights@.take(a as int));
                    assert(wi@ =~= spec_expand(weights@.take(a + 1)));
                }
                a += 1;
            }
            proof {
                assert(weights@.take(wn as int) =~= weights@);
            }
            Some(wi)
        },
        Option::None => None,
    }
}

/// The backend index the next round-robin step picks.
pub open spec fn spec_rr_choice(counter: nat, wi: Option<Vec<usize>>, n: nat) -> int {
    match wi {
        Option::Some(w) => w@[(counter % w@.len()) as int] as int,
        Option::None => (counter % n) as int,
    }
}

/// An entry can index the given backend list.
pub open spec fn rr_entry_ok(rrc: RoundRobinConfig, n: nat) -> bool {
    match rrc.weights_indices {
        Option::Some(wi) => wi@.len() >= 1 && forall|j: int|
            0 <= j < wi@.len() ==> (#[trigger] wi@[j]) < n,
        Option::None => true,
    }
}

impl LoadBalancerConfig {
    pub open spec fn wf(&self) -> bool {
        forall|i: int, j: int|
            0 <= i < j < self.round_robin@.len() ==> (#[trigger] self.round_robin@[i]).0 != (
            #[trigger] self.round_robin@[j]).0
    }

    /// Builds the per-route state: one zeroed counter per `round_robin`
    /// route, with its weight table expanded when weights are set.
    #[verifier::rlimit(100)]
    #[verifier::spinoff_prover]
    pub fn new(targets: Vec<&Locations>) -> (r: LoadBalancerConfig)
        requires
            forall|i: int, j: int|
                0 <= i < j < targets@.len() ==> (#[trigger] targets@[i]).id != (
                #[trigger] targets@[j]).id,
        ensures
            r.wf(),
            // only round-robin targets get per-route state
            forall|a: int|
                0 <= a < r.round_robin@.len() ==> (exists|t: int|
                    0 <= t < targets@.len() && (#[trigger] r.round_robin@[a]).0 == targets@[t].id
                        && (targets@[t].algo matches Option::Some(x) && x@ == "round_robin"@)),
            forall|i: int|
                0 <= i < targets@.len() ==> ({
                    let t = #[trigger] targets@[i];
                    (t.algo matches Option::Some(a) && a@ == "round_robin"@) ==> (lb_has(
                        r.round_robin@,
                        t.id,
                    ) && ({
                        let e = lb_get(r.round_robin@, t.id);
                        e.index == 0 && match t.weights {
                            Option::Some(w) => e.weights_indices matches Option::Some(wi) && wi@
                                == spec_expand(w@),
                            Option::None => e.weights_indices is None,
                        }
                    }))
                }),
    {
        let mut round_robin: Vec<(u32, RoundRobinConfig)> = Vec::new();
        let n = targets.len();
        let mut i: usize = 0;
        while i < n
            invariant
                i <= n,
                n == targets@.len(),
                forall|a: int, b: int|
                    0 <= a < b < targets@.len() ==> (#[trigger] targets@[a]).id != (
                    #[trigger] targets@[b]).id,
                forall|a: int, b: int|
                    0 <= a < b < round_robin@.len() ==> (#[trigger] round_robin@[a]).0 != (
                    #[trigger] round_robin@[b]).0,
                // every entry so far belongs to a processed round-robin target
                forall|a: int|
                    0 <= a < round_robin@.len() ==> (exists|t: int|
                        0 <= t < i && (#[trigger] round_robin@[a]).0 == targets@[t].id && (
                        targets@[t].algo matches Option::Some(x) && x@ == "round_robin"@)),
                forall|t: int|
                    0 <= t < i ==> ({
                        let tt = #[trigger] targets@[t];
                        (tt.algo matches Option::Some(a) && a@ == "round_robin"@) ==> (lb_has(
                            round_robin@,
                            tt.id,
                        ) && ({
                            let e = lb_get(round_robin@, tt.id);
                            e.index == 0 && match tt.weights {
                                Option::Some(w) => e.weights_indices matches Option::Some(wi)
                                    && wi@ == spec_expand(w@),
                                Option::None => e.weights_indices is None,
                            }
                        }))
                    }),
            decreases n - i,
        {
            let target = targets[i];
            let is_rr = match &target.algo {
                Option::Some(a) => str_eq(a.as_str(), "round_robin"),
                Option::None => false,
            };
            if is_rr {
                let weights_indices: Option<Vec<usize>> = expand_weights(&target.weights);
                let entry = (target.id, RoundRobinConfig { index: 0, weights_indices });
                let ghost rr_old = round_robin@;
                let ghost gentry = entry;
                round_robin.push(entry);
                proof {
                    let s = round_robin@;
                    assert(s.drop_last() =~= rr_old);
                    assert(s[s.len() - 1] == gentry);
                    assert(gentry.0 == targets@[i as int].id);
                    assert forall|a: int, b: int|
                        0 <= a < b < s.len() implies (#[trigger] s[a]).0 != (
                    #[trigger] s[b]).0 by {
                        if b == s.len() - 1 {
                            assert(s[a] == rr_old[a]);
                            let t = choose|t: int|
                                0 <= t < i && (#[trigger] rr_old[a]).0 == targets@[t].id && (
                                targets@[t].algo matches Option::Some(x) && x@
                                    == "round_robin"@);
                            assert(targets@[t].id != targets@[i as int].id);
                        } else {
                            assert(s[a] == rr_old[a] && s[b] == rr_old[b]);
                        }
                    }
                    assert forall|a: int|
                        0 <= a < s.len() implies (exists|t: int|
                        0 <= t < i + 1 && (#[trigger] s[a]).0 == targets@[t].id) by {
                        if a == s.len() - 1 {
                            assert(s[a].0 == targets@[i as int].id);
                            assert(targets@[i as int].algo matches Option::Some(x) && x@
                                == "round_robin"@);
                        } else {
                            assert(s[a] == rr_old[a]);
                            let t = choose|t: int|
                                0 <= t < i && (#[trigger] rr_old[a]).0 == targets@[t].id && (
                                targets@[t].algo matches Option::Some(x) && x@
                                    == "round_robin"@);
                            assert(s[a].0 == targets@[t].id);
                        }
                    }
                    assert forall|t: int|
                        0 <= t < i + 1 && ((#[trigger] targets@[t]).algo matches Option::Some(x)
                            && x@ == "round_robin"@) implies (lb_has(s, targets@[t].id) && ({
                        let e = lb_get(s, targets@[t].id);
                        e.index == 0 && match targets@[t].weights {
                            Option::Some(w) => e.weights_indices matches Option::Some(wi2) && wi2@
                                == spec_expand(w@),
                            Option::None => e.weights_indices is None,
                        }
                    })) by {
                        let tid = targets@[t].id;
                        if t == i {
                            assert(s[s.len() - 1].0 == tid);
                            assert(lb_has(s, tid));
                            let q2 = choose|q2: int|
                                0 <= q2 < s.len() && (#[trigger] s[q2]).0 == tid;
                            if q2 < s.len() - 1 {
                                assert(s[q2] == rr_old[q2]);
                                let t2 = choose|t2: int|
                                    0 <= t2 < i && (#[trigger] rr_old[q2]).0 == targets@[t2].id;
                                assert(targets@[t2].id != targets@[i as int].id);
                                assert(false);
                            }
                            lemma_lb_get_at(s, tid, s.len() - 1);
                            assert(lb_get(s, tid) == gentry.1);
                        } else {
                            assert(lb_has(rr_old, tid));
                            let q = choose|q: int|
                                0 <= q < rr_old.len() && (#[trigger] rr_old[q]).0 == tid;
                            assert(s[q].0 == tid);
                            assert(lb_has(s, tid));
                            let q2 = choose|q2: int|
                                0 <= q2 < s.len() && (#[trigger] s[q2]).0 == tid;
                            if q2 == s.len() - 1 {
                                assert(s[q2].0 == targets@[i as int].id);
                                assert(targets@[t].id != targets@[i as int].id);
                                assert(false);
                            }
                            assert(s[q2] == rr_old[q2]);
                            if q2 != q {
                                assert(rr_old[q2].0 == tid && rr_old[q].0 == tid);
                                assert(false);
                            }
                            lemma_lb_get_at(s, tid, q);
                            assert(lb_get(s, tid) == rr_old[q].1);
                            assert forall|a2: int, b2: int|
                                0 <= a2 < b2 < rr_old.len() implies (#[trigger] rr_old[a2]).0 != (
                            #[trigger] rr_old[b2]).0 by {
                                assert(s[a2] == rr_old[a2] && s[b2] == rr_old[b2]);
                            }
                            lemma_lb_get_at(rr_old, tid, q);
                            assert(lb_get(rr_old, tid) == rr_old[q].1);
                        }
                    }
                }
            }
            i += 1;
        }
        proof {
            assert forall|a: int|
                0 <= a < round_robin@.len() implies (exists|t: int|
                0 <= t < targets@.len() && (#[trigger] round_robin@[a]).0 == targets@[t].id && (
                targets@[t].algo matches Option::Some(x) && x@ == "round_robin"@)) by {
                let t = choose|t: int|
                    0 <= t < i && (#[trigger] round_robin@[a]).0 == targets@[t].id && (
                    targets@[t].algo matches Option::Some(x) && x@ == "round_robin"@);
                assert(0 <= t < targets@.len());
            }
        }
        LoadBalancerConfig { round_robin }
    }

    /// Picks the backend for a request: round robin steps its counter,
    /// weighted round robin walks the expanded table, IP hashing is a pure
    /// function of the client address, and anything else takes the first
    /// backend. A single backend is returned outright.
    pub fn balance(&mut self, id: &u32, servers: &Vec<String>, algo: &Option<String>, ip: &str) -> (r:
        String)
        requires
            old(self).wf(),
            servers@.len() >= 1,
            (servers@.len() > 1 && (algo matches Option::Some(a) && a@ == "round_robin"@)) ==> (
            lb_has(old(self).round_robin@, *id) && rr_entry_ok(
                lb_get(old(self).round_robin@, *id),
                servers@.len() as nat,
            )),
        ensures
            final(self).wf(),
            servers@.len() == 1 ==> r@ == servers@[0]@ && *final(self) == *old(self),
            (servers@.len() > 1 && (algo matches Option::Some(a) && a@ == "round_robin"@)) ==> ({
                let e = lb_get(old(self).round_robin@, *id);
                let n = servers@.len();
                &&& r@ == servers@[spec_rr_choice(e.index as nat, e.weights_indices, n as nat)]@
                &&& lb_has(final(self).round_robin@, *id)
                &&& ({
                    let e2 = lb_get(final(self).round_robin@, *id);
                    e2.weights_indices == e.weights_indices && e2.index == (if e.index
                        == usize::MAX {
                        0usize
                    } else {
                        (e.index + 1) as usize
                    })
                })
                &&& forall|id2: u32|
                    id2 != *id ==> ((lb_has(final(self).round_robin@, id2) <==> lb_has(
                        old(self).round_robin@,
                        id2,
                    )) && (lb_has(old(self).round_robin@, id2) ==> lb_get(
                        final(self).round_robin@,
                        id2,
                    ) == lb_get(old(self).round_robin@, id2)))
            }),
            (servers@.len() > 1 && (algo matches Option::Some(a) && a@ == "ip_hash"@)) ==> r@
                == servers@[(xxh3_of(ip@) % (servers@.len() as u64)) as int]@ && *final(self)
                == *old(self),
            (servers@.len() > 1 && !(algo matches Option::Some(a) && (a@ == "round_robin"@ || a@
                == "ip_hash"@))) ==> r@ == servers@[0]@ && *final(self) == *old(self),
    {
        let srv_nbr = servers.len();
        if srv_nbr == 1 {
            return String::from_str(servers[0].as_str());
        }
        match algo {
            Option::Some(a) => {
                if str_eq(a.as_str(), "round_robin") {
                    let n = self.round_robin.len();
                    let mut i: usize = 0;
                    while i < n && self.round_robin[i].0 != *id
                        invariant
                            i <= n,
                            n == self.round_robin@.len(),
                            forall|j: int| 0 <= j < i ==> (#[trigger] self.round_robin@[j]).0
                                != *id,
                        decreases n - i,
                    {
                        i += 1;
                    }
                    proof {
                        assert(lb_has(self.round_robin@, *id));
                        if i >= n {
                            let q = choose|q: int|
                                0 <= q < self.round_robin@.len() && (
                                #[trigger] self.round_robin@[q]).0 == *id;
                            assert(false);
                        }
                        let q = choose|q: int|
                            0 <= q < self.round_robin@.len() && (
                            #[trigger] self.round_robin@[q]).0 == *id;
                        if q < i {
                            assert(false);
                        }
                        if q > i {
                            assert(self.round_robin@[i as int].0 == *id);
                            assert(false);
                        }
                        lemma_lb_get_at(self.round_robin@, *id, i as int);
                        assert(lb_get(self.round_robin@, *id) == self.round_robin@[i as int].1);
                    }
                    let ghost s_old = self.round_robin@;
                    let (eid, rrc) = self.round_robin.remove(i);
                    let index = rrc.index;
                    let new_index: usize = if index == usize::MAX {
                        0
                    } else {
                        index + 1
                    };
                    let chosen: usize = match &rrc.weights_indices {
                        Option::Some(wi) => wi[index % wi.len()],
                        Option::None => index % srv_nbr,
                    };
                    let new_entry = (eid, RoundRobinConfig { index: new_index, weights_indices: rrc.weights_indices });
                    self.round_robin.insert(i, new_entry);
                    proof {
                        assert(self.round_robin@ =~= s_old.update(
                            i as int,
                            self.round_robin@[i as int],
                        ));
                        assert(self.round_robin@[i as int].0 == *id);
                        assert(lb_has(self.round_robin@, *id));
                        assert forall|a2: int, b2: int|
                            0 <= a2 < b2 < self.round_robin@.len() implies (
                        #[trigger] self.round_robin@[a2]).0 != (
                        #[trigger] self.round_robin@[b2]).0 by {
                            assert(s_old[a2].0 == self.round_robin@[a2].0);
                            assert(s_old[b2].0 == self.round_robin@[b2].0);
                        }
                        lemma_lb_get_at(self.round_robin@, *id, i as int);
                        assert(lb_get(self.round_robin@, *id) == self.round_robin@[i as int].1);
                        assert forall|id2: u32| id2 != *id implies ((lb_has(
                            self.round_robin@,
                            id2,
                        ) <==> lb_has(s_old, id2)) && (lb_has(s_old, id2) ==> lb_get(
                            self.round_robin@,
                            id2,
                        ) == lb_get(s_old, id2))) by {
                            if lb_has(s_old, id2) {
                                let q = choose|q: int|
                                    0 <= q < s_old.len() && (#[trigger] s_old[q]).0 == id2;
                                assert(self.round_robin@[q].0 == id2);
                                assert(lb_has(self.round_robin@, id2));
                                let q2 = choose|q2: int|
                                    0 <= q2 < self.round_robin@.len() && (
                                    #[trigger] self.round_robin@[q2]).0 == id2;
                                if q2 != q {
                                    assert(s_old[q2].0 == id2);
                                }
                                lemma_lb_get_at(self.round_robin@, id2, q);
                                assert(lb_get(self.round_robin@, id2)
                                    == self.round_robin@[q as int].1);
                                assert forall|a2: int, b2: int|
                                    0 <= a2 < b2 < s_old.len() implies (#[trigger] s_old[a2]).0
                                    != (#[trigger] s_old[b2]).0 by {
                                    assert(self.round_robin@[a2].0 == s_old[a2].0);
                                    assert(self.round_robin@[b2].0 == s_old[b2].0);
                                }
                                lemma_lb_get_at(s_old, id2, q);
                                assert(lb_get(s_old, id2) == s_old[q as int].1);
                            }
                            if lb_has(self.round_robin@, id2) {
                                let q = choose|q: int|
                                    0 <= q < self.round_robin@.len() && (
                                    #[trigger] self.round_robin@[q]).0 == id2;
                                assert(s_old[q].0 == id2);
                                assert(lb_has(s_old, id2));
                            }
                        }
                    }
                    proof {
                        reveal_strlit("round_robin");
                        reveal_strlit("ip_hash");
                        assert("round_robin"@.len() == 11 && "ip_hash"@.len() == 7);
                    }
                    return String::from_str(servers[chosen].as_str());
                }
                if str_eq(a.as_str(), "ip_hash") {
                    let hash = xxh3_str(ip);
                    let index = hash % (srv_nbr as u64);
                    return String::from_str(servers[index as usize].as_str());
                }
                String::from_str(servers[0].as_str())
            },
            Option::None => String::from_str(servers[0].as_str()),
        }
    }
}

/// A present id stays present when an entry is appended.
pub proof fn lemma_lb_has_push(
    s: Seq<(u32, RoundRobinConfig)>,
    e: (u32, RoundRobinConfig),
    id: u32,
)
    requires
        lb_has(s, id),
    ensures
        lb_has(s.push(e), id),
{
    let q = choose|q: int| 0 <= q < s.len() && (#[trigger] s[q]).0 == id;
    assert(s.push(e)[q].0 == id);
}

/// How often the first `k` round-robin steps pick backend `b` out of `n`.
pub open spec fn count_rr(k: nat, n: nat, b: nat) -> nat
    decreases k,
{
    if k == 0 {
        0
    } else {
        count_rr((k - 1) as nat, n, b) + (if ((k - 1) as nat) % n == b {
            1nat
        } else {
            0nat
        })
    }
}

/// Unweighted round robin is fair up to one call: the `t`-th call returns
/// the backend at `t % n` (the `balance` contract), so over the first `k`
/// calls each backend is picked either `k / n` (rounded down) or `k / n`
/// (rounded up) times.
pub proof fn lemma_round_robin_fair(k: nat, n: nat, b: nat)
    requires
        n >= 1,
        b < n,
    ensures
        count_rr(k, n, b) == k / n || count_rr(k, n, b) as int == (k + n - 1) as int / (n as int),
{
    lemma_count_rr_exact(k, n, b);
    assert((k * n / n) == k) by (nonlinear_arith)
        requires
            n >= 1,
    ;
    let q = k / n;
    let r = k % n;
    assert(k == q * n + r && r < n) by (nonlinear_arith)
        requires
            n >= 1,
            q == k / n,
            r == k % n,
    ;
    if r == 0 {
        assert((k + n - 1) as int / (n as int) == q) by (nonlinear_arith)
            requires
                n >= 1,
                k == q * n,
        ;
    } else {
        assert((k + n - 1) as int / (n as int) == q + 1) by (nonlinear_arith)
            requires
                n >= 1,
                k == q * n + r,
                0 < r < n,
        ;
    }
}

/// The exact pick count: the quotient, plus one when the remainder has
/// already passed backend `b`.
pub proof fn lemma_count_rr_exact(k: nat, n: nat, b: nat)
    requires
        n >= 1,
        b < n,
    ensures
        count_rr(k, n, b) == k / n + (if k % n > b {
            1nat
        } else {
            0nat
        }),
    decreases k,
{
    if k == 0 {
        assert(k / n == 0 && k % n == 0) by (nonlinear_arith)
            requires
                n >= 1,
                k == 0,
        ;
    } else {
        lemma_count_rr_exact((k - 1) as nat, n, b);
        let k1 = (k - 1) as nat;
        assert(k1 % n < n) by (nonlinear_arith)
            requires
                n >= 1,
        ;
        if k1 % n == n - 1 {
            assert(k % n == 0 && k / n == k1 / n + 1) by (nonlinear_arith)
                requires
                    n >= 1,
                    k == k1 + 1,
                    k1 % n == n - 1,
            ;
            assert(count_rr(k, n, b) == count_rr(k1, n, b) + (if k1 % n == b {
                1nat
            } else {
                0nat
            }));
            if b == n - 1 {
                assert(count_rr(k, n, b) == k1 / n + 0 + 1);
            } else {
                assert(count_rr(k, n, b) == k1 / n + 1 + 0);
            }
            assert(count_rr(k, n, b) == k / n + (if k % n > b {
                1nat
            } else {
                0nat
            }));
        } else {
            assert(k % n == k1 % n + 1 && k / n == k1 / n) by (nonlinear_arith)
                requires
                    n >= 1,
                    k == k1 + 1,
                    k1 % n < n - 1,
            ;
            assert(count_rr(k, n, b) == count_rr(k1, n, b) + (if k1 % n == b {
                1nat
            } else {
                0nat
            }));
            assert(count_rr(k, n, b) == k / n + (if k % n > b {
                1nat
            } else {
                0nat
            }));
        }
    }
}

/// IP hashing is deterministic: two backend picks pinned by the `balance`
/// contract for the same client address and the same backend list are the
/// same backend.
pub proof fn lemma_ip_hash_deterministic(
    servers: Seq<Seq<char>>,
    ip: Seq<char>,
    r1: Seq<char>,
    r2: Seq<char>,
)
    requires
        servers.len() >= 1,
        r1 == servers[(xxh3_of(ip) % (servers.len() as u64)) as int],
        r2 == servers[(xxh3_of(ip) % (servers.len() as u64)) as int],
    ensures
        r1 == r2,
{
}

} // verus!
