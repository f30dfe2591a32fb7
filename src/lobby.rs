use vstd::prelude::*;

use crate::ids::same_id;

verus! {

/// Players per match.
pub const PLAYERS_PER_MATCH: usize = 2;

/// The ids of `ps`.
pub open spec fn ids_of(ps: Seq<String>) -> Seq<Seq<char>> {
    ps.map_values(|s: String| s@)
}

/// `ids` without every copy of `u`, order kept.
pub open spec fn without_id(ids: Seq<Seq<char>>, u: Seq<char>) -> Seq<Seq<char>>
    decreases ids.len(),
{
    if ids.len() == 0 {
        ids
    } else {
        let pre = without_id(ids.drop_last(), u);
        if ids.last() == u {
            pre
        } else {
            pre.push(ids.last())
        }
    }
}

/// Players waiting for a match, in order of arrival.
pub struct LobbyQueue {
    waiting: Vec<String>,
}

impl LobbyQueue {
    /// Ids of the waiting players, in order of arrival.
    pub closed spec fn waiting_ids(&self) -> Seq<Seq<char>> {
        ids_of(self.waiting@)
    }

    pub fn new() -> (r: LobbyQueue)
        ensures
            r.waiting_ids().len() == 0,
    {
        LobbyQueue { waiting: Vec::new() }
    }

    /// Queues `user_id` unless it already waits. Once enough players wait,
    /// the first of them leave the queue as a match.
    pub fn join(&mut self, user_id: String) -> (r: Option<Vec<String>>)
        ensures
            old(self).waiting_ids().contains(user_id@) ==> r is None && final(self).waiting_ids()
                == old(self).waiting_ids(),
            !old(self).waiting_ids().contains(user_id@) ==> {
                let q = old(self).waiting_ids().push(user_id@);
                &&& q.len() >= PLAYERS_PER_MATCH ==> (r matches Some(m) && ids_of(m@) == q.subrange(
                    0,
                    PLAYERS_PER_MATCH as int,
                ) && final(self).waiting_ids() == q.subrange(PLAYERS_PER_MATCH as int, q.len() as int))
                &&& q.len() < PLAYERS_PER_MATCH ==> r is None && final(self).waiting_ids() == q
            },
    {
        let mut i: usize = 0;
        while i < self.waiting.len()
            invariant
                i <= self.waiting@.len(),
                forall|j: int| 0 <= j < i ==> (#[trigger] self.waiting@[j])@ != user_id@,
            decreases self.waiting@.len() - i,
        {
            if same_id(self.waiting[i].as_str(), user_id.as_str()) {
                proof {
                    assert(self.waiting_ids()[i as int] == user_id@);
                }
                return None;
            }
            i = i + 1;
        }
        proof {
            assert(!self.waiting_ids().contains(user_id@)) by {
                if self.waiting_ids().contains(user_id@) {
                    let j = choose|j: int| 0 <= j < self.waiting_ids().len() && self.waiting_ids()[j] == user_id@;
                    assert(self.waiting@[j]@ == user_id@);
                }
            }
        }
        let ghost q = self.waiting_ids().push(user_id@);
        self.waiting.push(user_id);
        proof {
            assert(self.waiting_ids() =~= q);
        }
        if self.waiting.len() >= PLAYERS_PER_MATCH {
            let mut matched: Vec<String> = Vec::new();
            let mut k: usize = 0;
            while k < PLAYERS_PER_MATCH
                invariant
                    k <= PLAYERS_PER_MATCH,
                    PLAYERS_PER_MATCH <= q.len(),
                    self.waiting@.len() + k == q.len(),
                    ids_of(matched@) == q.subrange(0, k as int),
                    ids_of(self.waiting@) == q.subrange(k as int, q.len() as int),
                decreases PLAYERS_PER_MATCH - k,
            {
                let ghost w0 = self.waiting@;
                let ghost m0 = matched@;
                let first = self.waiting.remove(0);
                proof {
                    assert(ids_of(w0)[0] == q[k as int]);
                    assert(first@ == q[k as int]);
                }
                matched.push(first);
                proof {
                    assert(matched@ == m0.push(first));
                    assert(self.waiting@ == w0.remove(0));
                    assert forall|j: int| 0 <= j < k + 1 implies #[trigger] ids_of(matched@)[j] == q.subrange(0, k as int + 1)[j] by {
                        assert(ids_of(m0).len() == k);
                        assert(ids_of(matched@)[j] == matched@[j]@);
                        if j < k {
                            assert(ids_of(m0)[j] == q.subrange(0, k as int)[j]);
                            assert(matched@[j] == m0[j]);
                        } else {
                            assert(matched@[j] == first);
                        }
                    }
                    assert(ids_of(m0).len() == m0.len());
                    assert(ids_of(m0) == q.subrange(0, k as int));
                    assert(m0.len() == k);
                    assert(ids_of(matched@).len() == matched@.len());
                    assert(ids_of(matched@).len() == k + 1);
                    assert(ids_of(matched@) =~= q.subrange(0, k as int + 1));
                    assert forall|j: int| 0 <= j < self.waiting@.len() implies #[trigger] ids_of(self.waiting@)[j] == q.subrange(k as int + 1, q.len() as int)[j] by {
                        assert(self.waiting@[j] == w0[j + 1]);
                        assert(ids_of(w0)[j + 1] == q.subrange(k as int, q.len() as int)[j + 1]);
                    }
                    assert(ids_of(self.waiting@) =~= q.subrange(k as int + 1, q.len() as int));
                }
                k = k + 1;
            }
            Some(matched)
        } else {
            None
        }
    }

    /// Takes `user_id` out of the queue.
    pub fn leave(&mut self, user_id: &str)
        ensures
            final(self).waiting_ids() == without_id(old(self).waiting_ids(), user_id@),
    {
        let ghost old_ids = self.waiting_ids();
        let mut kept: Vec<String> = Vec::new();
        let mut i: usize = 0;
        while i < self.waiting.len()
            invariant
                i <= self.waiting@.len(),
                old_ids == ids_of(self.waiting@),
                ids_of(kept@) == without_id(old_ids.subrange(0, i as int), user_id@),
            decreases self.waiting@.len() - i,
        {
            proof {
                assert(old_ids.subrange(0, i as int + 1).drop_last() =~= old_ids.subrange(0, i as int));
            }
            if !same_id(self.waiting[i].as_str(), user_id) {
                kept.push(self.waiting[i].clone());
                proof {
                    assert(ids_of(kept@) =~= without_id(old_ids.subrange(0, i as int), user_id@).push(old_ids[i as int]));
                }
            }
            i = i + 1;
        }
        proof {
            assert(old_ids.subrange(0, i as int) =~= old_ids);
        }
        self.waiting = kept;
    }
}

} // verus!
