//! Keeping all the candidates that share the best score.
use vstd::prelude::*;

verus! {

/// The best score seen so far and every candidate that reached it.
pub struct Winners<T> {
    best_score: Option<u64>,
    winners: Vec<T>,
}

impl<T> Winners<T> {
    /// The best score so far.
    pub closed spec fn best(&self) -> Option<u64> {
        self.best_score
    }

    /// The candidates with the best score, in the order they came.
    pub closed spec fn candidates(&self) -> Seq<T> {
        self.winners@
    }

    /// Nothing seen yet.
    pub fn new() -> (r: Winners<T>)
        ensures
            r.best() is None,
            r.candidates() == Seq::<T>::empty(),
    {
        Winners { best_score: None, winners: Vec::new() }
    }

    /// Considers `candidate` with `score`; a greater score is better.
    pub fn add(&mut self, score: u64, candidate: T)
        ensures
            match old(self).best() {
                None => final(self).best() == Some(score) && final(self).candidates() == seq![candidate],
                Some(b) => if score > b {
                    final(self).best() == Some(score) && final(self).candidates() == seq![candidate]
                } else if score == b {
                    final(self).best() == Some(b) && final(self).candidates() == old(self).candidates().push(candidate)
                } else {
                    final(self).best() == Some(b) && final(self).candidates() == old(self).candidates()
                },
            },
    {
        match self.best_score {
            None => {
                self.best_score = Some(score);
                let mut w: Vec<T> = Vec::new();
                w.push(candidate);
                self.winners = w;
                proof {
                    assert(self.winners@ =~= seq![candidate]);
                }
            },
            Some(best) => {
                if score > best {
                    self.best_score = Some(score);
                    let mut w: Vec<T> = Vec::new();
                    w.push(candidate);
                    self.winners = w;
                    proof {
                        assert(self.winners@ =~= seq![candidate]);
                    }
                } else if score == best {
                    self.winners.push(candidate);
                }
            },
        }
    }

    /// The best score and its candidates, if anything was seen.
    pub fn into_result(self) -> (r: Option<(u64, Vec<T>)>)
        ensures
            r is None <==> self.best() is None,
            r matches Some(x) ==> Some(x.0) == self.best() && x.1@ == self.candidates(),
    {
        match self.best_score {
            None => None,
            Some(b) => Some((b, self.winners)),
        }
    }
}

/// The number of scores in `d` equal to `b`.
pub open spec fn count_score(d: Seq<u64>, b: u64) -> nat
    decreases d.len(),
{
    if d.len() == 0 {
        0
    } else {
        count_score(d.drop_last(), b) + if d.last() == b { 1nat } else { 0nat }
    }
}

proof fn lemma_count_absent(d: Seq<u64>, b: u64)
    requires
        forall|k: int| 0 <= k < d.len() ==> d[k] < b,
    ensures
        count_score(d, b) == 0,
    decreases d.len(),
{
    if d.len() > 0 {
        lemma_count_absent(d.drop_last(), b);
    }
}

/// The candidates of `d` whose score is `b`, in order.
pub open spec fn with_score<T>(d: Seq<(u64, T)>, b: u64) -> Seq<T>
    decreases d.len(),
{
    if d.len() == 0 {
        Seq::empty()
    } else if d.last().0 == b {
        with_score(d.drop_last(), b).push(d.last().1)
    } else {
        with_score(d.drop_last(), b)
    }
}

proof fn lemma_with_score_absent<T>(d: Seq<(u64, T)>, b: u64)
    requires
        forall|k: int| 0 <= k < d.len() ==> (#[trigger] d[k]).0 < b,
    ensures
        with_score(d, b) == Seq::<T>::empty(),
    decreases d.len(),
{
    if d.len() > 0 {
        lemma_with_score_absent(d.drop_last(), b);
    }
}

/// The scores of `scored`, in order.
pub open spec fn scores_of<T>(scored: Seq<(u64, T)>) -> Seq<u64> {
    scored.map_values(|p: (u64, T)| p.0)
}

/// The greatest score of `scored` and the candidates that reach it, in order.
pub fn run_iter<T>(scored: Vec<(u64, T)>) -> (r: Option<(u64, Vec<T>)>)
    ensures
        r is None <==> scored@.len() == 0,
        r matches Some(x) ==> forall|k: int| 0 <= k < scored@.len() ==> (#[trigger] scored@[k]).0 <= x.0,
        r matches Some(x) ==> exists|k: int| 0 <= k < scored@.len() && (#[trigger] scored@[k]).0 == x.0,
        r matches Some(x) ==> x.1@.len() == count_score(scores_of(scored@), x.0),
        r matches Some(x) ==> x.1@ == with_score(scored@, x.0),
{
    let ghost all = scored@;
    let mut rest = scored;
    let mut rev: Vec<(u64, T)> = Vec::new();
    while rest.len() > 0
        invariant
            rest@ + rev@.reverse() == all,
        decreases rest@.len(),
    {
        let ghost before_rest = rest@;
        let ghost before_rev = rev@;
        let x = rest.pop().unwrap();
        rev.push(x);
        proof {
            assert(rev@.reverse() =~= seq![x] + before_rev.reverse());
            assert(before_rest =~= rest@.push(x));
            assert(rest@ + rev@.reverse() =~= before_rest + before_rev.reverse());
        }
    }
    proof {
        assert(rev@.reverse() =~= all);
    }
    let mut winners: Winners<T> = Winners::new();
    let ghost mut done: Seq<(u64, T)> = Seq::empty();
    while rev.len() > 0
        invariant
            done + rev@.reverse() == all,
            winners.best() is None <==> done.len() == 0,
            winners.best() matches Some(b) ==> forall|k: int| 0 <= k < done.len() ==> (#[trigger] done[k]).0 <= b,
            winners.best() matches Some(b) ==> exists|k: int| 0 <= k < done.len() && (#[trigger] done[k]).0 == b,
            winners.best() matches Some(b) ==> winners.candidates().len() == count_score(scores_of(done), b),
            winners.best() matches Some(b) ==> winners.candidates() == with_score(done, b),
        decreases rev@.len(),
    {
        let ghost before_rev = rev@;
        let ghost before_done = done;
        let ghost old_best = winners.best();
        let ghost old_len = winners.candidates().len();
        let (score, candidate) = rev.pop().unwrap();
        proof {
            let x = before_rev.last();
            assert(before_rev.reverse() =~= seq![x] + rev@.reverse());
            done = done.push(x);
            assert(done + rev@.reverse() =~= before_done + before_rev.reverse());
            assert(scores_of(done).drop_last() =~= scores_of(before_done));
            assert(scores_of(done).last() == score);
        }
        winners.add(score, candidate);
        proof {
            let last = before_done.len() as int;
            let nb = winners.best().unwrap();
            assert(done.drop_last() =~= before_done);
            assert(with_score(done, nb) == if score == nb { with_score(before_done, nb).push(candidate) } else { with_score(before_done, nb) });
            if before_done.len() == 0 {
                assert(with_score(before_done, nb) == Seq::<T>::empty());
            }
            assert(count_score(scores_of(done), nb) == count_score(scores_of(before_done), nb) + if score == nb { 1nat } else { 0nat });
            if before_done.len() == 0 {
                assert(count_score(scores_of(before_done), nb) == 0);
            }
            assert(done[last].0 == score);
            match old_best {
                None => {
                    assert(before_done.len() == 0);
                    assert(scores_of(before_done).len() == 0);
                },
                Some(b) => {
                    if score > b {
                        assert forall|k: int| 0 <= k < scores_of(before_done).len() implies scores_of(before_done)[k] < score by {
                            assert(before_done[k].0 <= b);
                        }
                        lemma_count_absent(scores_of(before_done), score);
                        lemma_with_score_absent(before_done, score);
                    }
                    assert forall|k: int| 0 <= k < done.len() implies (#[trigger] done[k]).0 <= winners.best().unwrap() by {
                        if k < last {
                            assert(done[k] == before_done[k]);
                        }
                    }
                    if score < b {
                        let k = choose|k: int| 0 <= k < before_done.len() && (#[trigger] before_done[k]).0 == b;
                        assert(done[k] == before_done[k]);
                    } else if score == b {
                        let k = choose|k: int| 0 <= k < before_done.len() && (#[trigger] before_done[k]).0 == b;
                        assert(done[k] == before_done[k]);
                    }
                },
            }
        }
    }
    proof {
        assert(done =~= all);
    }
    winners.into_result()
}

} // verus!
