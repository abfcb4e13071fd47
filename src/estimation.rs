//! Estimation: for each subject, the instances that explain its choices best.
use vstd::prelude::*;
use crate::common::{ChoiceRow, Subject};
use crate::model::{
    choice_spec,
    instance_of,
    reproduces,
    rows_within,
    traverse_all,
    traverse_fails,
    traverse_succeeds,
    total_penalty,
    Instance,
    InstanceError,
    Model,
    Penalty,
    PreorderParams,
};
use crate::precomputed::{Error as PreorderError, Precomputed};


verus! {

/// Why a subject could not be estimated.
#[derive(Clone, Copy, PartialEq, Eq, Structural, Debug)]
pub enum EstimationError {
    InstanceError(InstanceError),
    PreorderError(PreorderError),
}

/// One retained instance with its model and penalty.
#[derive(Clone, Debug)]
pub struct InstanceInfo {
    pub model: Model,
    pub penalty: Penalty,
    pub instance: Instance,
}

/// The result for one subject.
#[derive(Clone, Debug)]
pub struct Response {
    pub subject_name: String,
    pub score: Penalty,
    pub best_instances: Vec<InstanceInfo>,
}

/// `p` is strictly better than `q`: its whole interval lies below `q`'s.
pub open spec fn better(p: Penalty, q: Penalty) -> bool {
    p.upper_bound < q.lower_bound
}

/// The componentwise minimum of two penalties.
pub open spec fn merged(p: Penalty, q: Penalty) -> Penalty {
    Penalty {
        lower_bound: if q.lower_bound < p.lower_bound { q.lower_bound } else { p.lower_bound },
        upper_bound: if q.upper_bound < p.upper_bound { q.upper_bound } else { p.upper_bound },
    }
}

/// The instances tied for the best penalty so far.
pub struct BestInstances {
    lowest_penalty: Option<Penalty>,
    instances: Vec<InstanceInfo>,
}

impl BestInstances {
    /// The best penalty so far.
    pub closed spec fn lowest(&self) -> Option<Penalty> {
        self.lowest_penalty
    }

    /// The instances kept.
    pub closed spec fn kept(&self) -> Seq<InstanceInfo> {
        self.instances@
    }

    /// Nothing seen yet.
    pub fn new() -> (r: BestInstances)
        ensures
            r.lowest() is None,
            r.kept() == Seq::<InstanceInfo>::empty(),
    {
        BestInstances { lowest_penalty: None, instances: Vec::new() }
    }

    /// The largest upper bound among the kept instances of `model`.
    pub fn upper_bound_for(&self, model: Model) -> (r: Option<u32>)
        ensures
            r is None <==> forall|k: int| 0 <= k < self.kept().len() ==> (#[trigger] self.kept()[k]).model != model,
            r matches Some(u) ==> (exists|k: int| 0 <= k < self.kept().len() && (#[trigger] self.kept()[k]).model == model
                && self.kept()[k].penalty.upper_bound == u),
            r matches Some(u) ==> (forall|k: int| 0 <= k < self.kept().len() && (#[trigger] self.kept()[k]).model == model
                ==> self.kept()[k].penalty.upper_bound <= u),
    {
        let mut r: Option<u32> = None;
        let mut k: usize = 0;
        while k < self.instances.len()
            invariant
                k <= self.instances@.len(),
                r is None <==> forall|j: int| 0 <= j < k ==> (#[trigger] self.instances@[j]).model != model,
                r matches Some(u) ==> (exists|j: int| 0 <= j < k && (#[trigger] self.instances@[j]).model == model
                    && self.instances@[j].penalty.upper_bound == u),
                r matches Some(u) ==> (forall|j: int| 0 <= j < k && (#[trigger] self.instances@[j]).model == model
                    ==> self.instances@[j].penalty.upper_bound <= u),
            decreases self.instances@.len() - k,
        {
            let info = &self.instances[k];
            if info.model == model {
                let u = info.penalty.upper_bound;
                match r {
                    None => {
                        r = Some(u);
                    },
                    Some(v) => {
                        if u > v {
                            r = Some(u);
                        }
                    },
                }
            }
            k = k + 1;
        }
        r
    }

    /// Considers an instance with its penalty.
    pub fn add_instance(&mut self, model: Model, this_penalty: Penalty, instance: Instance)
        ensures
            ({
                let info = InstanceInfo { model, penalty: this_penalty, instance };
                match old(self).lowest() {
                    None => final(self).lowest() == Some(this_penalty) && final(self).kept() == seq![info],
                    Some(low) => if better(this_penalty, low) {
                        final(self).lowest() == Some(this_penalty) && final(self).kept() == seq![info]
                    } else if better(low, this_penalty) {
                        final(self).lowest() == Some(low) && final(self).kept() == old(self).kept()
                    } else {
                        final(self).lowest() == Some(merged(low, this_penalty))
                            && final(self).kept() == old(self).kept().push(info)
                    },
                }
            }),
    {
        let info = InstanceInfo { model, penalty: this_penalty, instance };
        match self.lowest_penalty {
            None => {
                let mut v: Vec<InstanceInfo> = Vec::new();
                v.push(info);
                self.instances = v;
                self.lowest_penalty = Some(this_penalty);
                proof {
                    assert(self.instances@ =~= seq![InstanceInfo { model, penalty: this_penalty, instance }]);
                }
            },
            Some(low) => {
                if this_penalty.upper_bound < low.lower_bound {
                    let mut v: Vec<InstanceInfo> = Vec::new();
                    v.push(info);
                    self.instances = v;
                    self.lowest_penalty = Some(this_penalty);
                    proof {
                        assert(self.instances@ =~= seq![InstanceInfo { model, penalty: this_penalty, instance }]);
                    }
                } else if this_penalty.lower_bound > low.upper_bound {
                } else {
                    let mut merged_penalty = low;
                    merged_penalty.merge_min(&this_penalty);
                    self.lowest_penalty = Some(merged_penalty);
                    self.instances.push(info);
                }
            },
        }
    }

    /// The kept instances whose lower bound does not exceed `bound`, in order.
    fn retained(instances: Vec<InstanceInfo>, bound: u32) -> (r: Vec<InstanceInfo>)
        ensures
            r@ == instances@.filter(|i: InstanceInfo| i.penalty.lower_bound <= bound),
    {
        let mut rest = instances;
        let ghost all = rest@;
        let mut rev: Vec<InstanceInfo> = Vec::new();
        while rest.len() > 0
            invariant
                rest@ + rev@.reverse() == all,
            decreases rest@.len(),
        {
            let ghost before_rest = rest@;
            let ghost before_rev = rev@;
            let x = rest.pop().unwrap();
            rev.push(x);
            proof {
                assert(rev@.reverse() =~= seq![x] + before_rev.reverse());
                assert(before_rest =~= rest@.push(x));
                assert(rest@ + rev@.reverse() =~= before_rest + before_rev.reverse());
            }
        }
        let mut out: Vec<InstanceInfo> = Vec::new();
        let ghost done: Seq<InstanceInfo> = Seq::empty();
        proof {
            assert(rev@.reverse() =~= all);
            assert(out@ =~= done.filter(|i: InstanceInfo| i.penalty.lower_bound <= bound));
        }
        while rev.len() > 0
            invariant
                done + rev@.reverse() == all,
                out@ == done.filter(|i: InstanceInfo| i.penalty.lower_bound <= bound),
            decreases rev@.len(),
        {
            let ghost before_rev = rev@;
            let x = rev.pop().unwrap();
            proof {
                done.lemma_filter_push(x, |i: InstanceInfo| i.penalty.lower_bound <= bound);
                assert(before_rev.reverse() =~= seq![x] + rev@.reverse());
                assert(done.push(x) + rev@.reverse() =~= done + before_rev.reverse());
                done = done.push(x);
            }
            if x.penalty.lower_bound <= bound {
                out.push(x);
            }
        }
        proof {
            assert(done =~= all);
        }
        out
    }

    /// The best penalty and the kept instances that can still reach it.
    pub fn finish(self) -> (r: Option<(Vec<InstanceInfo>, Penalty)>)
        ensures
            r is None <==> self.lowest() is None,
            r matches Some(x) ==> Some(x.1) == self.lowest()
                && x.0@ == self.kept().filter(|i: InstanceInfo| i.penalty.lower_bound <= x.1.upper_bound),
    {
        match self.lowest_penalty {
            None => None,
            Some(low) => Some((BestInstances::retained(self.instances, low.upper_bound), low)),
        }
    }

    /// Joins the results of two traversals.
    pub fn combine(self, other: BestInstances) -> (r: BestInstances)
        ensures
            self.lowest() is None ==> r.lowest() == other.lowest() && r.kept() == other.kept(),
            self.lowest() is Some && other.lowest() is None ==> r.lowest() == self.lowest() && r.kept() == self.kept(),
            self.lowest() matches Some(p) ==> (other.lowest() matches Some(q) ==> (if better(p, q) {
                r.lowest() == Some(p) && r.kept() == self.kept()
            } else if better(q, p) {
                r.lowest() == Some(q) && r.kept() == other.kept()
            } else {
                r.lowest() == Some(merged(p, q)) && r.kept() == self.kept().filter(
                    |i: InstanceInfo| i.penalty.lower_bound <= merged(p, q).upper_bound,
                ) + other.kept().filter(|i: InstanceInfo| i.penalty.lower_bound <= merged(p, q).upper_bound)
            })),
    {
        match (self.lowest_penalty, other.lowest_penalty) {
            (Some(p), Some(q)) => {
                if p.upper_bound < q.lower_bound {
                    self
                } else if p.lower_bound > q.upper_bound {
                    other
                } else {
                    let mut penalty = p;
                    penalty.merge_min(&q);
                    let mut instances = BestInstances::retained(self.instances, penalty.upper_bound);
                    let mut more = BestInstances::retained(other.instances, penalty.upper_bound);
                    instances.append(&mut more);
                    BestInstances { lowest_penalty: Some(penalty), instances }
                }
            },
            (None, _) => other,
            (_, None) => self,
        }
    }
}

/// `low` bounds the kept instances from below, and some kept instance reaches its upper
/// bound; every kept penalty is an interval.
pub open spec fn bounded(low: Option<Penalty>, kept: Seq<InstanceInfo>) -> bool {
    match low {
        None => kept.len() == 0,
        Some(l) => {
            &&& forall|k: int| 0 <= k < kept.len() ==> l.lower_bound <= (#[trigger] kept[k]).penalty.lower_bound
                && l.upper_bound <= kept[k].penalty.upper_bound && kept[k].penalty.lower_bound <= kept[k].penalty.upper_bound
            &&& exists|k: int| 0 <= k < kept.len() && (#[trigger] kept[k]).penalty.upper_bound == l.upper_bound
        },
    }
}

/// Adding an instance keeps the kept instances bounded.
pub proof fn lemma_add_bounded(
    ol: Option<Penalty>,
    ok: Seq<InstanceInfo>,
    nl: Option<Penalty>,
    nk: Seq<InstanceInfo>,
    info: InstanceInfo,
)
    requires
        bounded(ol, ok),
        info.penalty.lower_bound <= info.penalty.upper_bound,
        match ol {
            None => nl == Some(info.penalty) && nk == seq![info],
            Some(low) => if better(info.penalty, low) {
                nl == Some(info.penalty) && nk == seq![info]
            } else if better(low, info.penalty) {
                nl == Some(low) && nk == ok
            } else {
                nl == Some(merged(low, info.penalty)) && nk == ok.push(info)
            },
        },
    ensures
        bounded(nl, nk),
{
    match ol {
        None => {
            assert(nk[0] == info);
        },
        Some(low) => {
            if better(info.penalty, low) {
                assert(nk[0] == info);
            } else if better(low, info.penalty) {
            } else {
                let m = merged(low, info.penalty);
                assert(nk[ok.len() as int] == info);
                assert forall|k: int| 0 <= k < nk.len() implies m.lower_bound <= (#[trigger] nk[k]).penalty.lower_bound
                    && m.upper_bound <= nk[k].penalty.upper_bound && nk[k].penalty.lower_bound <= nk[k].penalty.upper_bound by {
                    if k < ok.len() {
                        assert(nk[k] == ok[k]);
                    }
                }
                if info.penalty.upper_bound < low.upper_bound {
                } else {
                    let w = choose|k: int| 0 <= k < ok.len() && (#[trigger] ok[k]).penalty.upper_bound == low.upper_bound;
                    assert(nk[w] == ok[w]);
                }
            }
        },
    }
}

/// Filtering keeps only elements of the sequence.
pub proof fn lemma_filter_within(s: Seq<InstanceInfo>, pred: spec_fn(InstanceInfo) -> bool)
    ensures
        forall|k: int| 0 <= k < s.filter(pred).len() ==> s.contains(#[trigger] s.filter(pred)[k]),
    decreases s.len(),
{
    if s.len() > 0 {
        let t = s.drop_last();
        assert(s =~= t.push(s.last()));
        lemma_filter_within(t, pred);
        t.lemma_filter_push(s.last(), pred);
        assert forall|k: int| 0 <= k < s.filter(pred).len() implies s.contains(#[trigger] s.filter(pred)[k]) by {
            if k < t.filter(pred).len() {
                assert(s.filter(pred)[k] == t.filter(pred)[k]);
                let j = choose|j: int| 0 <= j < t.len() && t[j] == t.filter(pred)[k];
                assert(s[j] == t[j]);
            } else {
                assert(s.filter(pred)[k] == s.last());
                assert(s[s.len() - 1] == s.last());
            }
        }
    } else {
        s.lemma_filter_len(pred);
    }
}

/// Joining two bounded results gives a bounded result.
pub proof fn lemma_combine_bounded(
    pl: Option<Penalty>,
    pk: Seq<InstanceInfo>,
    ql: Option<Penalty>,
    qk: Seq<InstanceInfo>,
    rl: Option<Penalty>,
    rk: Seq<InstanceInfo>,
)
    requires
        bounded(pl, pk),
        bounded(ql, qk),
        pl is None ==> rl == ql && rk == qk,
        pl is Some && ql is None ==> rl == pl && rk == pk,
        pl matches Some(p) ==> (ql matches Some(q) ==> (if better(p, q) {
            rl == Some(p) && rk == pk
        } else if better(q, p) {
            rl == Some(q) && rk == qk
        } else {
            rl == Some(merged(p, q)) && rk == pk.filter(
                |i: InstanceInfo| i.penalty.lower_bound <= merged(p, q).upper_bound,
            ) + qk.filter(|i: InstanceInfo| i.penalty.lower_bound <= merged(p, q).upper_bound)
        })),
    ensures
        bounded(rl, rk),
{
    match pl {
        Some(p) => match ql {
            Some(q) => {
                if !better(p, q) && !better(q, p) {
                    let m = merged(p, q);
                    let pred = |i: InstanceInfo| i.penalty.lower_bound <= m.upper_bound;
                    let a = pk.filter(pred);
                    let c = qk.filter(pred);
                    assert(rk == a + c);
                    lemma_filter_within(pk, pred);
                    lemma_filter_within(qk, pred);
                    assert forall|k: int| 0 <= k < rk.len() implies m.lower_bound <= (#[trigger] rk[k]).penalty.lower_bound
                        && m.upper_bound <= rk[k].penalty.upper_bound && rk[k].penalty.lower_bound <= rk[k].penalty.upper_bound by {
                        if k < a.len() {
                            assert(rk[k] == a[k]);
                            let j = choose|j: int| 0 <= j < pk.len() && pk[j] == a[k];
                        } else {
                            assert(rk[k] == c[k - a.len()]);
                            let j = choose|j: int| 0 <= j < qk.len() && qk[j] == c[k - a.len()];
                        }
                    }
                    if p.upper_bound <= q.upper_bound {
                        let w = choose|k: int| 0 <= k < pk.len() && (#[trigger] pk[k]).penalty.upper_bound == p.upper_bound;
                        pk.lemma_filter_contains(pred, w);
                        let j = choose|j: int| 0 <= j < a.len() && a[j] == pk[w];
                        assert(rk[j] == a[j]);
                    } else {
                        let w = choose|k: int| 0 <= k < qk.len() && (#[trigger] qk[k]).penalty.upper_bound == q.upper_bound;
                        qk.lemma_filter_contains(pred, w);
                        let j = choose|j: int| 0 <= j < c.len() && c[j] == qk[w];
                        assert(rk[a.len() + j] == c[j]);
                    }
                }
            },
            None => {},
        },
        None => {},
    }
}

/// The rows are fit for every requested model on `n` alternatives: menus of those
/// alternatives, non-empty, with a default from the menu where a model needs one.
pub open spec fn rows_fit(choices: Seq<ChoiceRow>, n: int, models: Seq<Model>) -> bool {
    &&& rows_within(choices, n)
    &&& choices.len() <= u32::MAX
    &&& models.contains(Model::StatusQuoUndominatedChoice) ==> forall|k: int|
        0 <= k < choices.len() ==> (#[trigger] choices[k]).default is Some && choices[k].menu.alts().contains(
            choices[k].default.unwrap(),
        )
    &&& models.contains(Model::SequentiallyRationalizableChoice) ==> forall|k: int|
        0 <= k < choices.len() ==> (#[trigger] choices[k]).choice.alts().len() == 1
}

/// Every instance of `model`, scored against `choices`.
pub fn evaluate_model(precomputed: &Precomputed, model: Model, alt_count: u32, choices: &[ChoiceRow]) -> (r: Result<
    BestInstances,
    EstimationError,
>)
    requires
        precomputed.wf(),
        rows_within(choices@, alt_count as int),
        choices@.len() <= u32::MAX,
        model == Model::StatusQuoUndominatedChoice ==> forall|k: int|
            0 <= k < choices@.len() ==> (#[trigger] choices@[k]).default is Some && choices@[k].menu.alts().contains(
                choices@[k].default.unwrap(),
            ),
        model == Model::SequentiallyRationalizableChoice ==> forall|k: int|
            0 <= k < choices@.len() ==> (#[trigger] choices@[k]).choice.alts().len() == 1,
    ensures
        r matches Ok(b) ==> forall|k: int| 0 <= k < b.kept().len() ==> {
            let i = #[trigger] b.kept()[k];
            &&& i.model == model
            &&& instance_of(&i.instance, model, alt_count as int)
            &&& i.penalty.upper_bound == total_penalty(&i.instance, choices@)
        },
        r matches Ok(b) ==> bounded(b.lowest(), b.kept()),
        r matches Err(e) ==> e == EstimationError::InstanceError(
            InstanceError::TooManyAlternatives { model, alt_count },
        ),
        traverse_fails(model, alt_count as int, precomputed.count()) ==> r is Err,
        traverse_succeeds(model, alt_count as int, precomputed.count()) ==> r is Ok,
{
    let instances = match traverse_all(precomputed, model, alt_count, choices) {
        Ok(v) => v,
        Err(e) => {
            return Err(EstimationError::InstanceError(e));
        },
    };
    let mut best = BestInstances::new();
    let mut rest = instances;
    proof {
        assert(best.kept().len() == 0);
    }
    while rest.len() > 0
        invariant
            rows_within(choices@, alt_count as int),
            choices@.len() <= u32::MAX,
            model == Model::StatusQuoUndominatedChoice ==> forall|k: int|
                0 <= k < choices@.len() ==> (#[trigger] choices@[k]).default is Some && choices@[k].menu.alts().contains(
                    choices@[k].default.unwrap(),
                ),
            model == Model::SequentiallyRationalizableChoice ==> forall|k: int|
                0 <= k < choices@.len() ==> (#[trigger] choices@[k]).choice.alts().len() == 1,
            forall|k: int| 0 <= k < rest@.len() ==> instance_of(#[trigger] &rest@[k], model, alt_count as int),
            model == Model::SequentiallyRationalizableChoice ==> forall|k: int| 0 <= k < rest@.len() ==> reproduces(#[trigger] &rest@[k], choices@),
            bounded(best.lowest(), best.kept()),
            forall|k: int| 0 <= k < best.kept().len() ==> {
                let i = #[trigger] best.kept()[k];
                &&& i.model == model
                &&& instance_of(&i.instance, model, alt_count as int)
                &&& i.penalty.upper_bound == total_penalty(&i.instance, choices@)
            },
        decreases rest@.len(),
    {
        let inst = rest.pop().unwrap();
        proof {
            assert forall|k: int| 0 <= k < choices@.len() implies inst.valid_menu((#[trigger] choices@[k]).menu.alts(), choices@[k].default) by {
                if inst is StatusQuoUndominatedChoice {
                    assert(model == Model::StatusQuoUndominatedChoice);
                }
                if inst is SequentiallyRationalizableChoice {
                    assert(model == Model::SequentiallyRationalizableChoice);
                    assert(reproduces(&inst, choices@));
                    assert(choice_spec(&inst, choices@[k].menu.alts(), choices@[k].default) == choices@[k].choice.alts());
                }
            }
        }
        let penalty = inst.penalty(choices);
        let ghost old_kept = best.kept();
        let ghost old_low = best.lowest();
        let ghost info = InstanceInfo { model, penalty, instance: inst };
        best.add_instance(model, penalty, inst);
        proof {
            lemma_add_bounded(old_low, old_kept, best.lowest(), best.kept(), info);
            assert forall|k: int| 0 <= k < best.kept().len() implies {
                let i = #[trigger] best.kept()[k];
                &&& i.model == model
                &&& instance_of(&i.instance, model, alt_count as int)
                &&& i.penalty.upper_bound == total_penalty(&i.instance, choices@)
            } by {
                if k < old_kept.len() && best.kept().len() > 1 {
                    assert(best.kept()[k] == old_kept[k]);
                }
            }
        }
    }
    Ok(best)
}

/// A retained instance is one of the requested models, on `n` alternatives, with its
/// penalty against `choices`.
pub open spec fn good_info(i: InstanceInfo, models: Seq<Model>, n: int, choices: Seq<ChoiceRow>) -> bool {
    &&& models.contains(i.model)
    &&& instance_of(&i.instance, i.model, n)
    &&& i.penalty.upper_bound == total_penalty(&i.instance, choices)
}

/// Filtering keeps a property that every element has.
pub proof fn lemma_filter_keeps(
    s: Seq<InstanceInfo>,
    pred: spec_fn(InstanceInfo) -> bool,
    models: Seq<Model>,
    n: int,
    choices: Seq<ChoiceRow>,
)
    requires
        forall|k: int| 0 <= k < s.len() ==> good_info(#[trigger] s[k], models, n, choices),
    ensures
        forall|k: int| 0 <= k < s.filter(pred).len() ==> good_info(#[trigger] s.filter(pred)[k], models, n, choices),
    decreases s.len(),
{
    if s.len() > 0 {
        let t = s.drop_last();
        assert(s =~= t.push(s.last()));
        lemma_filter_keeps(t, pred, models, n, choices);
        t.lemma_filter_push(s.last(), pred);
        assert forall|k: int| 0 <= k < s.filter(pred).len() implies good_info(#[trigger] s.filter(pred)[k], models, n, choices) by {
            if k < t.filter(pred).len() {
                assert(s.filter(pred)[k] == t.filter(pred)[k]);
            }
        }
    } else {
        assert(s.filter(pred).len() == 0) by {
            s.lemma_filter_len(pred);
        }
    }
}

/// The instances that `combine` keeps are all good when those of both sides are.
proof fn lemma_combine_good(
    bk: Seq<InstanceInfo>,
    ok: Seq<InstanceInfo>,
    bl: Option<Penalty>,
    ol: Option<Penalty>,
    rk: Seq<InstanceInfo>,
    models: Seq<Model>,
    n: int,
    choices: Seq<ChoiceRow>,
)
    requires
        forall|j: int| 0 <= j < bk.len() ==> good_info(#[trigger] bk[j], models, n, choices),
        forall|j: int| 0 <= j < ok.len() ==> good_info(#[trigger] ok[j], models, n, choices),
        bl is None ==> rk == ok,
        bl is Some && ol is None ==> rk == bk,
        bl matches Some(p) ==> (ol matches Some(q) ==> (if better(p, q) {
            rk == bk
        } else if better(q, p) {
            rk == ok
        } else {
            rk == bk.filter(|i: InstanceInfo| i.penalty.lower_bound <= merged(p, q).upper_bound) + ok.filter(
                |i: InstanceInfo| i.penalty.lower_bound <= merged(p, q).upper_bound,
            )
        })),
    ensures
        forall|j: int| 0 <= j < rk.len() ==> good_info(#[trigger] rk[j], models, n, choices),
{
    match bl {
        Some(p) => match ol {
            Some(q) => {
                if !better(p, q) && !better(q, p) {
                    let pred = |i: InstanceInfo| i.penalty.lower_bound <= merged(p, q).upper_bound;
                    lemma_filter_keeps(bk, pred, models, n, choices);
                    lemma_filter_keeps(ok, pred, models, n, choices);
                    let a = bk.filter(pred);
                    let c = ok.filter(pred);
                    assert(rk == a + c);
                    assert forall|j: int| 0 <= j < rk.len() implies good_info(#[trigger] rk[j], models, n, choices) by {
                        if j < a.len() {
                            assert(rk[j] == a[j]);
                        } else {
                            assert(rk[j] == c[j - a.len()]);
                        }
                    }
                }
            },
            None => {},
        },
        None => {},
    }
}

/// Estimates one subject under each of `models`. Sequentially rationalizable choice is
/// tried last, and only when neither strict undominated choice nor linear preorder
/// maximization already explains every row. `None` when no instance was found at all.
pub fn run_one(precomputed: &Precomputed, subject: &Subject, models: &[Model]) -> (r: Result<
    Option<Response>,
    EstimationError,
>)
    requires
        precomputed.wf(),
        subject.alternatives@.len() <= u32::MAX,
        rows_fit(subject.choices@, subject.alternatives@.len() as int, models@),
    ensures
        r matches Ok(Some(resp)) ==> resp.subject_name@ == subject.name@,
        r matches Ok(Some(resp)) ==> forall|k: int| 0 <= k < resp.best_instances@.len() ==> good_info(
            #[trigger] resp.best_instances@[k],
            models@,
            subject.alternatives@.len() as int,
            subject.choices@,
        ),
        r matches Ok(Some(resp)) ==> forall|k: int| 0 <= k < resp.best_instances@.len() ==> (#[trigger] resp.best_instances@[k]).penalty.lower_bound <= resp.score.upper_bound,
        r matches Ok(Some(resp)) ==> forall|k: int| 0 <= k < resp.best_instances@.len() ==> resp.score.lower_bound
            <= (#[trigger] resp.best_instances@[k]).penalty.lower_bound && resp.score.upper_bound <= resp.best_instances@[k].penalty.upper_bound,
        r matches Ok(Some(resp)) ==> exists|k: int| 0 <= k < resp.best_instances@.len() && (#[trigger] resp.best_instances@[k]).penalty.upper_bound == resp.score.upper_bound,
        r matches Err(e) ==> exists|k: int| 0 <= k < models@.len() && e == EstimationError::InstanceError(
            InstanceError::TooManyAlternatives { model: #[trigger] models@[k], alt_count: subject.alternatives@.len() as u32 },
        ),
        (forall|k: int| 0 <= k < models@.len() ==> traverse_succeeds(#[trigger] models@[k], subject.alternatives@.len() as int, precomputed.count())) ==> r is Ok,
        (exists|k: int| 0 <= k < models@.len() && models@[k] != Model::SequentiallyRationalizableChoice
            && traverse_fails(#[trigger] models@[k], subject.alternatives@.len() as int, precomputed.count())) ==> r is Err,
{
    let alt_count = subject.alternatives.len() as u32;
    let choices = subject.choices.as_slice();
    let ghost n = alt_count as int;
    let mut best = BestInstances::new();
    let mut wants_src = false;
    let mut k: usize = 0;
    while k < models.len()
        invariant
            precomputed.wf(),
            alt_count == subject.alternatives@.len(),
            n == alt_count,
            choices@ == subject.choices@,
            rows_fit(choices@, n, models@),
            k <= models@.len(),
            wants_src ==> models@.contains(Model::SequentiallyRationalizableChoice),
            forall|j: int| 0 <= j < best.kept().len() ==> good_info(#[trigger] best.kept()[j], models@, n, choices@),
            bounded(best.lowest(), best.kept()),
            forall|j: int| 0 <= j < k && models@[j] != Model::SequentiallyRationalizableChoice ==> !traverse_fails(#[trigger] models@[j], n, precomputed.count()),
        decreases models@.len() - k,
    {
        let model = models[k];
        proof {
            assert(models@[k as int] == model);
            assert(models@.contains(model));
        }
        if model == Model::SequentiallyRationalizableChoice {
            wants_src = true;
        } else {
            let b = match evaluate_model(precomputed, model, alt_count, choices) {
                Ok(b) => b,
                Err(e) => {
                    return Err(e);
                },
            };
            proof {
                assert forall|j: int| 0 <= j < b.kept().len() implies good_info(#[trigger] b.kept()[j], models@, n, choices@) by {
                    let i = b.kept()[j];
                    assert(i.model == model);
                }
            }
            let ghost bk = best.kept();
            let ghost ok = b.kept();
            let ghost bl = best.lowest();
            let ghost ol = b.lowest();
            best = best.combine(b);
            proof {
                lemma_combine_good(bk, ok, bl, ol, best.kept(), models@, n, choices@);
                lemma_combine_bounded(bl, bk, ol, ok, best.lowest(), best.kept());
            }
        }
        k = k + 1;
    }
    proof {
        assert forall|j: int| 0 <= j < models@.len() && models@[j] != Model::SequentiallyRationalizableChoice implies !traverse_fails(#[trigger] models@[j], n, precomputed.count()) by {}
    }
    if wants_src {
        let uc = best.upper_bound_for(Model::UndominatedChoice { strict: true });
        let um = best.upper_bound_for(Model::PreorderMaximization(PreorderParams { strict: Some(true), total: Some(true) }));
        if uc != Some(0u32) && um != Some(0u32) {
            let model = Model::SequentiallyRationalizableChoice;
            let b = match evaluate_model(precomputed, model, alt_count, choices) {
                Ok(b) => b,
                Err(e) => {
                    proof {
                        let w = choose|w: int| 0 <= w < models@.len() && models@[w] == model;
                        assert(e == EstimationError::InstanceError(InstanceError::TooManyAlternatives { model: models@[w], alt_count }));
                    }
                    return Err(e);
                },
            };
            proof {
                assert forall|j: int| 0 <= j < b.kept().len() implies good_info(#[trigger] b.kept()[j], models@, n, choices@) by {
                    let i = b.kept()[j];
                    assert(i.model == model);
                }
            }
            let ghost bk = best.kept();
            let ghost ok = b.kept();
            let ghost bl = best.lowest();
            let ghost ol = b.lowest();
            best = best.combine(b);
            proof {
                lemma_combine_good(bk, ok, bl, ol, best.kept(), models@, n, choices@);
                lemma_combine_bounded(bl, bk, ol, ok, best.lowest(), best.kept());
            }
        }
    }
    let ghost kept = best.kept();
    let ghost low = best.lowest();
    match best.finish() {
        None => Ok(None),
        Some((best_instances, score)) => {
            proof {
                let pred = |i: InstanceInfo| i.penalty.lower_bound <= score.upper_bound;
                lemma_filter_keeps(kept, pred, models@, n, choices@);
                assert forall|j: int| 0 <= j < best_instances@.len() implies (#[trigger] best_instances@[j]).penalty.lower_bound <= score.upper_bound by {
                    kept.lemma_filter_pred(pred, j);
                }
                lemma_filter_within(kept, pred);
                assert forall|j: int| 0 <= j < best_instances@.len() implies score.lower_bound <= (#[trigger] best_instances@[j]).penalty.lower_bound
                    && score.upper_bound <= best_instances@[j].penalty.upper_bound by {
                    assert(kept.contains(best_instances@[j]));
                    let w = choose|w: int| 0 <= w < kept.len() && kept[w] == best_instances@[j];
                }
                let w = choose|w: int| 0 <= w < kept.len() && (#[trigger] kept[w]).penalty.upper_bound == score.upper_bound;
                kept.lemma_filter_contains(pred, w);
                let j = choose|j: int| 0 <= j < best_instances@.len() && best_instances@[j] == kept[w];
                assert(best_instances@[j].penalty.upper_bound == score.upper_bound);
            }
            Ok(Some(Response { subject_name: subject.name.clone(), score, best_instances }))
        },
    }
}

} // verus!
