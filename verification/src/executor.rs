//! The time-ordered run loop's schedule: buckets of graphs keyed by
//! their next trigger time, kept sorted so the nearest deadline is
//! always at the tail. The loop that sleeps until a deadline and
//! re-arms each graph drives this structure from outside the library.

use vstd::prelude::*;

use crate::errors::CronError;
use crate::expression::expr_matches;
use crate::graph::Graph;
use crate::timepoint::{TimePoint, MAX_YEAR};

verus! {

/// Buckets of graphs due at the same instant, latest first: the bucket
/// at the tail holds the nearest deadline.
pub struct Executor {
    pub schedule: Vec<(TimePoint, Vec<Graph>)>,
}

/// Bucket times are strictly descending (so also pairwise distinct),
/// within calendar ranges, and every held graph is well formed.
pub open spec fn executor_wf(e: Executor) -> bool {
    &&& forall|i: int, j: int|
        0 <= i < j < e.schedule@.len() ==> (#[trigger] e.schedule@[j]).0.lt(
            #[trigger] e.schedule@[i].0,
        )
    &&& forall|i: int| 0 <= i < e.schedule@.len() ==> (#[trigger] e.schedule@[i]).0.in_ranges()
    &&& forall|i: int, k: int|
        #![trigger e.schedule@[i].1@[k]]
        0 <= i < e.schedule@.len() && 0 <= k < e.schedule@[i].1@.len() ==> e.schedule@[i].1@[k].wf()
}

/// Two instants in calendar ranges that neither precedes are the same.
pub proof fn lemma_tp_total(a: TimePoint, b: TimePoint)
    requires
        a.in_ranges(),
        b.in_ranges(),
        !a.lt(b),
        !b.lt(a),
    ensures
        a == b,
{
    assert(a.month_index() == b.month_index());
    assert(a.year == b.year && a.month == b.month) by (nonlinear_arith)
        requires
            a.year * 12 + a.month == b.year * 12 + b.month,
            1 <= a.month <= 12,
            1 <= b.month <= 12,
    ;
}

/// Bucket `bi` of the schedule holds the just-inserted graph at its
/// tail; its deadline is the earliest instant strictly after `now` that
/// satisfies the graph's trigger expression.
pub open spec fn added_at(e: Executor, graph: Graph, now: TimePoint, bi: int) -> bool {
    &&& 0 <= bi < e.schedule@.len()
    &&& e.schedule@[bi].1@.len() > 0
    &&& e.schedule@[bi].1@.last() == graph
    &&& now.lt(e.schedule@[bi].0)
    &&& expr_matches(graph.expression.unwrap(), e.schedule@[bi].0)
    &&& forall|u: TimePoint|
        #[trigger] expr_matches(graph.expression.unwrap(), u) && now.lt(u) ==> !u.lt(
            e.schedule@[bi].0,
        )
}

/// How an insertion reshapes the schedule: either the graph joined the
/// existing bucket `bi` (everything else untouched), or a fresh
/// one-graph bucket appeared at `bi` with the others shifted around it.
pub open spec fn add_frame(
    pre: Seq<(TimePoint, Vec<Graph>)>,
    post: Seq<(TimePoint, Vec<Graph>)>,
    g: Graph,
    bi: int,
) -> bool {
    ||| (post.len() == pre.len() && 0 <= bi < pre.len() && (forall|j: int|
        0 <= j < pre.len() && j != bi ==> #[trigger] post[j] == pre[j]) && post[bi].0
        == pre[bi].0 && post[bi].1@ == pre[bi].1@.push(g))
    ||| (post.len() == pre.len() + 1 && 0 <= bi < post.len() && (forall|j: int|
        0 <= j < bi ==> #[trigger] post[j] == pre[j]) && (forall|j: int|
        bi < j < post.len() ==> #[trigger] post[j] == pre[j - 1]) && post[bi].1@ == seq![g])
}

impl Executor {
    pub fn new() -> (r: Executor)
        ensures
            executor_wf(r),
            r.schedule@.len() == 0,
    {
        Executor { schedule: Vec::new() }
    }

    /// Insert a graph under its next trigger time after `now`: into the
    /// bucket already keyed by that instant, or into a fresh bucket at
    /// the position that keeps the deadlines descending. Fails exactly
    /// when the graph's trigger cannot be resolved from `now`.
    pub fn add(&mut self, graph: Graph, now: &TimePoint) -> (r: Result<(), CronError>)
        requires
            executor_wf(*old(self)),
            graph.wf(),
            !(graph.expression is None),
            now.in_ranges(),
            now.year <= MAX_YEAR,
        ensures
            r is Ok ==> executor_wf(*final(self)) && exists|bi: int|
                #[trigger] added_at(*final(self), graph, *now, bi) && add_frame(
                    old(self).schedule@,
                    final(self).schedule@,
                    graph,
                    bi,
                ),
            r is Err ==> *final(self) == *old(self) && r == Result::<(), CronError>::Err(
                CronError::ScheduleUnsatisfiable,
            ) && exists|mi0: int|
                mi0 >= now.month_index() && #[trigger] crate::expression::expr_unsat_window(
                    graph.expression.unwrap(),
                    mi0,
                ) && crate::expression::expr_no_match_below(
                    graph.expression.unwrap(),
                    *now,
                    mi0,
                ),
    {
        let next = match &graph.expression {
            Some(e) => match e.next(now) {
                Ok(t) => t,
                Err(err) => {
                    proof {
                        assert(crate::expression::expr_parses(*e));
                        assert(err != CronError::ParseError);
                        let mi0 = choose|mi0: int|
                            mi0 >= now.month_index()
                                && #[trigger] crate::expression::expr_unsat_window(*e, mi0)
                                && crate::expression::expr_no_match_below(*e, *now, mi0);
                        assert(crate::expression::expr_unsat_window(
                            graph.expression.unwrap(),
                            mi0,
                        ) && crate::expression::expr_no_match_below(
                            graph.expression.unwrap(),
                            *now,
                            mi0,
                        ));
                    }
                    return Err(err);
                },
            },
            None => {
                proof {
                    assert(false);
                }
                return Err(CronError::ScheduleUnsatisfiable);
            },
        };
        let mut idx: usize = 0;
        while idx < self.schedule.len() && next.before(&self.schedule[idx].0)
            invariant
                executor_wf(*self),
                *self == *old(self),
                next.in_ranges(),
                0 <= idx <= self.schedule@.len(),
                forall|j: int| 0 <= j < idx ==> next.lt((#[trigger] self.schedule@[j]).0),
            decreases self.schedule@.len() - idx,
        {
            proof {
                assert(next.lt(self.schedule@[idx as int].0));
            }
            idx += 1;
        }
        let ghost pre = self.schedule@;
        if idx < self.schedule.len() && !self.schedule[idx].0.before(&next) {
            // neither precedes the other: the same instant, merge
            proof {
                lemma_tp_total(next, pre[idx as int].0);
            }
            let mut bucket = self.schedule.remove(idx);
            bucket.1.push(graph);
            self.schedule.insert(idx, bucket);
            proof {
                assert(self.schedule@.len() == pre.len());
                assert(forall|j: int|
                    0 <= j < pre.len() && j != idx ==> #[trigger] self.schedule@[j] == pre[j]);
                assert(self.schedule@[idx as int].0 == pre[idx as int].0);
                assert(self.schedule@[idx as int].1@.last() == graph);
                assert forall|i: int, j: int|
                    0 <= i < j < self.schedule@.len() implies (#[trigger] self.schedule@[j]).0.lt(
                    #[trigger] self.schedule@[i].0,
                ) by {
                    assert(pre[j].0.lt(pre[i].0));
                }
                assert forall|i: int, k: int|
                    #![trigger self.schedule@[i].1@[k]]
                    0 <= i < self.schedule@.len() && 0 <= k
                        < self.schedule@[i].1@.len() implies self.schedule@[i].1@[k].wf() by {
                    if i == idx as int && k == self.schedule@[i].1@.len() - 1 {
                    } else {
                        assert(pre[i].1@[k].wf());
                    }
                }
                assert(self.schedule@[idx as int].0 == next);
                assert(self.schedule@[idx as int].1@ == pre[idx as int].1@.push(graph));
                assert(added_at(*self, graph, *now, idx as int));
                assert(add_frame(pre, self.schedule@, graph, idx as int));
            }
            Ok(())
        } else {
            // a fresh bucket between the later and the earlier deadlines
            let mut graphs: Vec<Graph> = Vec::new();
            graphs.push(graph);
            self.schedule.insert(idx, (next, graphs));
            proof {
                assert(self.schedule@.len() == pre.len() + 1);
                assert(forall|j: int| 0 <= j < idx ==> #[trigger] self.schedule@[j] == pre[j]);
                assert(forall|j: int|
                    idx < j < self.schedule@.len() ==> #[trigger] self.schedule@[j] == pre[j
                        - 1]);
                assert(self.schedule@[idx as int].0 == next);
                assert(self.schedule@[idx as int].1@.last() == graph);
                if (idx as int) < pre.len() {
                    assert(pre[idx as int].0.lt(next));
                }
                assert forall|i: int, j: int|
                    0 <= i < j < self.schedule@.len() implies (#[trigger] self.schedule@[j]).0.lt(
                    #[trigger] self.schedule@[i].0,
                ) by {
                    if j < idx as int {
                        assert(pre[j].0.lt(pre[i].0));
                    } else if i > idx as int {
                        assert(pre[j - 1].0.lt(pre[i - 1].0));
                    } else if j == idx as int {
                        assert(pre[i].0 == self.schedule@[i].0);
                        assert(next.lt(pre[i].0));
                    } else if i == idx as int {
                        assert(self.schedule@[j].0 == pre[j - 1].0);
                        if j - 1 > idx as int {
                            assert(pre[j - 1].0.lt(pre[idx as int].0));
                            assert(pre[idx as int].0.lt(next));
                        } else {
                            assert(j - 1 == idx as int);
                            assert(pre[idx as int].0.lt(next));
                        }
                    }
                }
                assert forall|i: int, k: int|
                    #![trigger self.schedule@[i].1@[k]]
                    0 <= i < self.schedule@.len() && 0 <= k
                        < self.schedule@[i].1@.len() implies self.schedule@[i].1@[k].wf() by {
                    if i < idx as int {
                        assert(pre[i].1@[k].wf());
                    } else if i > idx as int {
                        assert(pre[i - 1].1@[k].wf());
                    }
                }
                assert(added_at(*self, graph, *now, idx as int));
                assert(self.schedule@[idx as int].1@ =~= seq![graph]);
                assert(add_frame(pre, self.schedule@, graph, idx as int));
            }
            Ok(())
        }
    }

    /// Take the bucket with the nearest deadline, if any: every bucket
    /// still scheduled is due strictly later.
    pub fn pop_due(&mut self) -> (r: Option<(TimePoint, Vec<Graph>)>)
        requires
            executor_wf(*old(self)),
        ensures
            executor_wf(*final(self)),
            r is None <==> old(self).schedule@.len() == 0,
            r is None ==> final(self).schedule@ == old(self).schedule@,
            r matches Some(p) ==> {
                &&& p == old(self).schedule@.last()
                &&& final(self).schedule@ == old(self).schedule@.drop_last()
                &&& forall|i: int|
                    0 <= i < final(self).schedule@.len() ==> p.0.lt(
                        (#[trigger] final(self).schedule@[i]).0,
                    )
            },
    {
        match self.schedule.pop() {
            None => None,
            Some(p) => {
                proof {
                    assert forall|i: int|
                        0 <= i < self.schedule@.len() implies p.0.lt(
                        (#[trigger] self.schedule@[i]).0,
                    ) by {
                        assert(old(self).schedule@[old(self).schedule@.len() - 1].0.lt(
                            old(self).schedule@[i].0,
                        ));
                    }
                }
                Some(p)
            },
        }
    }
}

} // verus!
