//! The task graph: build, commit (cycle check and topological order),
//! and one sequential execution pass with fan-in propagation.

use vstd::prelude::*;

use crate::errors::{CronError, GraphError};
use crate::expression::{expr_matches, Expression};
use crate::task::{dep_names, find_dep, Handler, Message, Task};
use crate::timepoint::{TimePoint, MAX_YEAR};
use crate::unit::{lower_char, spec_lower};

verus! {

/// A named workflow: a set of tasks, the dependency edges between them
/// (mirrored in each task's accumulator keys), an optional trigger
/// expression (absent means manual-only), and the memoized execution
/// order of the last successful commit (empty until then, and cleared
/// by any later edge registration).
pub struct Graph {
    pub name: String,
    pub graph: Vec<(String, Vec<String>)>,
    pub tasks: Vec<Task>,
    pub expression: Option<Expression>,
    pub execution_order: Vec<String>,
}

/// Index of the first task carrying `name`, `-1` if absent.
pub open spec fn task_index(tasks: Seq<Task>, name: Seq<char>) -> int
    decreases tasks.len(),
{
    if tasks.len() == 0 {
        -1
    } else if tasks[0].name@ == name {
        0
    } else {
        let sub = task_index(tasks.skip(1), name);
        if sub == -1 {
            -1
        } else {
            sub + 1
        }
    }
}

pub proof fn lemma_task_index(tasks: Seq<Task>, name: Seq<char>)
    ensures
        task_index(tasks, name) == -1 ==> forall|i: int|
            0 <= i < tasks.len() ==> (#[trigger] tasks[i]).name@ != name,
        task_index(tasks, name) != -1 ==> {
            let k = task_index(tasks, name);
            &&& 0 <= k < tasks.len()
            &&& tasks[k].name@ == name
            &&& forall|i: int| 0 <= i < k ==> (#[trigger] tasks[i]).name@ != name
        },
    decreases tasks.len(),
{
    if tasks.len() == 0 {
    } else if tasks[0].name@ == name {
    } else {
        let t = tasks.skip(1);
        lemma_task_index(t, name);
        assert(forall|i: int| 0 <= i < t.len() ==> #[trigger] t[i] == tasks[i + 1]);
        let sub = task_index(t, name);
        if sub == -1 {
            assert forall|i: int| 0 <= i < tasks.len() implies (#[trigger] tasks[i]).name@
                != name by {
                if i > 0 {
                    assert(t[i - 1].name@ != name);
                }
            }
        } else {
            assert forall|i: int| 0 <= i < sub + 1 implies (#[trigger] tasks[i]).name@ != name by {
                if i > 0 {
                    assert(t[i - 1].name@ != name);
                }
            }
        }
    }
}

pub proof fn lemma_task_index_eq(tasks: Seq<Task>, name: Seq<char>, w: int)
    requires
        0 <= w < tasks.len(),
        tasks[w].name@ == name,
        forall|i: int| 0 <= i < w ==> (#[trigger] tasks[i]).name@ != name,
    ensures
        task_index(tasks, name) == w,
    decreases tasks.len(),
{
    if w == 0 {
    } else {
        let t = tasks.skip(1);
        assert(forall|i: int| 0 <= i < t.len() ==> #[trigger] t[i] == tasks[i + 1]);
        assert forall|i: int| 0 <= i < w - 1 implies (#[trigger] t[i]).name@ != name by {
            assert(t[i] == tasks[i + 1]);
        }
        lemma_task_index_eq(t, name, w - 1);
    }
}

/// Index of the first occurrence of `name` in a name list, `-1` if
/// absent.
pub open spec fn name_index(names: Seq<String>, name: Seq<char>) -> int
    decreases names.len(),
{
    if names.len() == 0 {
        -1
    } else if names[0]@ == name {
        0
    } else {
        let sub = name_index(names.skip(1), name);
        if sub == -1 {
            -1
        } else {
            sub + 1
        }
    }
}

pub proof fn lemma_name_index(names: Seq<String>, name: Seq<char>)
    ensures
        name_index(names, name) == -1 ==> forall|i: int|
            0 <= i < names.len() ==> (#[trigger] names[i])@ != name,
        name_index(names, name) != -1 ==> {
            let k = name_index(names, name);
            &&& 0 <= k < names.len()
            &&& names[k]@ == name
            &&& forall|i: int| 0 <= i < k ==> (#[trigger] names[i])@ != name
        },
    decreases names.len(),
{
    if names.len() == 0 {
    } else if names[0]@ == name {
    } else {
        let t = names.skip(1);
        lemma_name_index(t, name);
        assert(forall|i: int| 0 <= i < t.len() ==> #[trigger] t[i] == names[i + 1]);
        let sub = name_index(t, name);
        if sub == -1 {
            assert forall|i: int| 0 <= i < names.len() implies (#[trigger] names[i])@ != name by {
                if i > 0 {
                    assert(t[i - 1]@ != name);
                }
            }
        } else {
            assert forall|i: int| 0 <= i < sub + 1 implies (#[trigger] names[i])@ != name by {
                if i > 0 {
                    assert(t[i - 1]@ != name);
                }
            }
        }
    }
}

pub proof fn lemma_name_index_eq(names: Seq<String>, name: Seq<char>, w: int)
    requires
        0 <= w < names.len(),
        names[w]@ == name,
        forall|i: int| 0 <= i < w ==> (#[trigger] names[i])@ != name,
    ensures
        name_index(names, name) == w,
    decreases names.len(),
{
    if w == 0 {
    } else {
        let t = names.skip(1);
        assert(forall|i: int| 0 <= i < t.len() ==> #[trigger] t[i] == names[i + 1]);
        assert forall|i: int| 0 <= i < w - 1 implies (#[trigger] t[i])@ != name by {
            assert(t[i] == names[i + 1]);
        }
        lemma_name_index_eq(t, name, w - 1);
    }
}

/// The graph holds a task carrying this name.
pub open spec fn has_task(g: Graph, n: Seq<char>) -> bool {
    task_index(g.tasks@, n) != -1
}

/// Task `c` declares a dependency on the output of task `p`.
pub open spec fn dep_edge(g: Graph, p: Seq<char>, c: Seq<char>) -> bool {
    task_index(g.tasks@, c) != -1 && g.tasks@[task_index(g.tasks@, c)].has_dep(p)
}

/// A memoized order is a complete topological order: it lists exactly
/// the task names, each once, and every task stands after all of its
/// dependencies.
pub open spec fn order_valid(g: Graph, order: Seq<String>) -> bool {
    &&& order.len() == g.tasks@.len()
    &&& forall|k: int|
        0 <= k < order.len() ==> task_index(g.tasks@, (#[trigger] order[k])@) != -1
    &&& forall|k1: int, k2: int| 0 <= k1 < k2 < order.len() ==> order[k1]@ != order[k2]@
    &&& forall|i: int|
        0 <= i < g.tasks@.len() ==> name_index(order, (#[trigger] g.tasks@[i]).name@) != -1
    &&& forall|k: int, di: int| #[trigger] order_dep_ok(g, order, k, di)
}

/// Position `k` of a valid order respects its task's dependency `di`:
/// the producer stands strictly earlier.
pub open spec fn order_dep_ok(g: Graph, order: Seq<String>, k: int, di: int) -> bool {
    0 <= k < order.len() && 0 <= di < g.tasks@[task_index(g.tasks@, order[k]@)].deps@.len()
        ==> 0 <= name_index(order, g.tasks@[task_index(g.tasks@, order[k]@)].deps@[di].0@) < k
}

/// A nonempty set of task indices each of which waits on the output of
/// another member: the witness a failed commit leaves behind.
pub open spec fn stuck_set(g: Graph, s: Seq<int>) -> bool {
    &&& s.len() > 0
    &&& forall|k: int| 0 <= k < s.len() ==> 0 <= #[trigger] s[k] < g.tasks@.len()
    &&& forall|k: int| 0 <= k < s.len() ==> #[trigger] stuck_at(g, s, k)
}

/// Member `k` of a stuck set waits on some other member.
pub open spec fn stuck_at(g: Graph, s: Seq<int>, k: int) -> bool {
    exists|di: int, k2: int| #[trigger] stuck_witness(g, s, k, di, k2)
}

/// Member `k` of a stuck set waits on member `k2` through its
/// dependency `di`.
pub open spec fn stuck_witness(g: Graph, s: Seq<int>, k: int, di: int, k2: int) -> bool {
    &&& 0 <= k < s.len()
    &&& 0 <= di < g.tasks@[s[k]].deps@.len()
    &&& 0 <= k2 < s.len()
    &&& g.tasks@[s[k2]].name@ == g.tasks@[s[k]].deps@[di].0@
}

impl Graph {
    /// Well-formedness: task names unique, every task's accumulator
    /// keys unique and naming registered tasks, the trigger expression
    /// (if any) well formed, and a nonempty memoized order valid.
    pub open spec fn wf(self) -> bool {
        &&& forall|i: int, j: int|
            0 <= i < j < self.tasks@.len() ==> (#[trigger] self.tasks@[i]).name@ != (
            #[trigger] self.tasks@[j]).name@
        &&& forall|i: int| 0 <= i < self.tasks@.len() ==> (#[trigger] self.tasks@[i]).wf()
        &&& forall|i: int, di: int|
            0 <= i < self.tasks@.len() && 0 <= di < self.tasks@[i].deps@.len() ==> task_index(
                self.tasks@,
                (#[trigger] self.tasks@[i].deps@[di]).0@,
            ) != -1
        &&& self.expression matches Some(e) ==> e.wf() && crate::expression::expr_parses(e)
        &&& self.execution_order@.len() > 0 ==> order_valid(self, self.execution_order@)
    }

    /// The graph has been committed since its edges last changed.
    pub open spec fn committed(self) -> bool {
        self.execution_order@.len() > 0
    }

    /// The text `manual` (in any case) asks for a graph without a
    /// trigger expression.
    pub open spec fn is_manual_text(s: Seq<char>) -> bool {
        crate::unit::spec_lower_seq(s) =~= seq!['m', 'a', 'n', 'u', 'a', 'l']
    }

    /// Build an empty graph: `manual` (in any case) leaves it without a
    /// trigger; any other schedule text must construct a valid
    /// expression.
    pub fn new(name: String, schedule: &str) -> (r: Result<Graph, CronError>)
        ensures
            r matches Ok(g) ==> {
                &&& g.wf()
                &&& g.tasks@.len() == 0
                &&& !g.committed()
                &&& g.name@ == name@
                &&& (g.expression is None <==> Self::is_manual_text(schedule@))
                &&& !Self::is_manual_text(schedule@) ==> (g.expression matches Some(e)
                    && crate::expression::expr_is_of_text(e, schedule@)
                    && crate::expression::expr_parses(e))
            },
            Self::is_manual_text(schedule@) ==> r is Ok,
            !Self::is_manual_text(schedule@) ==> ((r == Result::<Graph, CronError>::Err(
                CronError::ParseError,
            )) <==> !crate::expression::text_parses(schedule@)),
            r == Result::<Graph, CronError>::Err(CronError::ScheduleUnsatisfiable)
                ==> crate::expression::text_parses(schedule@) && exists|
                e2: Expression,
                mi0: int,
            |
                crate::expression::expr_is_of_text(e2, schedule@) && mi0 >= 13
                    && #[trigger] crate::expression::expr_unsat_window(e2, mi0),
    {
        let n = schedule.unicode_len();
        let mut manual = n == 6;
        if manual {
            manual = lower_char(schedule.get_char(0)) == 'm' && lower_char(schedule.get_char(1))
                == 'a' && lower_char(schedule.get_char(2)) == 'n' && lower_char(
                schedule.get_char(3),
            ) == 'u' && lower_char(schedule.get_char(4)) == 'a' && lower_char(
                schedule.get_char(5),
            ) == 'l';
        }
        proof {
            let low = crate::unit::spec_lower_seq(schedule@);
            if manual {
                assert(low =~= seq!['m', 'a', 'n', 'u', 'a', 'l']);
            } else {
                if low =~= seq!['m', 'a', 'n', 'u', 'a', 'l'] {
                    assert(schedule@.len() == 6);
                    assert(low[0] == spec_lower(schedule@[0]));
                    assert(low[1] == spec_lower(schedule@[1]));
                    assert(low[2] == spec_lower(schedule@[2]));
                    assert(low[3] == spec_lower(schedule@[3]));
                    assert(low[4] == spec_lower(schedule@[4]));
                    assert(low[5] == spec_lower(schedule@[5]));
                }
            }
        }
        let expression = if manual {
            None
        } else {
            match Expression::from_str(schedule) {
                Ok(e) => Some(e),
                Err(e) => {
                    return Err(e);
                },
            }
        };
        Ok(
            Graph {
                name,
                expression,
                graph: Vec::new(),
                tasks: Vec::new(),
                execution_order: Vec::new(),
            },
        )
    }

    /// The graph holds no tasks.
    pub fn is_empty(&self) -> (r: bool)
        ensures
            r == (self.tasks@.len() == 0),
    {
        self.tasks.len() == 0
    }

    /// The graph has no trigger expression and only runs when asked.
    pub fn is_manual(&self) -> (r: bool)
        ensures
            r == (self.expression is None),
    {
        match &self.expression {
            None => true,
            Some(_) => false,
        }
    }

    /// A valid execution order is memoized.
    pub fn is_sorted(&self) -> (r: bool)
        ensures
            r == self.committed(),
    {
        self.execution_order.len() > 0
    }

    pub fn name(&self) -> (r: String)
        ensures
            r@ == self.name@,
    {
        self.name.clone()
    }

    /// The next instant the trigger expression fires after the present
    /// one, or nothing for a manual graph.
    pub fn next(&self) -> (r: Option<Result<TimePoint, CronError>>)
        requires
            self.wf(),
        ensures
            r is None <==> self.expression is None,
            r matches Some(q) ==> (q matches Ok(t) ==> {
                &&& t.in_ranges()
                &&& expr_matches(self.expression.unwrap(), t)
            }),
            r matches Some(q) ==> q != Result::<TimePoint, CronError>::Err(
                CronError::ParseError,
            ),
            r matches Some(q) ==> (q == Result::<TimePoint, CronError>::Err(
                CronError::ScheduleUnsatisfiable,
            ) ==> exists|mi0: int|
                mi0 >= 13 && #[trigger] crate::expression::expr_unsat_window(
                    self.expression.unwrap(),
                    mi0,
                )),
    {
        match &self.expression {
            None => None,
            Some(e) => {
                let now = crate::timepoint::now_timepoint();
                let start = if 1 <= now.year && now.year <= MAX_YEAR {
                    now
                } else {
                    TimePoint { year: 2000, month: 1, day: 1, hour: 0, minute: 0 }
                };
                proof {
                    assert(start.month_index() >= 13);
                    assert(crate::expression::expr_parses(*e));
                }
                let q = e.next(&start);
                proof {
                    if q == Result::<TimePoint, CronError>::Err(
                        CronError::ScheduleUnsatisfiable,
                    ) {
                        let mi0 = choose|mi0: int|
                            mi0 >= start.month_index()
                                && #[trigger] crate::expression::expr_unsat_window(*e, mi0);
                        assert(mi0 >= 13 && crate::expression::expr_unsat_window(
                            self.expression.unwrap(),
                            mi0,
                        ));
                    }
                }
                Some(q)
            },
        }
    }
}

/// `task_index` depends only on the names, not the accumulators.
pub proof fn lemma_task_index_names(a: Seq<Task>, b: Seq<Task>, n: Seq<char>)
    requires
        a.len() == b.len(),
        forall|i: int| 0 <= i < a.len() ==> (#[trigger] a[i]).name@ == b[i].name@,
    ensures
        task_index(a, n) == task_index(b, n),
    decreases a.len(),
{
    if a.len() == 0 {
    } else {
        let ta = a.skip(1);
        let tb = b.skip(1);
        assert(forall|i: int| 0 <= i < ta.len() ==> #[trigger] ta[i] == a[i + 1]);
        assert(forall|i: int| 0 <= i < tb.len() ==> #[trigger] tb[i] == b[i + 1]);
        assert forall|i: int| 0 <= i < ta.len() implies (#[trigger] ta[i]).name@ == tb[i].name@
        by {
            assert(a[i + 1].name@ == b[i + 1].name@);
        }
        lemma_task_index_names(ta, tb, n);
    }
}

/// Appending a task leaves every present name's index unchanged; an
/// absent name is found only if the new task carries it.
pub proof fn lemma_task_index_push(tasks: Seq<Task>, t: Task, n: Seq<char>)
    ensures
        task_index(tasks, n) != -1 ==> task_index(tasks.push(t), n) == task_index(tasks, n),
        task_index(tasks, n) == -1 && t.name@ == n ==> task_index(tasks.push(t), n)
            == tasks.len(),
        task_index(tasks, n) == -1 && t.name@ != n ==> task_index(tasks.push(t), n) == -1,
{
    lemma_task_index(tasks, n);
    lemma_task_index(tasks.push(t), n);
    let post = tasks.push(t);
    assert(forall|i: int| 0 <= i < tasks.len() ==> #[trigger] post[i] == tasks[i]);
    if task_index(tasks, n) != -1 {
        let k = task_index(tasks, n);
        assert(post[k].name@ == n);
        assert forall|i: int| 0 <= i < k implies (#[trigger] post[i]).name@ != n by {
            assert(tasks[i].name@ != n);
        }
        lemma_task_index_eq(post, n, k);
    } else if t.name@ == n {
        assert(post[tasks.len() as int].name@ == n);
        assert forall|i: int| 0 <= i < tasks.len() implies (#[trigger] post[i]).name@ != n by {
            assert(tasks[i].name@ != n);
        }
        lemma_task_index_eq(post, n, tasks.len() as int);
    } else {
        if task_index(post, n) != -1 {
            let k = task_index(post, n);
            assert(post[k].name@ == n);
            if k < tasks.len() {
                assert(tasks[k].name@ == n);
            }
            assert(false);
        }
    }
}

/// Appending a name leaves every present name's position unchanged; an
/// absent name is found only if the new entry carries it.
pub proof fn lemma_name_index_push(names: Seq<String>, x: String, n: Seq<char>)
    ensures
        name_index(names, n) != -1 ==> name_index(names.push(x), n) == name_index(names, n),
        name_index(names, n) == -1 && x@ == n ==> name_index(names.push(x), n) == names.len(),
        name_index(names, n) == -1 && x@ != n ==> name_index(names.push(x), n) == -1,
{
    lemma_name_index(names, n);
    lemma_name_index(names.push(x), n);
    let post = names.push(x);
    assert(forall|i: int| 0 <= i < names.len() ==> #[trigger] post[i] == names[i]);
    if name_index(names, n) != -1 {
        let k = name_index(names, n);
        assert(post[k]@ == n);
        assert forall|i: int| 0 <= i < k implies (#[trigger] post[i])@ != n by {
            assert(names[i]@ != n);
        }
        lemma_name_index_eq(post, n, k);
    } else if x@ == n {
        assert(post[names.len() as int]@ == n);
        assert forall|i: int| 0 <= i < names.len() implies (#[trigger] post[i])@ != n by {
            assert(names[i]@ != n);
        }
        lemma_name_index_eq(post, n, names.len() as int);
    } else {
        if name_index(post, n) != -1 {
            let k = name_index(post, n);
            assert(post[k]@ == n);
            if k < names.len() {
                assert(names[k]@ == n);
            }
            assert(false);
        }
    }
}

/// A dependency edge survives appending new tasks at the tail.
proof fn lemma_dep_edge_extend(g1: Graph, g2: Graph, p: Seq<char>, c: Seq<char>)
    requires
        dep_edge(g1, p, c),
        g1.tasks@.len() <= g2.tasks@.len(),
        forall|i: int| 0 <= i < g1.tasks@.len() ==> #[trigger] g2.tasks@[i] == g1.tasks@[i],
    ensures
        dep_edge(g2, p, c),
{
    lemma_task_index(g1.tasks@, c);
    let ti = task_index(g1.tasks@, c);
    assert(g2.tasks@[ti].name@ == c);
    assert forall|i: int| 0 <= i < ti implies (#[trigger] g2.tasks@[i]).name@ != c by {
        assert(g1.tasks@[i].name@ != c);
    }
    lemma_task_index_eq(g2.tasks@, c, ti);
}

/// A dependency edge survives growing one task's accumulator keys,
/// names untouched.
proof fn lemma_dep_edge_grow(g1: Graph, g2: Graph, idx: int, p: Seq<char>, c: Seq<char>)
    requires
        dep_edge(g1, p, c),
        g2.tasks@.len() == g1.tasks@.len(),
        0 <= idx < g1.tasks@.len(),
        forall|i: int|
            0 <= i < g1.tasks@.len() && i != idx ==> #[trigger] g2.tasks@[i] == g1.tasks@[i],
        forall|i: int|
            0 <= i < g1.tasks@.len() ==> (#[trigger] g2.tasks@[i]).name@ == g1.tasks@[i].name@,
        forall|q: Seq<char>|
            g1.tasks@[idx].has_dep(q) ==> #[trigger] g2.tasks@[idx].has_dep(q),
    ensures
        dep_edge(g2, p, c),
{
    lemma_task_index(g1.tasks@, c);
    let ti = task_index(g1.tasks@, c);
    assert forall|n: Seq<char>| true implies #[trigger] task_index(g2.tasks@, n) == task_index(
        g1.tasks@,
        n,
    ) by {
        lemma_task_index_names(g2.tasks@, g1.tasks@, n);
    }
    if ti == idx {
        assert(g2.tasks@[idx].has_dep(p));
    } else {
        assert(g2.tasks@[ti] == g1.tasks@[ti]);
    }
}

/// Find a task by name.
pub fn find_task(tasks: &Vec<Task>, name: &String) -> (r: Option<usize>)
    ensures
        r matches Some(i) ==> i < tasks@.len() && tasks@[i as int].name@ == name@ && i as int
            == task_index(tasks@, name@),
        r is None ==> task_index(tasks@, name@) == -1,
{
    let mut i: usize = 0;
    while i < tasks.len()
        invariant
            0 <= i <= tasks@.len(),
            forall|j: int| 0 <= j < i ==> (#[trigger] tasks@[j]).name@ != name@,
        decreases tasks@.len() - i,
    {
        if tasks[i].name == *name {
            proof {
                lemma_task_index_eq(tasks@, name@, i as int);
            }
            return Some(i);
        }
        i += 1;
    }
    proof {
        lemma_task_index(tasks@, name@);
        if task_index(tasks@, name@) != -1 {
            let k = task_index(tasks@, name@);
            assert(tasks@[k].name@ != name@);
        }
    }
    None
}

impl Graph {
    /// Register a freshly created task under its name; a task of that
    /// name already present keeps its identity and edges.
    fn register_task(&mut self, t: &Task)
        requires
            old(self).wf(),
            !old(self).committed(),
            t.deps@.len() == 0,
        ensures
            final(self).wf(),
            !final(self).committed(),
            final(self).name == old(self).name,
            final(self).expression == old(self).expression,
            final(self).graph == old(self).graph,
            forall|n: Seq<char>|
                #[trigger] has_task(*final(self), n) <==> (has_task(*old(self), n) || n
                    == t.name@),
            forall|i: int|
                0 <= i < old(self).tasks@.len() ==> #[trigger] final(self).tasks@[i] == old(
                    self,
                ).tasks@[i],
            old(self).tasks@.len() <= final(self).tasks@.len() <= old(self).tasks@.len() + 1,
    {
        match find_task(&self.tasks, &t.name) {
            Some(_) => {
                proof {
                    assert forall|n: Seq<char>| #[trigger] has_task(*self, n) <==> (has_task(
                        *self,
                        n,
                    ) || n == t.name@) by {
                        if n == t.name@ {
                        }
                    }
                }
            },
            None => {
                let ghost pre = self.tasks@;
                self.tasks.push(t.duplicate());
                proof {
                    assert(self.tasks@.last().name@ == t.name@);
                    assert(self.tasks@.last().deps@.len() == 0);
                    assert(self.tasks@ =~= pre.push(self.tasks@.last()));
                    lemma_task_index(pre, t.name@);
                    assert forall|n: Seq<char>| true implies (#[trigger] has_task(*self, n) <==> (
                    task_index(pre, n) != -1 || n == t.name@)) by {
                        lemma_task_index_push(pre, self.tasks@.last(), n);
                    }
                    // names stay unique
                    assert forall|i: int, j: int|
                        0 <= i < j < self.tasks@.len() implies (#[trigger] self.tasks@[i]).name@
                        != (#[trigger] self.tasks@[j]).name@ by {
                        if j == pre.len() {
                            assert(pre[i].name@ != t.name@);
                        }
                    }
                    // accumulator keys still name registered tasks
                    assert forall|i: int, di: int|
                        0 <= i < self.tasks@.len() && 0 <= di
                            < self.tasks@[i].deps@.len() implies task_index(
                        self.tasks@,
                        (#[trigger] self.tasks@[i].deps@[di]).0@,
                    ) != -1 by {
                        if i < pre.len() {
                            assert(task_index(pre, pre[i].deps@[di].0@) != -1);
                            lemma_task_index_push(
                                pre,
                                self.tasks@.last(),
                                pre[i].deps@[di].0@,
                            );
                        }
                    }
                }
            },
        }
    }

    /// Declare the edge parent -> child inside the child's accumulator.
    fn add_dep_between(&mut self, child_idx: usize, parent: &String)
        requires
            old(self).wf(),
            !old(self).committed(),
            child_idx < old(self).tasks@.len(),
            has_task(*old(self), parent@),
        ensures
            final(self).wf(),
            !final(self).committed(),
            final(self).name == old(self).name,
            final(self).expression == old(self).expression,
            final(self).graph == old(self).graph,
            final(self).tasks@.len() == old(self).tasks@.len(),
            forall|i: int|
                0 <= i < old(self).tasks@.len() && i != child_idx
                    ==> #[trigger] final(self).tasks@[i] == old(self).tasks@[i],
            forall|i: int|
                0 <= i < old(self).tasks@.len() ==> (#[trigger] final(self).tasks@[i]).name@
                    == old(self).tasks@[i].name@,
            forall|p: Seq<char>|
                final(self).tasks@[child_idx as int].has_dep(p) <==> (old(
                    self,
                ).tasks@[child_idx as int].has_dep(p) || p == parent@),
    {
        let ghost pre = self.tasks@;
        let mut t = self.tasks.remove(child_idx);
        t.add_dep(parent);
        self.tasks.insert(child_idx, t);
        proof {
            assert(forall|i: int|
                0 <= i < pre.len() && i != child_idx ==> #[trigger] self.tasks@[i] == pre[i]);
            assert(self.tasks@.len() == pre.len());
            assert(self.tasks@[child_idx as int].name@ == pre[child_idx as int].name@);
            assert forall|n: Seq<char>| true implies #[trigger] task_index(self.tasks@, n)
                == task_index(pre, n) by {
                lemma_task_index_names(self.tasks@, pre, n);
            }
            // uniqueness and per-task well-formedness survive
            assert forall|i: int, j: int|
                0 <= i < j < self.tasks@.len() implies (#[trigger] self.tasks@[i]).name@ != (
                #[trigger] self.tasks@[j]).name@ by {
                assert(pre[i].name@ != pre[j].name@);
            }
            assert forall|i: int, di: int|
                0 <= i < self.tasks@.len() && 0 <= di < self.tasks@[i].deps@.len() implies
                task_index(self.tasks@, (#[trigger] self.tasks@[i].deps@[di]).0@) != -1 by {
                if i == child_idx {
                    let d = self.tasks@[i].deps@[di].0@;
                    assert(self.tasks@[i].has_dep(d)) by {
                        assert(dep_names(self.tasks@[i].deps@)[di] == d);
                    }
                    if d == parent@ {
                        assert(task_index(pre, d) != -1);
                    } else {
                        assert(pre[i].has_dep(d));
                        let w = choose|w: int|
                            0 <= w < dep_names(pre[i].deps@).len() && dep_names(pre[i].deps@)[w]
                                == d;
                        assert(pre[i].deps@[w].0@ == d);
                        assert(task_index(pre, d) != -1);
                    }
                } else {
                    assert(task_index(pre, pre[i].deps@[di].0@) != -1);
                }
            }
        }
    }

    /// Mirror the edge parent -> child in the adjacency list, once.
    fn record_edge(&mut self, parent: &String, child: &String)
        ensures
            final(self).name == old(self).name,
            final(self).expression == old(self).expression,
            final(self).tasks == old(self).tasks,
            final(self).execution_order == old(self).execution_order,
    {
        let mut i: usize = 0;
        let n = self.graph.len();
        while i < n
            invariant
                n as int == self.graph@.len(),
                0 <= i <= n,
                self.name == old(self).name,
                self.expression == old(self).expression,
                self.tasks == old(self).tasks,
                self.execution_order == old(self).execution_order,
            decreases n - i,
        {
            if self.graph[i].0 == *parent {
                let mut entry = self.graph.remove(i);
                let mut j: usize = 0;
                let m = entry.1.len();
                let mut present = false;
                while j < m
                    invariant
                        m as int == entry.1@.len(),
                        0 <= j <= m,
                    decreases m - j,
                {
                    if entry.1[j] == *child {
                        present = true;
                    }
                    j += 1;
                }
                if !present {
                    entry.1.push(child.clone());
                }
                self.graph.insert(i, entry);
                return;
            }
            i += 1;
        }
        let mut children: Vec<String> = Vec::new();
        children.push(child.clone());
        self.graph.push((parent.clone(), children));
    }

    /// Some task among the first `upto` of the list carries name `n`.
    pub open spec fn batch_has(ts: Seq<Task>, upto: int, n: Seq<char>) -> bool {
        exists|i: int| 0 <= i < upto && (#[trigger] ts[i]).name@ == n
    }

    /// Register tasks and dependency edges, idempotently: every parent
    /// and child is registered under its name (an existing task keeps
    /// its identity), and every (parent, child) pair becomes a
    /// dependency of the child. Any memoized execution order is
    /// invalidated: the graph must be committed again before it runs.
    pub fn add_edges(&mut self, parents: Vec<Task>, children: Option<Vec<Task>>) -> (r: Result<
        (),
        GraphError,
    >)
        requires
            old(self).wf(),
            forall|i: int| 0 <= i < parents@.len() ==> (#[trigger] parents@[i]).deps@.len() == 0,
            children matches Some(c) ==> forall|i: int|
                0 <= i < c@.len() ==> (#[trigger] c@[i]).deps@.len() == 0,
        ensures
            r is Ok,
            final(self).wf(),
            !final(self).committed(),
            final(self).name == old(self).name,
            final(self).expression == old(self).expression,
            forall|n: Seq<char>|
                #[trigger] has_task(*final(self), n) <==> (has_task(*old(self), n)
                    || Self::batch_has(parents@, parents@.len() as int, n) || (
                children matches Some(c) && Self::batch_has(c@, c@.len() as int, n))),
            forall|p: Seq<char>, c: Seq<char>|
                #[trigger] dep_edge(*old(self), p, c) ==> dep_edge(*final(self), p, c),
            children matches Some(c) ==> forall|pi: int, ci: int|
                0 <= pi < parents@.len() && 0 <= ci < c@.len() ==> #[trigger] dep_edge(
                    *final(self),
                    parents@[pi].name@,
                    c@[ci].name@,
                ),
    {
        self.execution_order = Vec::new();
        proof {
            assert forall|p: Seq<char>, c: Seq<char>|
                #[trigger] dep_edge(*old(self), p, c) implies dep_edge(*self, p, c) by {
                assert(self.tasks@ == old(self).tasks@);
            }
        }
        let children = match children {
            Some(c) => c,
            None => Vec::new(),
        };
        let mut pi: usize = 0;
        while pi < parents.len()
            invariant
                self.wf(),
                !self.committed(),
                self.name == old(self).name,
                self.expression == old(self).expression,
                forall|p: Seq<char>, c: Seq<char>|
                    #[trigger] dep_edge(*old(self), p, c) ==> dep_edge(*self, p, c),
                0 <= pi <= parents@.len(),
                forall|i: int|
                    0 <= i < parents@.len() ==> (#[trigger] parents@[i]).deps@.len() == 0,
                forall|i: int| 0 <= i < pi ==> has_task(*self, (#[trigger] parents@[i]).name@),
                forall|n: Seq<char>|
                    #[trigger] has_task(*self, n) <==> (has_task(*old(self), n)
                        || Self::batch_has(parents@, pi as int, n)),
            decreases parents@.len() - pi,
        {
            let ghost mid = *self;
            self.register_task(&parents[pi]);
            proof {
                assert forall|p: Seq<char>, c: Seq<char>|
                    #[trigger] dep_edge(*old(self), p, c) implies dep_edge(*self, p, c) by {
                    assert(dep_edge(mid, p, c));
                    lemma_dep_edge_extend(mid, *self, p, c);
                }
                assert forall|n: Seq<char>| #[trigger] has_task(*self, n) implies (has_task(
                    *old(self),
                    n,
                ) || Self::batch_has(parents@, pi + 1, n)) by {
                    if has_task(mid, n) {
                        if Self::batch_has(parents@, pi as int, n) {
                            let w = choose|i: int|
                                0 <= i < pi && (#[trigger] parents@[i]).name@ == n;
                            assert(Self::batch_has(parents@, pi + 1, n));
                        }
                    } else {
                        assert(n == parents@[pi as int].name@);
                        assert(Self::batch_has(parents@, pi + 1, n));
                    }
                }
                assert forall|n: Seq<char>| (has_task(*old(self), n) || Self::batch_has(
                    parents@,
                    pi + 1,
                    n,
                )) implies #[trigger] has_task(*self, n) by {
                    if Self::batch_has(parents@, pi + 1, n) && !has_task(*old(self), n) {
                        let w = choose|i: int|
                            0 <= i < pi + 1 && (#[trigger] parents@[i]).name@ == n;
                        if w < pi {
                            assert(Self::batch_has(parents@, pi as int, n));
                            assert(has_task(mid, n));
                        } else {
                            assert(n == parents@[pi as int].name@);
                        }
                    }
                }
            }
            pi += 1;
        }
        let mut ci: usize = 0;
        while ci < children.len()
            invariant
                self.wf(),
                !self.committed(),
                self.name == old(self).name,
                self.expression == old(self).expression,
                forall|p: Seq<char>, c: Seq<char>|
                    #[trigger] dep_edge(*old(self), p, c) ==> dep_edge(*self, p, c),
                0 <= ci <= children@.len(),
                forall|i: int|
                    0 <= i < children@.len() ==> (#[trigger] children@[i]).deps@.len() == 0,
                forall|i: int|
                    0 <= i < parents@.len() ==> has_task(*self, (#[trigger] parents@[i]).name@),
                forall|i: int| 0 <= i < ci ==> has_task(*self, (#[trigger] children@[i]).name@),
                forall|n: Seq<char>|
                    #[trigger] has_task(*self, n) <==> (has_task(*old(self), n)
                        || Self::batch_has(parents@, parents@.len() as int, n)
                        || Self::batch_has(children@, ci as int, n)),
            decreases children@.len() - ci,
        {
            let ghost mid = *self;
            self.register_task(&children[ci]);
            proof {
                assert forall|p: Seq<char>, c: Seq<char>|
                    #[trigger] dep_edge(*old(self), p, c) implies dep_edge(*self, p, c) by {
                    assert(dep_edge(mid, p, c));
                    lemma_dep_edge_extend(mid, *self, p, c);
                }
                assert forall|n: Seq<char>| #[trigger] has_task(*self, n) implies (has_task(
                    *old(self),
                    n,
                ) || Self::batch_has(parents@, parents@.len() as int, n) || Self::batch_has(
                    children@,
                    ci + 1,
                    n,
                )) by {
                    if has_task(mid, n) {
                        if Self::batch_has(children@, ci as int, n) {
                            let w = choose|i: int|
                                0 <= i < ci && (#[trigger] children@[i]).name@ == n;
                            assert(Self::batch_has(children@, ci + 1, n));
                        }
                    } else {
                        assert(n == children@[ci as int].name@);
                        assert(Self::batch_has(children@, ci + 1, n));
                    }
                }
                assert forall|n: Seq<char>| (has_task(*old(self), n) || Self::batch_has(
                    parents@,
                    parents@.len() as int,
                    n,
                ) || Self::batch_has(children@, ci + 1, n)) implies #[trigger] has_task(
                    *self,
                    n,
                ) by {
                    if !has_task(*old(self), n) && !Self::batch_has(
                        parents@,
                        parents@.len() as int,
                        n,
                    ) {
                        let w = choose|i: int|
                            0 <= i < ci + 1 && (#[trigger] children@[i]).name@ == n;
                        if w < ci {
                            assert(Self::batch_has(children@, ci as int, n));
                            assert(has_task(mid, n));
                        } else {
                            assert(n == children@[ci as int].name@);
                        }
                    }
                }
            }
            ci += 1;
        }
        let mut ci: usize = 0;
        while ci < children.len()
            invariant
                self.wf(),
                !self.committed(),
                self.name == old(self).name,
                self.expression == old(self).expression,
                forall|p: Seq<char>, c: Seq<char>|
                    #[trigger] dep_edge(*old(self), p, c) ==> dep_edge(*self, p, c),
                0 <= ci <= children@.len(),
                forall|i: int|
                    0 <= i < parents@.len() ==> has_task(*self, (#[trigger] parents@[i]).name@),
                forall|i: int|
                    0 <= i < children@.len() ==> has_task(*self, (#[trigger] children@[i]).name@),
                forall|n: Seq<char>|
                    #[trigger] has_task(*self, n) <==> (has_task(*old(self), n)
                        || Self::batch_has(parents@, parents@.len() as int, n)
                        || Self::batch_has(children@, children@.len() as int, n)),
                forall|pj: int, cj: int|
                    0 <= pj < parents@.len() && 0 <= cj < ci ==> #[trigger] dep_edge(
                        *self,
                        parents@[pj].name@,
                        children@[cj].name@,
                    ),
            decreases children@.len() - ci,
        {
            let mut pj: usize = 0;
            while pj < parents.len()
                invariant
                    self.wf(),
                    !self.committed(),
                    self.name == old(self).name,
                    self.expression == old(self).expression,
                    forall|p: Seq<char>, c: Seq<char>|
                        #[trigger] dep_edge(*old(self), p, c) ==> dep_edge(*self, p, c),
                    0 <= ci < children@.len(),
                    0 <= pj <= parents@.len(),
                    forall|i: int|
                        0 <= i < parents@.len() ==> has_task(
                            *self,
                            (#[trigger] parents@[i]).name@,
                        ),
                    forall|i: int|
                        0 <= i < children@.len() ==> has_task(
                            *self,
                            (#[trigger] children@[i]).name@,
                        ),
                    forall|n: Seq<char>|
                        #[trigger] has_task(*self, n) <==> (has_task(*old(self), n)
                            || Self::batch_has(parents@, parents@.len() as int, n)
                            || Self::batch_has(children@, children@.len() as int, n)),
                    forall|pk: int, cj: int|
                        0 <= pk < parents@.len() && 0 <= cj < ci ==> #[trigger] dep_edge(
                            *self,
                            parents@[pk].name@,
                            children@[cj].name@,
                        ),
                    forall|pk: int|
                        0 <= pk < pj ==> #[trigger] dep_edge(
                            *self,
                            parents@[pk].name@,
                            children@[ci as int].name@,
                        ),
                decreases parents@.len() - pj,
            {
                let child_name = children[ci].name.clone();
                let parent_name = parents[pj].name.clone();
                let idx = match find_task(&self.tasks, &child_name) {
                    Some(i) => i,
                    None => {
                        proof {
                            assert(has_task(*self, children@[ci as int].name@));
                            assert(false);
                        }
                        return Err(GraphError::NotReady);
                    },
                };
                let ghost mid = *self;
                self.add_dep_between(idx, &parent_name);
                proof {
                    assert forall|q: Seq<char>| mid.tasks@[idx as int].has_dep(q) implies
                        #[trigger] self.tasks@[idx as int].has_dep(q) by {}
                    assert forall|p: Seq<char>, c: Seq<char>|
                        #[trigger] dep_edge(*old(self), p, c) implies dep_edge(*self, p, c) by {
                        assert(dep_edge(mid, p, c));
                        lemma_dep_edge_grow(mid, *self, idx as int, p, c);
                    }
                    // dependency edges established so far survive
                    assert forall|n: Seq<char>| true implies #[trigger] task_index(
                        self.tasks@,
                        n,
                    ) == task_index(mid.tasks@, n) by {
                        lemma_task_index_names(self.tasks@, mid.tasks@, n);
                    }
                    assert forall|pk: int, cj: int|
                        0 <= pk < parents@.len() && 0 <= cj < ci implies #[trigger] dep_edge(
                        *self,
                        parents@[pk].name@,
                        children@[cj].name@,
                    ) by {
                        let c = children@[cj].name@;
                        assert(dep_edge(mid, parents@[pk].name@, c));
                        let ti = task_index(mid.tasks@, c);
                        lemma_task_index(mid.tasks@, c);
                        assert(task_index(self.tasks@, c) == ti);
                        if ti == idx as int {
                            assert(mid.tasks@[ti].has_dep(parents@[pk].name@));
                            assert(self.tasks@[ti].has_dep(parents@[pk].name@));
                        } else {
                            assert(self.tasks@[ti] == mid.tasks@[ti]);
                        }
                    }
                    assert forall|pk: int|
                        0 <= pk < pj + 1 implies #[trigger] dep_edge(
                        *self,
                        parents@[pk].name@,
                        children@[ci as int].name@,
                    ) by {
                        let c = children@[ci as int].name@;
                        lemma_task_index(mid.tasks@, c);
                        assert(task_index(mid.tasks@, c) == idx as int) by {
                            assert(mid.tasks@[idx as int].name@ == c);
                            lemma_task_index_eq(mid.tasks@, c, idx as int);
                        }
                        if pk < pj {
                            assert(dep_edge(mid, parents@[pk].name@, c));
                            assert(mid.tasks@[idx as int].has_dep(parents@[pk].name@));
                            assert(self.tasks@[idx as int].has_dep(parents@[pk].name@));
                        } else {
                            assert(self.tasks@[idx as int].has_dep(parents@[pj as int].name@));
                        }
                    }
                    assert forall|i: int|
                        0 <= i < parents@.len() implies has_task(
                        *self,
                        (#[trigger] parents@[i]).name@,
                    ) by {}
                    assert forall|i: int|
                        0 <= i < children@.len() implies has_task(
                        *self,
                        (#[trigger] children@[i]).name@,
                    ) by {}
                    assert forall|n: Seq<char>| true implies (#[trigger] has_task(*self, n)
                        <==> has_task(mid, n)) by {
                        assert(task_index(self.tasks@, n) == task_index(mid.tasks@, n));
                    }
                }
                let ghost mid2 = *self;
                self.record_edge(&parent_name, &child_name);
                proof {
                    assert(self.tasks@ == mid2.tasks@);
                    assert forall|p: Seq<char>, c: Seq<char>|
                        #[trigger] dep_edge(*old(self), p, c) implies dep_edge(*self, p, c) by {
                        assert(dep_edge(mid2, p, c));
                    }
                    assert forall|pk: int, cj: int|
                        0 <= pk < parents@.len() && 0 <= cj < ci implies #[trigger] dep_edge(
                        *self,
                        parents@[pk].name@,
                        children@[cj].name@,
                    ) by {
                        assert(dep_edge(mid2, parents@[pk].name@, children@[cj].name@));
                    }
                    assert forall|pk: int|
                        0 <= pk < pj + 1 implies #[trigger] dep_edge(
                        *self,
                        parents@[pk].name@,
                        children@[ci as int].name@,
                    ) by {
                        assert(dep_edge(mid2, parents@[pk].name@, children@[ci as int].name@));
                    }
                    assert forall|n: Seq<char>| true implies (#[trigger] has_task(*self, n)
                        <==> has_task(mid2, n)) by {
                        lemma_task_index_names(self.tasks@, mid2.tasks@, n);
                    }
                }
                pj += 1;
            }
            ci += 1;
        }
        Ok(())
    }
}

/// Task `ti` still waits on a dependency that the partial order does
/// not yet hold.
pub open spec fn has_unscheduled_dep(g: Graph, sorted: Seq<String>, ti: int) -> bool {
    exists|di: int|
        0 <= di < g.tasks@[ti].deps@.len() && name_index(
            sorted,
            (#[trigger] g.tasks@[ti].deps@[di]).0@,
        ) == -1
}

/// Find a name in a name list.
pub fn find_name(names: &Vec<String>, n: &String) -> (r: Option<usize>)
    ensures
        r matches Some(i) ==> i as int == name_index(names@, n@) && i < names@.len()
            && names@[i as int]@ == n@,
        r is None ==> name_index(names@, n@) == -1,
{
    let mut i: usize = 0;
    while i < names.len()
        invariant
            0 <= i <= names@.len(),
            forall|j: int| 0 <= j < i ==> (#[trigger] names@[j])@ != n@,
        decreases names@.len() - i,
    {
        if names[i] == *n {
            proof {
                lemma_name_index_eq(names@, n@, i as int);
            }
            return Some(i);
        }
        i += 1;
    }
    proof {
        lemma_name_index(names@, n@);
        if name_index(names@, n@) != -1 {
            let k = name_index(names@, n@);
            assert(names@[k]@ != n@);
        }
    }
    None
}

/// Every declared dependency of the task already stands in the list.
fn deps_all_in(t: &Task, sorted: &Vec<String>) -> (r: bool)
    ensures
        r ==> forall|di: int|
            0 <= di < t.deps@.len() ==> name_index(sorted@, (#[trigger] t.deps@[di]).0@) != -1,
        !r ==> exists|di: int|
            0 <= di < t.deps@.len() && name_index(sorted@, (#[trigger] t.deps@[di]).0@) == -1,
{
    let mut di: usize = 0;
    while di < t.deps.len()
        invariant
            0 <= di <= t.deps@.len(),
            forall|j: int|
                0 <= j < di ==> name_index(sorted@, (#[trigger] t.deps@[j]).0@) != -1,
        decreases t.deps@.len() - di,
    {
        match find_name(sorted, &t.deps[di].0) {
            Some(_) => {},
            None => {
                proof {
                    assert(name_index(sorted@, t.deps@[di as int].0@) == -1);
                }
                return false;
            },
        }
        di += 1;
    }
    true
}

impl Graph {
    /// Compute a topological execution order by repeatedly scheduling a
    /// task all of whose dependencies are already scheduled (Kahn's
    /// scheme: repeatedly remove a zero-in-degree node). Fails with
    /// `CycleError` exactly when the scan gets stuck, leaving a
    /// nonempty set of tasks each waiting on another member of the set.
    pub fn sort(&self) -> (r: Result<Vec<String>, GraphError>)
        requires
            self.wf(),
        ensures
            r matches Ok(order) ==> order_valid(*self, order@),
            r is Err ==> r == Result::<Vec<String>, GraphError>::Err(GraphError::CycleError)
                && exists|s: Seq<int>| #[trigger] stuck_set(*self, s),
    {
        let total = self.tasks.len();
        let mut remaining: Vec<usize> = Vec::new();
        let mut i: usize = 0;
        while i < total
            invariant
                0 <= i <= total,
                remaining@.len() == i,
                forall|k: int| 0 <= k < i ==> #[trigger] remaining@[k] == k,
            decreases total - i,
        {
            remaining.push(i);
            i += 1;
        }
        let mut sorted: Vec<String> = Vec::new();
        proof {
            assert forall|i2: int| #![trigger self.tasks@[i2]] 0 <= i2 < total implies exists|
                k: int,
            |
                0 <= k < remaining@.len() && #[trigger] remaining@[k] as int == i2 by {
                assert(remaining@[i2] as int == i2);
            }
        }
        while sorted.len() < total
            invariant
                self.wf(),
                total == self.tasks@.len(),
                sorted@.len() + remaining@.len() == total,
                forall|k: int| 0 <= k < remaining@.len() ==> #[trigger] remaining@[k] < total,
                forall|k1: int, k2: int|
                    0 <= k1 < k2 < remaining@.len() ==> remaining@[k1] != remaining@[k2],
                forall|k: int|
                    0 <= k < sorted@.len() ==> task_index(self.tasks@, (#[trigger] sorted@[k])@)
                        != -1,
                forall|k1: int, k2: int|
                    0 <= k1 < k2 < sorted@.len() ==> sorted@[k1]@ != sorted@[k2]@,
                forall|k: int|
                    0 <= k < remaining@.len() ==> name_index(
                        sorted@,
                        self.tasks@[#[trigger] remaining@[k] as int].name@,
                    ) == -1,
                forall|i2: int|
                    0 <= i2 < total ==> name_index(sorted@, (#[trigger] self.tasks@[i2]).name@)
                        != -1 || exists|k: int|
                        0 <= k < remaining@.len() && #[trigger] remaining@[k] as int == i2,
                forall|k: int, di: int| #[trigger] order_dep_ok(*self, sorted@, k, di),
            decreases total - sorted@.len(),
        {
            // look for a task whose dependencies are all scheduled
            let mut ri: usize = 0;
            let mut found = false;
            while ri < remaining.len() && !found
                invariant
                    self.wf(),
                    total == self.tasks@.len(),
                    0 <= ri <= remaining@.len(),
                    forall|k: int| 0 <= k < remaining@.len() ==> #[trigger] remaining@[k] < total,
                    !found ==> forall|k: int|
                        0 <= k < ri ==> has_unscheduled_dep(
                            *self,
                            sorted@,
                            #[trigger] remaining@[k] as int,
                        ),
                    found ==> ri < remaining@.len() && forall|di: int|
                        0 <= di < self.tasks@[remaining@[ri as int] as int].deps@.len()
                            ==> name_index(
                            sorted@,
                            (#[trigger] self.tasks@[remaining@[ri as int] as int].deps@[di]).0@,
                        ) != -1,
                decreases remaining@.len() - ri, (if found { 0 as int } else { 1 as int }),
            {
                let ti = remaining[ri];
                if deps_all_in(&self.tasks[ti], &sorted) {
                    found = true;
                } else {
                    proof {
                        let t = self.tasks@[ti as int];
                        let di = choose|di: int|
                            0 <= di < t.deps@.len() && name_index(
                                sorted@,
                                (#[trigger] t.deps@[di]).0@,
                            ) == -1;
                        assert(has_unscheduled_dep(*self, sorted@, ti as int)) by {
                            assert(0 <= di < self.tasks@[ti as int].deps@.len() && name_index(
                                sorted@,
                                self.tasks@[ti as int].deps@[di].0@,
                            ) == -1);
                        }
                    }
                    ri += 1;
                }
            }
            if !found {
                // stuck: every unscheduled task waits on an unscheduled one
                proof {
                    assert(remaining@.len() > 0);
                    let s = remaining@.map_values(|u: usize| u as int);
                    assert forall|k: int| 0 <= k < s.len() implies #[trigger] stuck_at(
                        *self,
                        s,
                        k,
                    ) by {
                        let ti = remaining@[k] as int;
                        assert(s[k] == ti);
                        assert(has_unscheduled_dep(*self, sorted@, ti));
                        let di = choose|di: int|
                            0 <= di < self.tasks@[ti].deps@.len() && name_index(
                                sorted@,
                                (#[trigger] self.tasks@[ti].deps@[di]).0@,
                            ) == -1;
                        let d = self.tasks@[ti].deps@[di].0@;
                        assert(task_index(self.tasks@, d) != -1);
                        let j = task_index(self.tasks@, d);
                        lemma_task_index(self.tasks@, d);
                        assert(self.tasks@[j].name@ == d);
                        assert(name_index(sorted@, self.tasks@[j].name@) == -1);
                        let kk = choose|kk: int|
                            0 <= kk < remaining@.len() && #[trigger] remaining@[kk] as int == j;
                        assert(s[kk] == j);
                        assert(stuck_witness(*self, s, k, di, kk));
                    }
                    assert(s.len() == remaining@.len());
                    assert forall|k: int| 0 <= k < s.len() implies 0 <= #[trigger] s[k]
                        < self.tasks@.len() by {
                        assert(s[k] == remaining@[k] as int);
                        assert(remaining@[k] < total);
                    }
                    assert(stuck_set(*self, s));
                }
                return Err(GraphError::CycleError);
            }
            let ti = remaining[ri];
            let name = self.tasks[ti].name.clone();
            let ghost sorted_pre = sorted@;
            let ghost rem_pre = remaining@;
            sorted.push(name);
            remaining.remove(ri);
            proof {
                let pushed = sorted@.last();
                assert(pushed@ == self.tasks@[ti as int].name@);
                assert(sorted@ =~= sorted_pre.push(pushed));
                assert(name_index(sorted_pre, pushed@) == -1) by {
                    assert(rem_pre[ri as int] == ti);
                }
                // the pushed name resolves to task ti
                assert(task_index(self.tasks@, pushed@) == ti as int) by {
                    assert forall|i2: int| 0 <= i2 < ti as int implies (
                    #[trigger] self.tasks@[i2]).name@ != pushed@ by {}
                    lemma_task_index_eq(self.tasks@, pushed@, ti as int);
                }
                // uniqueness of the grown output
                lemma_name_index(sorted_pre, pushed@);
                assert forall|k1: int, k2: int|
                    0 <= k1 < k2 < sorted@.len() implies sorted@[k1]@ != sorted@[k2]@ by {
                    if k2 == sorted_pre.len() {
                        assert(sorted_pre[k1]@ != pushed@);
                    }
                }
                // name positions survive the push
                assert forall|k: int|
                    0 <= k < rem_pre.len() && k != ri as int implies name_index(
                    sorted@,
                    self.tasks@[#[trigger] rem_pre[k] as int].name@,
                ) == -1 by {
                    let nm = self.tasks@[rem_pre[k] as int].name@;
                    assert(nm != pushed@) by {
                        if rem_pre[k] as int != ti as int {
                            assert(self.tasks@[rem_pre[k] as int].name@
                                != self.tasks@[ti as int].name@);
                        }
                        assert(rem_pre[k] != rem_pre[ri as int]);
                    }
                    lemma_name_index_push(sorted_pre, pushed, nm);
                }
                // the removal keeps exactly the other indices
                assert(remaining@ =~= rem_pre.remove(ri as int));
                assert(remaining@.len() == rem_pre.len() - 1);
                assert(forall|k: int|
                    0 <= k < ri ==> #[trigger] remaining@[k] == rem_pre[k]);
                assert(forall|k: int|
                    ri <= k < remaining@.len() ==> #[trigger] remaining@[k] == rem_pre[k + 1]);
                // partition survives
                assert forall|i2: int|
                    0 <= i2 < total implies name_index(
                    sorted@,
                    (#[trigger] self.tasks@[i2]).name@,
                ) != -1 || exists|k: int|
                    0 <= k < remaining@.len() && #[trigger] remaining@[k] as int == i2 by {
                    let nm = self.tasks@[i2].name@;
                    lemma_name_index_push(sorted_pre, pushed, nm);
                    if i2 == ti as int {
                        assert(name_index(sorted@, nm) != -1);
                    } else if name_index(sorted_pre, nm) != -1 {
                        assert(name_index(sorted@, nm) != -1);
                    } else {
                        let k = choose|k: int|
                            0 <= k < rem_pre.len() && #[trigger] rem_pre[k] as int == i2;
                        assert(k != ri as int);
                        if k < ri as int {
                            assert(remaining@[k] as int == i2);
                        } else {
                            assert(remaining@[k - 1] as int == i2);
                        }
                    }
                }
                // the order stays topological
                assert forall|k: int, di: int| true implies #[trigger] order_dep_ok(
                    *self,
                    sorted@,
                    k,
                    di,
                ) by {
                    if 0 <= k < sorted@.len() {
                        if k < sorted_pre.len() {
                            assert(order_dep_ok(*self, sorted_pre, k, di));
                            assert(sorted@[k] == sorted_pre[k]);
                            let tk = task_index(self.tasks@, sorted_pre[k]@);
                            assert(tk != -1);
                            lemma_task_index(self.tasks@, sorted_pre[k]@);
                            if 0 <= di < self.tasks@[tk].deps@.len() {
                                let d = self.tasks@[tk].deps@[di].0@;
                                lemma_name_index_push(sorted_pre, pushed, d);
                            }
                        } else {
                            assert(sorted@[k] == pushed);
                            let tk = task_index(self.tasks@, pushed@);
                            assert(tk == ti as int);
                            if 0 <= di < self.tasks@[tk].deps@.len() {
                                let d = self.tasks@[tk].deps@[di].0@;
                                assert(name_index(sorted_pre, d) != -1);
                                lemma_name_index(sorted_pre, d);
                                lemma_name_index_push(sorted_pre, pushed, d);
                                assert(0 <= name_index(sorted@, d) < k);
                            }
                        }
                    }
                }
            }
        }
        proof {
            assert(sorted@.len() == total);
        }
        Ok(sorted)
    }

    /// Validate the graph and memoize its execution order: a nonempty,
    /// acyclic graph commits; an already committed graph is left as it
    /// stands.
    pub fn commit(&mut self) -> (r: Result<(), GraphError>)
        requires
            old(self).wf(),
        ensures
            final(self).wf(),
            final(self).name == old(self).name,
            final(self).expression == old(self).expression,
            final(self).tasks == old(self).tasks,
            final(self).graph == old(self).graph,
            old(self).tasks@.len() == 0 ==> r == Result::<(), GraphError>::Err(
                GraphError::EmptyGraph,
            ) && *final(self) == *old(self),
            r is Ok ==> final(self).committed() && order_valid(
                *final(self),
                final(self).execution_order@,
            ),
            r is Err ==> *final(self) == *old(self),
            r is Err && old(self).tasks@.len() > 0 ==> r == Result::<(), GraphError>::Err(
                GraphError::CycleError,
            ) && exists|s: Seq<int>| #[trigger] stuck_set(*old(self), s),
            old(self).committed() ==> r is Ok && *final(self) == *old(self),
    {
        if self.tasks.len() == 0 {
            return Err(GraphError::EmptyGraph);
        }
        if self.execution_order.len() > 0 {
            return Ok(());
        }
        let ghost pre = *self;
        match self.sort() {
            Ok(order) => {
                proof {
                    assert(order_valid(pre, order@));
                }
                self.execution_order = order;
                proof {
                    assert(self.tasks@ == pre.tasks@);
                    assert(order_valid(*self, self.execution_order@)) by {
                        assert forall|k: int, di: int| true implies #[trigger] order_dep_ok(
                            *self,
                            self.execution_order@,
                            k,
                            di,
                        ) by {
                            assert(order_dep_ok(pre, self.execution_order@, k, di));
                        }
                    }
                }
                Ok(())
            },
            Err(e) => Err(e),
        }
    }
}

/// Write the output a finished task produced into the accumulator of
/// every task that declares it as a dependency.
fn propagate(tasks: &mut Vec<Task>, name: &String, output: &Message)
    requires
        forall|i: int| 0 <= i < old(tasks)@.len() ==> (#[trigger] old(tasks)@[i]).wf(),
    ensures
        final(tasks)@.len() == old(tasks)@.len(),
        forall|i: int|
            0 <= i < old(tasks)@.len() ==> (#[trigger] final(tasks)@[i]).name@ == old(tasks)@[i].name@,
        forall|i: int|
            0 <= i < old(tasks)@.len() ==> dep_names((#[trigger] final(tasks)@[i]).deps@)
                == dep_names(old(tasks)@[i].deps@),
        forall|i: int| 0 <= i < old(tasks)@.len() ==> (#[trigger] final(tasks)@[i]).wf(),
        forall|i: int|
            0 <= i < old(tasks)@.len() ==> (#[trigger] final(tasks)@[i]).retries == old(tasks)@[i].retries && final(tasks)@[i].retry_delay == old(tasks)@[i].retry_delay && final(tasks)@[i].backoff == old(tasks)@[i].backoff,
        forall|i: int, di: int|
            #![trigger final(tasks)@[i].deps@[di]]
            0 <= i < old(tasks)@.len() && 0 <= di < old(tasks)@[i].deps@.len() ==> final(tasks)@[i].deps@[di].1 == (if old(tasks)@[i].deps@[di].0@ == name@ {
                *output
            } else {
                old(tasks)@[i].deps@[di].1
            }),
{
    let mut i: usize = 0;
    while i < tasks.len()
        invariant
            tasks@.len() == old(tasks)@.len(),
            0 <= i <= tasks@.len(),
            forall|j: int|
                0 <= j < tasks@.len() ==> (#[trigger] tasks@[j]).name@ == old(tasks)@[j].name@,
            forall|j: int|
                0 <= j < tasks@.len() ==> dep_names((#[trigger] tasks@[j]).deps@) == dep_names(
                    old(tasks)@[j].deps@,
                ),
            forall|j: int| 0 <= j < tasks@.len() ==> (#[trigger] tasks@[j]).wf(),
            forall|j: int|
                0 <= j < tasks@.len() ==> (#[trigger] tasks@[j]).retries == old(tasks)@[j].retries && tasks@[j].retry_delay == old(tasks)@[j].retry_delay
                    && tasks@[j].backoff == old(tasks)@[j].backoff,
            forall|j: int| i <= j < tasks@.len() ==> #[trigger] tasks@[j] == old(tasks)@[j],
            forall|j: int, di: int|
                #![trigger tasks@[j].deps@[di]]
                0 <= j < i && 0 <= di < old(tasks)@[j].deps@.len() ==> tasks@[j].deps@[di].1 == (
                if old(tasks)@[j].deps@[di].0@ == name@ {
                    *output
                } else {
                    old(tasks)@[j].deps@[di].1
                }),
        decreases tasks@.len() - i,
    {
        let found = find_dep(&tasks[i].deps, name);
        if let Some(widx) = found {
            let ghost pre = tasks@;
            proof {
                assert(pre[i as int].deps@[widx as int].0@ == name@);
                assert(pre[i as int].has_dep(name@)) by {
                    assert(dep_names(pre[i as int].deps@)[widx as int] == name@);
                }
            }
            let mut t = tasks.remove(i);
            t.set_argument(name, output);
            tasks.insert(i, t);
            proof {
                assert(forall|j: int|
                    0 <= j < pre.len() && j != i ==> #[trigger] tasks@[j] == pre[j]);
                assert(dep_names(tasks@[i as int].deps@) =~= dep_names(pre[i as int].deps@)) by {
                    assert(tasks@[i as int].deps@.len() == pre[i as int].deps@.len());
                    assert(forall|di: int|
                        0 <= di < pre[i as int].deps@.len()
                            ==> (#[trigger] tasks@[i as int].deps@[di]).0@
                            == pre[i as int].deps@[di].0@);
                }
            }
        } else {
            proof {
                assert forall|di: int|
                    0 <= di < tasks@[i as int].deps@.len() implies (
                #[trigger] tasks@[i as int].deps@[di]).0@ != name@ by {
                    if tasks@[i as int].deps@[di].0@ == name@ {
                        assert(dep_names(tasks@[i as int].deps@)[di] == name@);
                        assert(dep_names(tasks@[i as int].deps@).contains(name@));
                    }
                }
            }
        }
        i += 1;
    }
}

/// Well-formedness carries across any change that keeps the task
/// names, the accumulator keys, the order and the expression.
proof fn lemma_wf_transfer(g1: Graph, g2: Graph)
    requires
        g1.wf(),
        g2.tasks@.len() == g1.tasks@.len(),
        forall|i: int|
            0 <= i < g1.tasks@.len() ==> (#[trigger] g2.tasks@[i]).name@ == g1.tasks@[i].name@,
        forall|i: int|
            0 <= i < g1.tasks@.len() ==> dep_names((#[trigger] g2.tasks@[i]).deps@) == dep_names(
                g1.tasks@[i].deps@,
            ),
        forall|i: int| 0 <= i < g1.tasks@.len() ==> (#[trigger] g2.tasks@[i]).wf(),
        g2.execution_order@ == g1.execution_order@,
        g2.expression == g1.expression,
    ensures
        g2.wf(),
{
    assert forall|i: int, j: int|
        0 <= i < j < g2.tasks@.len() implies (#[trigger] g2.tasks@[i]).name@ != (
    #[trigger] g2.tasks@[j]).name@ by {
        assert(g1.tasks@[i].name@ != g1.tasks@[j].name@);
    }
    assert forall|n: Seq<char>| true implies #[trigger] task_index(g2.tasks@, n) == task_index(
        g1.tasks@,
        n,
    ) by {
        lemma_task_index_names(g2.tasks@, g1.tasks@, n);
    }
    assert forall|i: int, di: int|
        0 <= i < g2.tasks@.len() && 0 <= di < g2.tasks@[i].deps@.len() implies task_index(
        g2.tasks@,
        (#[trigger] g2.tasks@[i].deps@[di]).0@,
    ) != -1 by {
        assert(dep_names(g2.tasks@[i].deps@) == dep_names(g1.tasks@[i].deps@));
        assert(dep_names(g2.tasks@[i].deps@).len() == g2.tasks@[i].deps@.len());
        assert(dep_names(g1.tasks@[i].deps@).len() == g1.tasks@[i].deps@.len());
        assert(g1.tasks@[i].deps@.len() == g2.tasks@[i].deps@.len());
        assert(dep_names(g2.tasks@[i].deps@)[di] == g2.tasks@[i].deps@[di].0@);
        assert(dep_names(g1.tasks@[i].deps@)[di] == g1.tasks@[i].deps@[di].0@);
        assert(g2.tasks@[i].deps@[di].0@ == g1.tasks@[i].deps@[di].0@);
        assert(task_index(g1.tasks@, g1.tasks@[i].deps@[di].0@) != -1);
    }
    if g2.execution_order@.len() > 0 {
        let order = g2.execution_order@;
        assert(order_valid(g1, order));
        assert forall|k: int, di: int| true implies #[trigger] order_dep_ok(g2, order, k, di) by {
            assert(order_dep_ok(g1, order, k, di));
            if 0 <= k < order.len() {
                let t1 = task_index(g1.tasks@, order[k]@);
                assert(task_index(g2.tasks@, order[k]@) == t1);
                assert(t1 != -1);
                lemma_task_index(g1.tasks@, order[k]@);
                assert(dep_names(g2.tasks@[t1].deps@) == dep_names(g1.tasks@[t1].deps@));
                assert(g2.tasks@[t1].deps@.len() == g1.tasks@[t1].deps@.len()) by {
                    assert(dep_names(g2.tasks@[t1].deps@).len() == g2.tasks@[t1].deps@.len());
                    assert(dep_names(g1.tasks@[t1].deps@).len() == g1.tasks@[t1].deps@.len());
                }
                if 0 <= di < g2.tasks@[t1].deps@.len() {
                    assert(dep_names(g2.tasks@[t1].deps@)[di] == g2.tasks@[t1].deps@[di].0@);
                    assert(dep_names(g1.tasks@[t1].deps@)[di] == g1.tasks@[t1].deps@[di].0@);
                    assert(g2.tasks@[t1].deps@[di].0@ == g1.tasks@[t1].deps@[di].0@);
                }
            }
        }
        assert forall|k: int|
            0 <= k < order.len() implies task_index(g2.tasks@, (#[trigger] order[k])@) != -1 by {
            assert(task_index(g1.tasks@, order[k]@) != -1);
        }
        assert forall|i: int|
            0 <= i < g2.tasks@.len() implies name_index(
            order,
            (#[trigger] g2.tasks@[i]).name@,
        ) != -1 by {
            assert(g2.tasks@[i].name@ == g1.tasks@[i].name@);
            assert(name_index(order, g1.tasks@[i].name@) != -1);
        }
        assert(order_valid(g2, order));
    }
}

impl Graph {
    /// One execution pass: the tasks run once each, in the memoized
    /// topological order, every accumulator first cleared for the new
    /// cycle. A root task receives the run configuration under the key
    /// `config`; every other task receives its accumulator, into which
    /// each of its dependencies has already written its output (the
    /// order guarantees every producer ran first). A task whose handler
    /// exhausts its retries aborts the pass with `HandlerFailure`; a
    /// graph not committed since its edges last changed refuses to run
    /// with `NotReady`.
    pub fn run<H: Handler>(&mut self, handler: &mut H, config: Message) -> (r: Result<
        Message,
        GraphError,
    >)
        requires
            old(self).wf(),
        ensures
            final(self).wf(),
            (r == Result::<Message, GraphError>::Err(GraphError::NotReady)) <==> !old(
                self,
            ).committed(),
            r == Result::<Message, GraphError>::Err(GraphError::NotReady) ==> *final(self)
                == *old(self),
            final(self).name == old(self).name,
            final(self).expression == old(self).expression,
            final(self).execution_order == old(self).execution_order,
            final(self).graph == old(self).graph,
            final(self).tasks@.len() == old(self).tasks@.len(),
            forall|i: int|
                0 <= i < old(self).tasks@.len() ==> (#[trigger] final(self).tasks@[i]).name@
                    == old(self).tasks@[i].name@,
            r is Err && old(self).committed() ==> r matches Err(GraphError::HandlerFailure(_)),
    {
        if self.execution_order.len() == 0 {
            return Err(GraphError::NotReady);
        }
        let ghost g0 = *self;
        // clear every accumulator for this run cycle
        let mut i: usize = 0;
        while i < self.tasks.len()
            invariant
                self.wf(),
                0 <= i <= self.tasks@.len(),
                self.name == old(self).name,
                self.expression == old(self).expression,
                self.execution_order == old(self).execution_order,
                self.graph == old(self).graph,
                self.committed(),
                self.tasks@.len() == old(self).tasks@.len(),
                forall|j: int|
                    0 <= j < old(self).tasks@.len() ==> (#[trigger] self.tasks@[j]).name@ == old(
                        self,
                    ).tasks@[j].name@,
                forall|j: int|
                    0 <= j < old(self).tasks@.len() ==> dep_names(
                        (#[trigger] self.tasks@[j]).deps@,
                    ) == dep_names(old(self).tasks@[j].deps@),
            decreases self.tasks@.len() - i,
        {
            let ghost gpre = *self;
            let mut t = self.tasks.remove(i);
            t.reset_inputs();
            self.tasks.insert(i, t);
            proof {
                assert(forall|j: int|
                    0 <= j < gpre.tasks@.len() && j != i ==> #[trigger] self.tasks@[j]
                        == gpre.tasks@[j]);
                lemma_wf_transfer(gpre, *self);
            }
            i += 1;
        }
        // the topological sweep
        let mut output: Message = None;
        let mut k: usize = 0;
        while k < self.execution_order.len()
            invariant
                self.wf(),
                0 <= k <= self.execution_order@.len(),
                self.name == old(self).name,
                self.expression == old(self).expression,
                self.execution_order == old(self).execution_order,
                self.graph == old(self).graph,
                self.committed(),
                self.tasks@.len() == old(self).tasks@.len(),
                forall|j: int|
                    0 <= j < old(self).tasks@.len() ==> (#[trigger] self.tasks@[j]).name@ == old(
                        self,
                    ).tasks@[j].name@,
            decreases self.execution_order@.len() - k,
        {
            let order_name = self.execution_order[k].clone();
            let ti = match find_task(&self.tasks, &order_name) {
                Some(i2) => i2,
                None => {
                    proof {
                        assert(order_valid(*self, self.execution_order@));
                        assert(task_index(self.tasks@, self.execution_order@[k as int]@) != -1);
                        assert(false);
                    }
                    return Err(GraphError::NotReady);
                },
            };
            let t = self.tasks[ti].duplicate();
            let res = if t.deps.len() == 0 {
                // a root task receives the run configuration
                let mut inputs: Vec<(String, crate::task::Message)> = Vec::new();
                inputs.push((String::from_str("config"), crate::task::clone_message(&config)));
                t.start(handler, &inputs)
            } else {
                t.start(handler, &t.deps)
            };
            match res {
                Ok(m) => {
                    output = m;
                },
                Err(_) => {
                    return Err(GraphError::HandlerFailure(order_name));
                },
            }
            let ghost gpre = *self;
            propagate(&mut self.tasks, &order_name, &output);
            proof {
                lemma_wf_transfer(gpre, *self);
            }
            k += 1;
        }
        Ok(output)
    }
}

/// No member of the stuck set appears among the first `n` names of the
/// order.
pub open spec fn prefix_free(g: Graph, s: Seq<int>, order: Seq<String>, n: int) -> bool {
    forall|k: int, k2: int|
        0 <= k < n && 0 <= k2 < s.len() ==> (#[trigger] order[k])@ != (
        #[trigger] g.tasks@[s[k2]]).name@
}

proof fn lemma_stuck_prefix(g: Graph, s: Seq<int>, order: Seq<String>, n: int)
    requires
        g.wf(),
        stuck_set(g, s),
        order_valid(g, order),
        0 <= n <= order.len(),
    ensures
        prefix_free(g, s, order, n),
    decreases n,
{
    if n > 0 {
        lemma_stuck_prefix(g, s, order, n - 1);
        assert forall|k: int, k2: int|
            0 <= k < n && 0 <= k2 < s.len() implies (#[trigger] order[k])@ != (
        #[trigger] g.tasks@[s[k2]]).name@ by {
            if k == n - 1 && order[k]@ == g.tasks@[s[k2]].name@ {
                // the stuck member waits on another member, which the
                // order would have to place even earlier
                assert(stuck_at(g, s, k2));
                let (di, k3) = choose|di: int, k3: int| #[trigger] stuck_witness(g, s, k2, di, k3);
                let ti = s[k2];
                assert(task_index(g.tasks@, order[k]@) == ti) by {
                    assert(g.tasks@[ti].name@ == order[k]@);
                    assert forall|i: int| 0 <= i < ti implies (#[trigger] g.tasks@[i]).name@
                        != order[k]@ by {}
                    lemma_task_index_eq(g.tasks@, order[k]@, ti);
                }
                let d = g.tasks@[ti].deps@[di].0@;
                assert(order_dep_ok(g, order, k, di));
                assert(0 <= name_index(order, d) < k);
                let j = name_index(order, d);
                lemma_name_index(order, d);
                assert(order[j]@ == d);
                assert(g.tasks@[s[k3]].name@ == d);
                assert(prefix_free(g, s, order, n - 1));
                assert(order[j]@ != g.tasks@[s[k3]].name@);
                assert(false);
            }
        }
    }
}

/// A nonempty set of tasks each waiting on another member of the set
/// admits no complete topological order at all: the converse of a
/// successful commit.
pub proof fn lemma_stuck_set_blocks(g: Graph, s: Seq<int>, order: Seq<String>)
    requires
        g.wf(),
        stuck_set(g, s),
    ensures
        !order_valid(g, order),
{
    if order_valid(g, order) {
        lemma_stuck_prefix(g, s, order, order.len() as int);
        let ti = s[0];
        let nm = g.tasks@[ti].name@;
        assert(name_index(order, nm) != -1);
        lemma_name_index(order, nm);
        let j = name_index(order, nm);
        assert(order[j]@ == nm);
        assert(order[j]@ != g.tasks@[s[0]].name@);
        assert(false);
    }
}

} // verus!
