//! Tasks: a named unit of work with fan-in dependencies and a retry
//! policy.

use vstd::prelude::*;

verus! {

/// The untyped document that flows between tasks: a serialized payload,
/// or nothing.
pub type Message = Option<String>;

/// The opaque execution substrate a graph drives: it runs one named
/// task body on its accumulated inputs, and it suspends the (single,
/// cooperative) engine thread between retry attempts. Nothing is
/// promised of either operation; every property of the engine holds
/// whatever an implementation does.
pub trait Handler {
    /// Run the task's body on the given inputs.
    fn invoke(&mut self, task: &String, inputs: &Vec<(String, Message)>) -> Result<
        Message,
        String,
    >;

    /// Block for the given number of seconds before the next attempt.
    fn wait(&mut self, secs: u64);
}

/// A named node of the graph: the names of the dependencies whose
/// outputs it requires (each paired with the last output received this
/// run), and its retry policy.
#[derive(Clone, Debug)]
pub struct Task {
    pub name: String,
    /// Accumulator: dependency name, and the output last received from
    /// it during the current run.
    pub deps: Vec<(String, Message)>,
    pub retries: u64,
    pub retry_delay: u64,
    pub backoff: u64,
}

/// Keys of an accumulator, in order.
pub open spec fn dep_names(deps: Seq<(String, Message)>) -> Seq<Seq<char>> {
    deps.map_values(|p: (String, Message)| p.0@)
}

/// No dependency name occurs twice.
pub open spec fn deps_unique(deps: Seq<(String, Message)>) -> bool {
    forall|i: int, j: int| 0 <= i < j < deps.len() ==> dep_names(deps)[i] != dep_names(deps)[j]
}

impl Task {
    pub open spec fn wf(self) -> bool {
        deps_unique(self.deps@)
    }

    /// The accumulator holds an entry for this dependency name.
    pub open spec fn has_dep(self, p: Seq<char>) -> bool {
        dep_names(self.deps@).contains(p)
    }

}

/// A value copy of a message.
pub fn clone_message(m: &Message) -> (r: Message)
    ensures
        r == *m,
{
    match m {
        None => None,
        Some(s) => Some(s.clone()),
    }
}

impl Task {
    /// Clone the node so that each field keeps its value.
    pub fn duplicate(&self) -> (r: Task)
        ensures
            r.name == self.name,
            r.deps@ == self.deps@,
            r.retries == self.retries,
            r.retry_delay == self.retry_delay,
            r.backoff == self.backoff,
    {
        let mut deps: Vec<(String, Message)> = Vec::new();
        let mut i: usize = 0;
        while i < self.deps.len()
            invariant
                0 <= i <= self.deps@.len(),
                deps@ =~= self.deps@.subrange(0, i as int),
            decreases self.deps@.len() - i,
        {
            let entry = (self.deps[i].0.clone(), clone_message(&self.deps[i].1));
            deps.push(entry);
            proof {
                assert(deps@ =~= self.deps@.subrange(0, i + 1));
            }
            i += 1;
        }
        proof {
            assert(deps@ =~= self.deps@);
        }
        Task {
            name: self.name.clone(),
            deps,
            retries: self.retries,
            retry_delay: self.retry_delay,
            backoff: self.backoff,
        }
    }
}

/// Make a task with the given retry policy and no dependencies.
pub fn task(name: String, retries: u64, retry_delay: u64, backoff: u64) -> (t: Task)
    ensures
        t.name == name,
        t.deps@.len() == 0,
        t.retries == retries,
        t.retry_delay == retry_delay,
        t.backoff == backoff,
        t.wf(),
{
    Task { name, deps: Vec::new(), retries, retry_delay, backoff }
}

/// The sleep before retry attempt `attempt` (counting from zero):
/// `base + base * backoff * attempt`.
pub open spec fn spec_retry_delay(base: int, backoff: int, attempt: int) -> int {
    base + base * backoff * attempt
}

/// Compute the retry delay, saturating at the largest representable
/// value where the exact formula does not fit.
pub fn retry_delay_for(base: u64, backoff: u64, attempt: u64) -> (r: u64)
    ensures
        spec_retry_delay(base as int, backoff as int, attempt as int) <= u64::MAX ==> r as int
            == spec_retry_delay(base as int, backoff as int, attempt as int),
        spec_retry_delay(base as int, backoff as int, attempt as int) > u64::MAX ==> r
            == u64::MAX,
{
    if base == 0 {
        proof {
            assert(base * backoff * attempt == 0) by (nonlinear_arith)
                requires
                    base == 0,
            ;
        }
        return 0;
    }
    let steps = match backoff.checked_mul(attempt) {
        Some(v) => v,
        None => {
            proof {
                assert(base * backoff * attempt >= backoff * attempt) by (nonlinear_arith)
                    requires
                        backoff * attempt > u64::MAX,
                        base >= 1,
                ;
                assert(base * backoff * attempt == base * (backoff * attempt))
                    by (nonlinear_arith);
            }
            return u64::MAX;
        },
    };
    let grown = match base.checked_mul(steps) {
        Some(v) => v,
        None => {
            proof {
                assert(base * backoff * attempt == base * (backoff * attempt))
                    by (nonlinear_arith);
            }
            return u64::MAX;
        },
    };
    proof {
        assert(base * backoff * attempt == base * (backoff * attempt)) by (nonlinear_arith);
    }
    match base.checked_add(grown) {
        Some(v) => v,
        None => u64::MAX,
    }
}

/// Index of a dependency name in an accumulator.
pub fn find_dep(deps: &Vec<(String, Message)>, name: &String) -> (r: Option<usize>)
    ensures
        r matches Some(i) ==> i < deps@.len() && deps@[i as int].0@ == name@,
        r is None ==> !dep_names(deps@).contains(name@),
{
    let mut i: usize = 0;
    while i < deps.len()
        invariant
            0 <= i <= deps@.len(),
            forall|j: int| 0 <= j < i ==> #[trigger] deps@[j].0@ != name@,
        decreases deps@.len() - i,
    {
        if deps[i].0 == *name {
            return Some(i);
        }
        i += 1;
    }
    proof {
        if dep_names(deps@).contains(name@) {
            let w = choose|w: int|
                0 <= w < dep_names(deps@).len() && dep_names(deps@)[w] == name@;
            assert(deps@[w].0@ == name@);
        }
    }
    None
}

impl Task {
    /// Append a dependency name to the accumulator if it is not yet
    /// declared, with no output received.
    pub fn add_dep(&mut self, parent: &String)
        requires
            old(self).wf(),
        ensures
            final(self).wf(),
            final(self).name == old(self).name,
            final(self).retries == old(self).retries && final(self).retry_delay == old(
                self,
            ).retry_delay && final(self).backoff == old(self).backoff,
            forall|p: Seq<char>|
                final(self).has_dep(p) <==> (old(self).has_dep(p) || p == parent@),
            old(self).has_dep(parent@) ==> final(self).deps@ == old(self).deps@,
    {
        match find_dep(&self.deps, parent) {
            Some(i) => {
                proof {
                    assert(dep_names(self.deps@)[i as int] == parent@);
                    assert(self.has_dep(parent@));
                }
            },
            None => {
                let ghost pre = self.deps@;
                self.deps.push((parent.clone(), None));
                proof {
                    assert(dep_names(self.deps@) =~= dep_names(pre).push(parent@));
                    assert forall|p: Seq<char>| self.has_dep(p) implies (dep_names(
                        pre,
                    ).contains(p) || p == parent@) by {
                        let w = choose|w: int|
                            0 <= w < dep_names(self.deps@).len() && dep_names(self.deps@)[w]
                                == p;
                        if w < pre.len() {
                            assert(dep_names(pre)[w] == p);
                        }
                    }
                    assert forall|p: Seq<char>| (dep_names(pre).contains(p) || p == parent@)
                        implies self.has_dep(p) by {
                        if dep_names(pre).contains(p) {
                            let w = choose|w: int|
                                0 <= w < dep_names(pre).len() && dep_names(pre)[w] == p;
                            assert(dep_names(self.deps@)[w] == p);
                        } else {
                            assert(dep_names(self.deps@)[pre.len() as int] == parent@);
                        }
                    }
                }
            },
        }
    }

    /// Record the output a dependency produced this run, creating the
    /// entry if the dependency was not declared.
    pub fn set_argument(&mut self, name: &String, value: &Message)
        requires
            old(self).wf(),
        ensures
            final(self).wf(),
            final(self).name == old(self).name,
            final(self).retries == old(self).retries && final(self).retry_delay == old(
                self,
            ).retry_delay && final(self).backoff == old(self).backoff,
            forall|p: Seq<char>|
                final(self).has_dep(p) <==> (old(self).has_dep(p) || p == name@),
            old(self).has_dep(name@) ==> final(self).deps@.len() == old(self).deps@.len(),
            forall|i: int|
                0 <= i < old(self).deps@.len() ==> (#[trigger] final(self).deps@[i]).0@ == old(
                    self,
                ).deps@[i].0@,
            forall|i: int|
                0 <= i < old(self).deps@.len() ==> (#[trigger] final(self).deps@[i]).1 == (if old(
                    self,
                ).deps@[i].0@ == name@ {
                    *value
                } else {
                    old(self).deps@[i].1
                }),
            !old(self).has_dep(name@) ==> final(self).deps@.len() == old(self).deps@.len()
                + 1 && final(self).deps@.last().0@ == name@ && final(self).deps@.last().1
                == *value,
    {
        let v: Message = match value {
            None => None,
            Some(s) => Some(s.clone()),
        };
        match find_dep(&self.deps, name) {
            Some(i) => {
                let ghost pre = self.deps@;
                let entry = (name.clone(), v);
                self.deps.set(i, entry);
                proof {
                    assert(dep_names(self.deps@) =~= dep_names(pre));
                    assert(dep_names(pre)[i as int] == name@);
                    assert(self.has_dep(name@));
                    assert forall|j: int|
                        0 <= j < self.deps@.len() && j != i as int implies (
                        #[trigger] self.deps@[j]).0@ != name@ by {
                        if j < i as int {
                            assert(dep_names(pre)[j] != dep_names(pre)[i as int]);
                        } else {
                            assert(dep_names(pre)[i as int] != dep_names(pre)[j]);
                        }
                        assert(dep_names(pre)[j] == pre[j].0@);
                    }
                }
            },
            None => {
                let ghost pre = self.deps@;
                self.deps.push((name.clone(), v));
                proof {
                    assert(dep_names(self.deps@) =~= dep_names(pre).push(name@));
                    assert forall|p: Seq<char>| self.has_dep(p) implies (dep_names(
                        pre,
                    ).contains(p) || p == name@) by {
                        let w = choose|w: int|
                            0 <= w < dep_names(self.deps@).len() && dep_names(self.deps@)[w]
                                == p;
                        if w < pre.len() {
                            assert(dep_names(pre)[w] == p);
                        }
                    }
                    assert forall|p: Seq<char>| (dep_names(pre).contains(p) || p == name@)
                        implies self.has_dep(p) by {
                        if dep_names(pre).contains(p) {
                            let w = choose|w: int|
                                0 <= w < dep_names(pre).len() && dep_names(pre)[w] == p;
                            assert(dep_names(self.deps@)[w] == p);
                        } else {
                            assert(dep_names(self.deps@)[pre.len() as int] == name@);
                        }
                    }
                    assert forall|j: int|
                        0 <= j < pre.len() implies (#[trigger] pre[j]).0@ != name@ by {
                        assert(dep_names(pre)[j] == pre[j].0@);
                        if pre[j].0@ == name@ {
                            assert(dep_names(pre).contains(name@));
                        }
                    }
                }
            },
        }
    }

    /// Clear the accumulator for a new run cycle: every declared
    /// dependency forgets the output it held.
    pub fn reset_inputs(&mut self)
        requires
            old(self).wf(),
        ensures
            final(self).wf(),
            final(self).name == old(self).name,
            final(self).retries == old(self).retries && final(self).retry_delay == old(
                self,
            ).retry_delay && final(self).backoff == old(self).backoff,
            final(self).deps@.len() == old(self).deps@.len(),
            forall|i: int|
                0 <= i < old(self).deps@.len() ==> (#[trigger] final(self).deps@[i]).0 == old(
                    self,
                ).deps@[i].0,
            forall|i: int|
                0 <= i < old(self).deps@.len() ==> (#[trigger] final(self).deps@[i]).1 is None,
            dep_names(final(self).deps@) == dep_names(old(self).deps@),
    {
        let mut i: usize = 0;
        while i < self.deps.len()
            invariant
                0 <= i <= self.deps@.len(),
                self.deps@.len() == old(self).deps@.len(),
                self.name == old(self).name,
                self.retries == old(self).retries && self.retry_delay == old(self).retry_delay
                    && self.backoff == old(self).backoff,
                forall|j: int|
                    0 <= j < self.deps@.len() ==> (#[trigger] self.deps@[j]).0 == old(
                        self,
                    ).deps@[j].0,
                forall|j: int| 0 <= j < i ==> (#[trigger] self.deps@[j]).1 is None,
            decreases self.deps@.len() - i,
        {
            let entry = (self.deps[i].0.clone(), None);
            self.deps.set(i, entry);
            i += 1;
        }
        proof {
            assert(dep_names(self.deps@) =~= dep_names(old(self).deps@));
        }
    }

    /// Invoke the handler for the named node. A failed attempt is retried
    /// at most `retries` times, after ever longer pauses; when every
    /// attempt has failed, the last error is returned.
    pub fn start<H: crate::task::Handler>(
        &self,
        handler: &mut H,
        inputs: &Vec<(String, Message)>,
    ) -> (r: Result<Message, String>) {
        let mut msg = handler.invoke(&self.name, inputs);
        if msg.is_ok() {
            return msg;
        }
        let mut i: u64 = 0;
        while i < self.retries
            decreases self.retries - i,
        {
            let secs = retry_delay_for(self.retry_delay, self.backoff, i);
            handler.wait(secs);
            msg = handler.invoke(&self.name, inputs);
            if msg.is_ok() {
                return msg;
            }
            i += 1;
        }
        msg
    }
}

} // verus!
