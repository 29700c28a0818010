use tm::errors::{CronError, GraphError};
use tm::executor::Executor;
use tm::expression::Expression;
use tm::graph::Graph;
use tm::store::{config_load_decision, CacheDecision, CfgCache, Status};
use tm::task::{retry_delay_for, task, Handler, Message, Task};
use tm::timepoint::TimePoint;
use tm::unit::Unit;

/// Records every invocation and every requested sleep; one scripted
/// task may fail a fixed number of times before succeeding.
struct Recorder {
    invocations: Vec<(String, Vec<(String, Message)>)>,
    waits: Vec<u64>,
    flaky_task: String,
    failures_left: u32,
}

impl Recorder {
    fn new() -> Recorder {
        Recorder {
            invocations: Vec::new(),
            waits: Vec::new(),
            flaky_task: String::new(),
            failures_left: 0,
        }
    }

    fn flaky(name: &str, failures: u32) -> Recorder {
        Recorder {
            invocations: Vec::new(),
            waits: Vec::new(),
            flaky_task: name.to_string(),
            failures_left: failures,
        }
    }
}

impl Handler for Recorder {
    fn invoke(
        &mut self,
        task: &String,
        inputs: &Vec<(String, Message)>,
    ) -> Result<Message, String> {
        self.invocations.push((task.clone(), inputs.clone()));
        if *task == self.flaky_task && self.failures_left > 0 {
            self.failures_left -= 1;
            return Err(format!("{} failed", task));
        }
        Ok(Some(format!("out-{}", task)))
    }

    fn wait(&mut self, secs: u64) {
        self.waits.push(secs);
    }
}

fn named(n: &str) -> Task {
    task(n.to_string(), 0, 0, 0)
}

#[test]
fn cycle_fails_commit() {
    let mut g = Graph::new("loops".to_string(), "manual").unwrap();
    let a = named("A");
    let b = named("B");
    g.add_edges(vec![a], Some(vec![b])).unwrap();
    let a = named("A");
    let b = named("B");
    g.add_edges(vec![b], Some(vec![a])).unwrap();
    assert!(matches!(g.commit(), Err(GraphError::CycleError)));
}

#[test]
fn diamond_commits_in_order() {
    let mut g = Graph::new("diamond".to_string(), "manual").unwrap();
    g.add_edges(vec![named("A")], Some(vec![named("B"), named("C")]))
        .unwrap();
    g.add_edges(vec![named("B"), named("C")], Some(vec![named("D")]))
        .unwrap();
    g.commit().unwrap();
    let order = g.execution_order.clone();
    let pos = |n: &str| order.iter().position(|x| x == n).unwrap();
    assert_eq!(order.len(), 4);
    assert!(pos("A") < pos("B"));
    assert!(pos("A") < pos("C"));
    assert!(pos("B") < pos("D"));
    assert!(pos("C") < pos("D"));
}

#[test]
fn fan_in_receives_both_outputs() {
    let mut g = Graph::new("fanin".to_string(), "manual").unwrap();
    g.add_edges(vec![named("A")], Some(vec![named("B"), named("C")]))
        .unwrap();
    g.add_edges(vec![named("B"), named("C")], Some(vec![named("D")]))
        .unwrap();
    g.commit().unwrap();
    let mut h = Recorder::new();
    g.run(&mut h, Some("cfg".to_string())).unwrap();
    let d_runs: Vec<_> = h
        .invocations
        .iter()
        .filter(|(n, _)| n == "D")
        .collect();
    assert_eq!(d_runs.len(), 1); // invoked exactly once per run
    let inputs = &d_runs[0].1;
    assert_eq!(inputs.len(), 2);
    let get = |n: &str| {
        inputs
            .iter()
            .find(|(k, _)| k == n)
            .unwrap()
            .1
            .clone()
            .unwrap()
    };
    assert_eq!(get("B"), "out-B");
    assert_eq!(get("C"), "out-C");
    // the root received the run configuration
    let a_runs: Vec<_> = h
        .invocations
        .iter()
        .filter(|(n, _)| n == "A")
        .collect();
    assert_eq!(a_runs.len(), 1);
    assert_eq!(a_runs[0].1[0].0, "config");
    assert_eq!(a_runs[0].1[0].1, Some("cfg".to_string()));
}

#[test]
fn retry_accounting() {
    let mut g = Graph::new("retry".to_string(), "manual").unwrap();
    let t = task("T".to_string(), 3, 1, 1);
    g.add_edges(vec![t], None).unwrap();
    g.commit().unwrap();
    let mut h = Recorder::flaky("T", 2);
    g.run(&mut h, None).unwrap();
    // failed twice, then succeeded: three invocations in all
    assert_eq!(h.invocations.len(), 3);
    // the inter-attempt delays grow with the backoff: one, then two
    assert_eq!(h.waits, vec![1, 2]);
}

#[test]
fn retry_exhaustion_fails_run() {
    let mut g = Graph::new("exhaust".to_string(), "manual").unwrap();
    let t = task("T".to_string(), 2, 0, 0);
    g.add_edges(vec![t], None).unwrap();
    g.commit().unwrap();
    let mut h = Recorder::flaky("T", 5);
    let r = g.run(&mut h, None);
    assert!(matches!(r, Err(GraphError::HandlerFailure(_))));
    assert_eq!(h.invocations.len(), 3); // first try plus two retries
}

#[test]
fn run_before_commit_is_not_ready() {
    let mut g = Graph::new("raw".to_string(), "manual").unwrap();
    g.add_edges(vec![named("A")], None).unwrap();
    let mut h = Recorder::new();
    assert!(matches!(g.run(&mut h, None), Err(GraphError::NotReady)));
}

#[test]
fn edge_mutation_invalidates_order() {
    let mut g = Graph::new("stale".to_string(), "manual").unwrap();
    g.add_edges(vec![named("A")], None).unwrap();
    g.commit().unwrap();
    assert!(g.is_sorted());
    g.add_edges(vec![named("A")], Some(vec![named("B")])).unwrap();
    assert!(!g.is_sorted());
    let mut h = Recorder::new();
    assert!(matches!(g.run(&mut h, None), Err(GraphError::NotReady)));
}

#[test]
fn empty_graph_cannot_commit() {
    let mut g = Graph::new("hollow".to_string(), "manual").unwrap();
    assert!(matches!(g.commit(), Err(GraphError::EmptyGraph)));
}

#[test]
fn retry_delay_formula() {
    assert_eq!(retry_delay_for(1, 1, 0), 1);
    assert_eq!(retry_delay_for(1, 1, 1), 2);
    assert_eq!(retry_delay_for(5, 3, 2), 35);
    assert_eq!(retry_delay_for(0, 9, 9), 0);
    assert_eq!(retry_delay_for(u64::MAX, 2, 3), u64::MAX); // saturates
}

#[test]
fn config_cache_round_trip() {
    let mut c = CfgCache::new();
    let key = "cfg1".to_string();
    assert_eq!(c.read_cfg(&key), None);
    c.upsert_cfg(&key, "t1".to_string(), "payload-one".to_string());
    assert_eq!(
        c.read_cfg(&key),
        Some(("t1".to_string(), "payload-one".to_string()))
    );
    // an unchanged source keeps serving the byte-identical cached payload
    let first = match config_load_decision(c.read_cfg(&key), &"t1".to_string()) {
        CacheDecision::UseCached(p) => p,
        CacheDecision::Reload => panic!("expected the cached payload"),
    };
    let second = match config_load_decision(c.read_cfg(&key), &"t1".to_string()) {
        CacheDecision::UseCached(p) => p,
        CacheDecision::Reload => panic!("expected the cached payload"),
    };
    assert_eq!(first, "payload-one");
    assert_eq!(first, second);
    // a touched source forces a reload and a cache update
    assert!(matches!(
        config_load_decision(c.read_cfg(&key), &"t2".to_string()),
        CacheDecision::Reload
    ));
    c.upsert_cfg(&key, "t2".to_string(), "payload-two".to_string());
    assert_eq!(
        c.read_cfg(&key),
        Some(("t2".to_string(), "payload-two".to_string()))
    );
    // other keys are untouched
    assert_eq!(c.read_cfg(&"other".to_string()), None);
}

#[test]
fn status_sql_text() {
    assert_eq!(Status::Failed.to_sql(), "failed");
    assert_eq!(Status::Completed.to_sql(), "completed");
    assert_eq!(Status::Running.to_sql(), "running");
}

#[test]
fn executor_orders_deadlines() {
    let now = TimePoint::new(2024, 1, 31, 12, 0);
    // fires every minute: due 12:01
    let g1 = Graph::new("g1".to_string(), "* * * * *").unwrap();
    // fires on the hour: due 13:00
    let g2 = Graph::new("g2".to_string(), "0 * * * *").unwrap();
    // fires every minute as well: merges into the 12:01 bucket
    let g3 = Graph::new("g3".to_string(), "* * * * *").unwrap();
    let mut ex = Executor::new();
    ex.add(g2, &now).unwrap();
    ex.add(g1, &now).unwrap();
    ex.add(g3, &now).unwrap();
    let (t_first, due_first) = ex.pop_due().unwrap();
    assert_eq!(t_first, TimePoint::new(2024, 1, 31, 12, 1));
    assert_eq!(due_first.len(), 2);
    assert_eq!(due_first[0].name, "g1");
    assert_eq!(due_first[1].name, "g3");
    let (t_second, due_second) = ex.pop_due().unwrap();
    assert_eq!(t_second, TimePoint::new(2024, 1, 31, 13, 0));
    assert_eq!(due_second.len(), 1);
    assert!(ex.pop_due().is_none());
}

#[test]
fn manual_graph_has_no_trigger() {
    let g = Graph::new("m".to_string(), "MANUAL").unwrap();
    assert!(g.is_manual());
    assert!(g.next().is_none());
    let g2 = Graph::new("t".to_string(), "* * * * *").unwrap();
    assert!(!g2.is_manual());
    assert!(g2.next().unwrap().is_ok());
}

#[test]
fn parse_error_variants() {
    // a step attached to a bare value
    assert!(matches!(
        Expression::from_str("5/2 * * * *"),
        Err(CronError::ParseError)
    ));
    // a zero step
    assert!(matches!(
        Expression::from_str("*/0 * * * *"),
        Err(CronError::ParseError)
    ));
    // out-of-domain bounds
    assert!(matches!(
        Expression::from_str("61 * * * *"),
        Err(CronError::ParseError)
    ));
    // reversed range
    assert!(matches!(
        Expression::from_str("30-10 * * * *"),
        Err(CronError::ParseError)
    ));
    // wrong field count
    assert!(matches!(
        Expression::from_str("* * * *"),
        Err(CronError::ParseError)
    ));
    // no real calendar date within the bounded search
    assert!(matches!(
        Expression::from_str("0 0 30 2 *"),
        Err(CronError::ScheduleUnsatisfiable)
    ));
}

#[test]
fn unit_helpers() {
    assert_eq!(tm::helpers::get_next(&vec![10, 20], 15), (20, false));
    assert_eq!(tm::helpers::get_next(&vec![10, 20], 25), (10, true));
    assert_eq!(tm::helpers::get_next(&vec![10, 20], 5), (10, false));
    assert!(tm::helpers::is_leap_year(2024));
    assert!(!tm::helpers::is_leap_year(2100));
    assert!(tm::helpers::is_leap_year(2000));
    assert_eq!(tm::helpers::days_in_month(2024, 2), 29);
    assert_eq!(tm::helpers::days_in_month(2023, 2), 28);
    assert_eq!(tm::helpers::days_in_month(2024, 4), 30);
    assert_eq!(tm::helpers::days_in_month(2024, 1), 31);
    let t = TimePoint::new(2024, 12, 31, 23, 59);
    let n = tm::helpers::next_month(t);
    assert_eq!((n.year, n.month, n.day, n.hour, n.minute), (2025, 1, 1, 0, -1));
    assert_eq!(Unit::Year.next(), Unit::Month);
    assert_eq!(Unit::Minute.next(), Unit::Stop);
    let set = Unit::Hour.set(t, 5);
    assert_eq!(set.hour, 5);
    assert_eq!(set.year, 2024);
}

#[test]
fn range_value_lists() {
    let chars = |s: &str| s.chars().collect::<Vec<char>>();
    assert_eq!(
        Unit::Minute.range_from_str(&chars("0-30/15")).unwrap(),
        vec![0, 15, 30]
    );
    assert_eq!(
        Unit::Minute.range_from_str(&chars("*/20")).unwrap(),
        vec![0, 20, 40]
    );
    assert_eq!(Unit::Dow.range_from_str(&chars("*")).unwrap(), vec![
        0, 1, 2, 3, 4, 5, 6
    ]);
    assert_eq!(Unit::Month.range_from_str(&chars("3")).unwrap(), vec![3]);
    assert!(Unit::Month.range_from_str(&chars("0")).is_err());
    assert!(Unit::Dom.range_from_str(&chars("32")).is_err());
}

#[test]
fn named_tokens_normalize() {
    let chars = |s: &str| s.chars().collect::<Vec<char>>();
    let fields = vec![
        chars("0"),
        chars("0"),
        chars("*"),
        chars("JAN-Mar"),
        chars("sat"),
    ];
    let n = Unit::parse_to_numeric(fields);
    assert_eq!(n[3], chars("1-3"));
    assert_eq!(n[4], chars("6"));
}

#[test]
fn timepoint_ordering() {
    let a = TimePoint::new(2024, 2, 29, 0, 0);
    let b = TimePoint::new(2024, 3, 1, 0, 0);
    assert!(a.before(&b));
    assert!(!b.before(&a));
    assert!(!a.before(&a));
}

#[test]
fn monotonic_successive_occurrences() {
    // next(e, t) > t, and next(e, next(e, t)) > next(e, t)
    let e = Expression::from_str("*/7 3 * * *").unwrap();
    let t0 = TimePoint::new(2024, 5, 17, 2, 30);
    let t1 = e.next(&t0).unwrap();
    let t2 = e.next(&t1).unwrap();
    assert!(t0.before(&t1));
    assert!(t1.before(&t2));
}

#[test]
fn calendar_conversions_round_trip() {
    let t = TimePoint::new(2024, 2, 29, 13, 45);
    let n = tm::timepoint::from_hash(t);
    let back = tm::timepoint::to_hash(n);
    assert_eq!(back, t);
}

#[test]
fn month_wrap_carries_into_next_year() {
    // the schedule admits Feb 29 and Jun 29; after the June firing of a
    // common year, the next occurrence is Feb 29 of the following leap
    // year, not a later one
    let e = Expression::from_str("0 0 29 2,6 *").unwrap();
    let t = e.next(&TimePoint::new(2027, 6, 29, 23, 59)).unwrap();
    assert_eq!(t, TimePoint::new(2028, 2, 29, 0, 0));
    // and a plain wrap to the following January
    let e2 = Expression::from_str("* * 2 * *").unwrap();
    let t2 = e2.next(&TimePoint::new(2024, 12, 31, 23, 59)).unwrap();
    assert_eq!(t2, TimePoint::new(2025, 1, 2, 0, 0));
}

#[test]
fn commit_is_idempotent() {
    let mut g = Graph::new("twice".to_string(), "manual").unwrap();
    g.add_edges(vec![named("A")], Some(vec![named("B")])).unwrap();
    g.commit().unwrap();
    let first = g.execution_order.clone();
    g.commit().unwrap();
    assert_eq!(g.execution_order, first);
}

#[test]
fn executor_keeps_other_buckets() {
    let now = TimePoint::new(2024, 1, 31, 12, 0);
    let g1 = Graph::new("g1".to_string(), "0 * * * *").unwrap();
    let g2 = Graph::new("g2".to_string(), "* * * * *").unwrap();
    let mut ex = Executor::new();
    ex.add(g1, &now).unwrap();
    ex.add(g2, &now).unwrap();
    // the later deadline from the first insertion survived the second
    let (t_first, _) = ex.pop_due().unwrap();
    let (t_second, _) = ex.pop_due().unwrap();
    assert_eq!(t_first, TimePoint::new(2024, 1, 31, 12, 1));
    assert_eq!(t_second, TimePoint::new(2024, 1, 31, 13, 0));
}
