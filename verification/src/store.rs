//! The run-log and config-cache collaborator: its data model and the
//! decision logic of both sides of the contract. The transport that
//! carries these operations between processes lives outside the
//! library.

use vstd::prelude::*;

verus! {

/// Lifecycle status of one recorded graph run.
#[derive(Clone, Copy, Debug, PartialEq, Eq, Structural)]
pub enum Status {
    Completed,
    Running,
    Failed,
}

impl Status {
    /// The text stored for this status in the persisted log.
    pub fn to_sql(&self) -> (r: &'static str)
        ensures
            r@ == match self {
                Status::Failed => "failed"@,
                Status::Completed => "completed"@,
                Status::Running => "running"@,
            },
    {
        match self {
            Status::Failed => "failed",
            Status::Completed => "completed",
            Status::Running => "running",
        }
    }
}

/// One durable run-log row: id, graph name, start and end instants (as
/// text), and the run's status.
#[derive(Clone, Debug)]
pub struct RunLogEntry {
    pub id: u64,
    pub name: String,
    pub start_time: String,
    pub end_time: String,
    pub status: Status,
}

/// The in-memory config cache of the store: each key holds the source's
/// last-known modification time and the serialized payload cached for
/// it.
pub struct CfgCache {
    pub entries: Vec<(String, (String, String))>,
}

/// Keys of the cache, in insertion order.
pub open spec fn cache_keys(entries: Seq<(String, (String, String))>) -> Seq<Seq<char>> {
    entries.map_values(|p: (String, (String, String))| p.0@)
}

/// Index of the first entry whose key is `key`, `-1` if absent.
pub open spec fn key_index(entries: Seq<(String, (String, String))>, key: Seq<char>) -> int
    decreases entries.len(),
{
    if entries.len() == 0 {
        -1
    } else if entries[0].0@ == key {
        0
    } else {
        let sub = key_index(entries.skip(1), key);
        if sub == -1 {
            -1
        } else {
            sub + 1
        }
    }
}

/// The first position carrying `key` is characterized by what stands
/// before and at it.
pub proof fn lemma_key_index(entries: Seq<(String, (String, String))>, key: Seq<char>)
    ensures
        key_index(entries, key) == -1 ==> forall|i: int|
            0 <= i < entries.len() ==> (#[trigger] entries[i]).0@ != key,
        key_index(entries, key) != -1 ==> {
            let k = key_index(entries, key);
            &&& 0 <= k < entries.len()
            &&& entries[k].0@ == key
            &&& forall|i: int| 0 <= i < k ==> (#[trigger] entries[i]).0@ != key
        },
    decreases entries.len(),
{
    if entries.len() == 0 {
    } else if entries[0].0@ == key {
    } else {
        let t = entries.skip(1);
        lemma_key_index(t, key);
        assert(forall|i: int| 0 <= i < t.len() ==> #[trigger] t[i] == entries[i + 1]);
        let sub = key_index(t, key);
        if sub == -1 {
            assert forall|i: int| 0 <= i < entries.len() implies (#[trigger] entries[i]).0@
                != key by {
                if i > 0 {
                    assert(t[i - 1].0@ != key);
                }
            }
        } else {
            let k = key_index(entries, key);
            assert(k == sub + 1);
            assert(entries[k].0@ == key);
            assert forall|i: int| 0 <= i < k implies (#[trigger] entries[i]).0@ != key by {
                if i > 0 {
                    assert(t[i - 1].0@ != key);
                }
            }
        }
    }
}

/// Conversely, a position with `key` and nothing carrying `key` before
/// it is the first.
pub proof fn lemma_key_index_eq(entries: Seq<(String, (String, String))>, key: Seq<char>, w: int)
    requires
        0 <= w < entries.len(),
        entries[w].0@ == key,
        forall|i: int| 0 <= i < w ==> (#[trigger] entries[i]).0@ != key,
    ensures
        key_index(entries, key) == w,
    decreases entries.len(),
{
    if w == 0 {
    } else {
        let t = entries.skip(1);
        assert(forall|i: int| 0 <= i < t.len() ==> #[trigger] t[i] == entries[i + 1]);
        assert forall|i: int| 0 <= i < w - 1 implies (#[trigger] t[i]).0@ != key by {
            assert(t[i] == entries[i + 1]);
        }
        lemma_key_index_eq(t, key, w - 1);
    }
}

/// The cached pair under `key` in an entry list, if any.
pub open spec fn cache_lookup(entries: Seq<(String, (String, String))>, key: Seq<char>) -> Option<
    (String, String),
> {
    let i = key_index(entries, key);
    if i == -1 {
        None
    } else {
        Some(entries[i].1)
    }
}

/// Index of a key in the entry list.
fn find_key(entries: &Vec<(String, (String, String))>, key: &String) -> (r: Option<usize>)
    ensures
        r matches Some(i) ==> i < entries@.len() && entries@[i as int].0@ == key@,
        r is None ==> forall|j: int| 0 <= j < entries@.len() ==> #[trigger] entries@[j].0@ != key@,
{
    let mut i: usize = 0;
    while i < entries.len()
        invariant
            0 <= i <= entries@.len(),
            forall|j: int| 0 <= j < i ==> #[trigger] entries@[j].0@ != key@,
        decreases entries@.len() - i,
    {
        if entries[i].0 == *key {
            return Some(i);
        }
        i += 1;
    }
    None
}

impl CfgCache {
    pub open spec fn wf(self) -> bool {
        forall|i: int, j: int|
            0 <= i < j < self.entries@.len() ==> cache_keys(self.entries@)[i] != cache_keys(
                self.entries@,
            )[j]
    }

    /// The cached (modification time, payload) pair under `key`, if any.
    pub open spec fn lookup(self, key: Seq<char>) -> Option<(String, String)> {
        cache_lookup(self.entries@, key)
    }

    pub fn new() -> (r: CfgCache)
        ensures
            r.wf(),
            forall|k: Seq<char>| r.lookup(k) is None,
    {
        CfgCache { entries: Vec::new() }
    }

    /// Store (or replace) the cached pair under `key`.
    pub fn upsert_cfg(&mut self, key: &String, time: String, cfg: String)
        requires
            old(self).wf(),
        ensures
            final(self).wf(),
            final(self).lookup(key@) == Some((time, cfg)),
            forall|k: Seq<char>| k != key@ ==> final(self).lookup(k) == old(self).lookup(k),
    {
        let ghost pre = self.entries@;
        match find_key(&self.entries, key) {
            Some(i) => {
                let entry = (key.clone(), (time, cfg));
                self.entries.set(i, entry);
                proof {
                    assert(cache_keys(self.entries@) =~= cache_keys(pre)) by {
                        assert(pre[i as int].0@ == key@);
                        assert forall|j: int|
                            0 <= j < pre.len() implies cache_keys(self.entries@)[j]
                            == cache_keys(pre)[j] by {}
                    }
                    lemma_cache_lookup(*self, i as int);
                    assert forall|k: Seq<char>| k != key@ implies final(self).lookup(k) == old(
                        self,
                    ).lookup(k) by {
                        lemma_cache_lookup_frame(pre, self.entries@, i as int, k);
                    }
                }
            },
            None => {
                let entry = (key.clone(), (time, cfg));
                self.entries.push(entry);
                proof {
                    assert(cache_keys(self.entries@) =~= cache_keys(pre).push(key@));
                    assert forall|a: int, b: int|
                        0 <= a < b < self.entries@.len() implies cache_keys(self.entries@)[a]
                        != cache_keys(self.entries@)[b] by {
                        if b < pre.len() {
                            assert(cache_keys(pre)[a] != cache_keys(pre)[b]);
                        } else {
                            assert(cache_keys(self.entries@)[b] == key@);
                            assert(cache_keys(self.entries@)[a] == pre[a].0@);
                            assert(pre[a].0@ != key@);
                        }
                    }
                    lemma_cache_lookup(*self, pre.len() as int);
                    assert forall|k: Seq<char>| k != key@ implies final(self).lookup(k) == old(
                        self,
                    ).lookup(k) by {
                        lemma_cache_lookup_frame(pre, self.entries@, pre.len() as int, k);
                    }
                }
            },
        }
    }

    /// Read the cached pair under `key`, if one is held.
    pub fn read_cfg(&self, key: &String) -> (r: Option<(String, String)>)
        requires
            self.wf(),
        ensures
            r == self.lookup(key@),
    {
        match find_key(&self.entries, key) {
            Some(i) => {
                let pair = (self.entries[i].1.0.clone(), self.entries[i].1.1.clone());
                proof {
                    lemma_cache_lookup(*self, i as int);
                }
                Some(pair)
            },
            None => {
                proof {
                    lemma_key_index(self.entries@, key@);
                    if key_index(self.entries@, key@) != -1 {
                        let w = key_index(self.entries@, key@);
                        assert(self.entries@[w].0@ == key@);
                        assert(false);
                    }
                }
                None
            },
        }
    }
}

/// In a duplicate-free cache, `lookup` at a present key gives exactly
/// that entry's pair.
proof fn lemma_cache_lookup(c: CfgCache, i: int)
    requires
        c.wf(),
        0 <= i < c.entries@.len(),
    ensures
        c.lookup(c.entries@[i].0@) == Some(c.entries@[i].1),
{
    let key = c.entries@[i].0@;
    assert forall|j: int| 0 <= j < i implies (#[trigger] c.entries@[j]).0@ != key by {
        assert(cache_keys(c.entries@)[j] != cache_keys(c.entries@)[i]);
        assert(cache_keys(c.entries@)[j] == c.entries@[j].0@);
        assert(cache_keys(c.entries@)[i] == key);
    }
    lemma_key_index_eq(c.entries@, key, i);
}

/// An update at one index leaves every other key's lookup unchanged.
proof fn lemma_cache_lookup_frame(
    pre: Seq<(String, (String, String))>,
    post: Seq<(String, (String, String))>,
    i: int,
    k: Seq<char>,
)
    requires
        0 <= i < post.len(),
        pre.len() == post.len() || post.len() == pre.len() + 1,
        forall|j: int| 0 <= j < pre.len() && j != i ==> post[j] == pre[j],
        post[i].0@ != k,
        pre.len() == post.len() ==> pre[i].0@ != k,
        post.len() == pre.len() + 1 ==> i == pre.len(),
    ensures
        cache_lookup(post, k) == cache_lookup(pre, k),
{
    lemma_key_index(pre, k);
    lemma_key_index(post, k);
    let wp = key_index(pre, k);
    if wp != -1 {
        assert(wp != i) by {
            if wp == i {
                if pre.len() == post.len() {
                    assert(pre[i].0@ != k);
                } else {
                    assert(i == pre.len());
                }
            }
        }
        assert(post[wp] == pre[wp]);
        assert(post[wp].0@ == k);
        assert forall|j: int| 0 <= j < wp implies (#[trigger] post[j]).0@ != k by {
            if j == i {
            } else {
                assert(post[j] == pre[j]);
            }
        }
        lemma_key_index_eq(post, k, wp);
    } else {
        if key_index(post, k) != -1 {
            let wq = key_index(post, k);
            assert(post[wq].0@ == k);
            assert(wq != i);
            assert(wq < pre.len());
            assert(pre[wq].0@ == k);
            assert(false);
        }
    }
}

/// What the config-load path does with a cached entry: reuse the cached
/// payload when the recorded modification time still matches the
/// source's current one, else read and parse the source again.
pub enum CacheDecision {
    /// The source is unchanged: this payload serves the run.
    UseCached(String),
    /// No valid entry: re-read the source and upsert the new pair.
    Reload,
}

impl CacheDecision {
    pub open spec fn is_use_cached(self) -> bool {
        self is UseCached
    }
}

/// Decide whether a cached config entry still serves: exactly when one
/// is held and its recorded modification time equals the source's
/// current one.
pub fn config_load_decision(cached: Option<(String, String)>, current_mtime: &String) -> (r:
    CacheDecision)
    ensures
        ({
            match cached {
                Some(p) => if p.0@ == current_mtime@ {
                    r == CacheDecision::UseCached(p.1)
                } else {
                    r == CacheDecision::Reload
                },
                None => r == CacheDecision::Reload,
            }
        }),
{
    match cached {
        Some((time, cfg)) => {
            if time == *current_mtime {
                proof {
                    assert(time@ == current_mtime@);
                }
                CacheDecision::UseCached(cfg)
            } else {
                CacheDecision::Reload
            }
        },
        None => CacheDecision::Reload,
    }
}

} // verus!
