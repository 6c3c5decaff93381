//! The task runner's bookkeeping: the tasks that are alive, each under a key
//! that no other task ever had, and the waker state that names a task by
//! its key. Polling the tasks is left to the caller.
use std::cell::RefCell;
use std::collections::{HashMap, HashSet};
use std::rc::Rc;
use vstd::prelude::*;

verus! {

/// std's `RefCell`, which the runner shares its set of woken keys in.
#[verifier::external_type_specification]
#[verifier::external_body]
#[verifier::reject_recursive_types(T)]
pub struct ExRefCell<T: ?Sized>(RefCell<T>);

/// The tasks `ts` filed under consecutive keys from `next` on, over `m`.
pub open spec fn filed_under<T>(m: Map<usize, T>, next: int, ts: Seq<T>) -> Map<usize, T>
    decreases ts.len(),
{
    if ts.len() == 0 {
        m
    } else {
        filed_under(m, next, ts.drop_last()).insert((next + ts.len() - 1) as usize, ts.last())
    }
}

/// The live tasks, each under its key; every key ever handed out is below
/// `next_key`, so a new task's key was never used before. A task taken out to
/// be polled keeps its key, and only it may be put back under that key; the
/// key of a task that finished is retired and never used again.
pub struct TaskSet<T> {
    tasks: HashMap<usize, T>,
    next_key: usize,
    taken: Ghost<Set<usize>>,
}

impl<T> View for TaskSet<T> {
    type V = Map<usize, T>;

    closed spec fn view(&self) -> Map<usize, T> {
        self.tasks@
    }
}

impl<T> TaskSet<T> {
    #[verifier::type_invariant]
    closed spec fn inv(self) -> bool {
        &&& forall|k: usize| #[trigger] self.tasks@.contains_key(k) ==> k < self.next_key
        &&& forall|k: usize| #[trigger] self.taken@.contains(k) ==> k < self.next_key
            && !self.tasks@.contains_key(k)
    }

    /// The keys whose tasks are taken out and may be put back.
    pub closed spec fn taken_out(self) -> Set<usize> {
        self.taken@
    }

    /// The key `k` was handed out and its task has finished (or was never put
    /// back): no task lives under it and none may be put back under it.
    pub open spec fn retired(self, k: usize) -> bool {
        &&& k < self.next()
        &&& !self@.contains_key(k)
        &&& !self.taken_out().contains(k)
    }

    /// The key the next filed_under task gets.
    pub closed spec fn next(self) -> usize {
        self.next_key
    }

    /// An empty set whose first key is 0.
    pub fn new() -> (s: TaskSet<T>)
        ensures
            s@ == Map::<usize, T>::empty(),
            s.next() == 0,
            s.taken_out() == Set::<usize>::empty(),
    {
        TaskSet { tasks: HashMap::new(), next_key: 0, taken: Ghost(Set::empty()) }
    }

    /// The key the next filed task gets.
    pub fn next_key(&self) -> (n: usize)
        ensures
            n == self.next(),
    {
        self.next_key
    }

    /// Every live task's key is below the next key.
    pub fn keys_below_next(&self)
        ensures
            forall|k: usize| #[trigger] self@.contains_key(k) ==> k < self.next(),
    {
        proof {
            use_type_invariant(self);
        }
    }

    /// Files the tasks `spawned` in order under the keys `next()`,
    /// `next() + 1`, ..., and returns those keys.
    pub fn file_spawned(&mut self, spawned: Vec<T>) -> (keys: Vec<usize>)
        requires
            old(self).next() + spawned@.len() <= usize::MAX,
        ensures
            keys@.len() == spawned@.len(),
            forall|i: int| 0 <= i < keys@.len() ==> #[trigger] keys@[i] == old(self).next() + i,
            final(self)@ == filed_under(old(self)@, old(self).next() as int, spawned@),
            final(self).next() == old(self).next() + spawned@.len(),
            final(self).taken_out() == old(self).taken_out(),
            forall|k: usize| #[trigger] old(self).retired(k) ==> final(self).retired(k),
    {
        proof {
            use_type_invariant(&*self);
        }
        let ghost start = self.next_key as int;
        let ghost old_map = self.tasks@;
        let ghost taken = self.taken@;
        let ghost all = spawned@;
        let mut keys: Vec<usize> = Vec::new();
        let mut tasks: HashMap<usize, T> = HashMap::new();
        std::mem::swap(&mut tasks, &mut self.tasks);
        let mut next = self.next_key;
        for t in it: spawned.into_iter()
            invariant
                start + all.len() <= usize::MAX,
                it.seq() == all,
                next == start + it.index(),
                keys@.len() == it.index(),
                forall|i: int| 0 <= i < keys@.len() ==> #[trigger] keys@[i] == start + i,
                tasks@ == filed_under(old_map, start, all.take(it.index())),
                forall|k: usize| #[trigger] tasks@.contains_key(k) ==> k < next,
                forall|k: usize| #[trigger] tasks@.contains_key(k) ==> old_map.contains_key(k) || start <= k,
                forall|k: usize| #[trigger] taken.contains(k) ==> k < start && !old_map.contains_key(k),
        {
            assert(all.take(it.index() + 1).drop_last() =~= all.take(it.index()));
            tasks.insert(next, t);
            proof {
                assert forall|k: usize| #[trigger] tasks@.contains_key(k) implies old_map.contains_key(k)
                    || start <= k by {
                    if k != next {
                        assert(filed_under(old_map, start, all.take(it.index() + 1)).contains_key(k));
                    }
                }
            }
            keys.push(next);
            next = next + 1;
        }
        assert(all.take(all.len() as int) =~= all);
        self.next_key = next;
        self.tasks = tasks;
        keys
    }

    /// Whether a task lives under `key`.
    pub fn contains(&self, key: usize) -> (b: bool)
        ensures
            b == self@.contains_key(key),
    {
        self.tasks.contains_key(&key)
    }

    /// Takes the task under `key` out, if there is one; its key is then
    /// taken out with it, so that the task can be put back under it.
    pub fn take(&mut self, key: usize) -> (t: Option<T>)
        ensures
            final(self).next() == old(self).next(),
            final(self)@ == old(self)@.remove(key),
            match t {
                Some(x) => old(self)@.contains_key(key) && x == old(self)@[key]
                    && final(self).taken_out() == old(self).taken_out().insert(key),
                None => !old(self)@.contains_key(key) && final(self).taken_out() == old(
                    self,
                ).taken_out(),
            },
            forall|k: usize| #[trigger] old(self).retired(k) ==> final(self).retired(k),
    {
        proof {
            use_type_invariant(&*self);
        }
        let mut tasks: HashMap<usize, T> = HashMap::new();
        std::mem::swap(&mut tasks, &mut self.tasks);
        let t = tasks.remove(&key);
        self.tasks = tasks;
        if t.is_some() {
            self.taken = Ghost(self.taken@.insert(key));
        }
        t
    }

    /// Puts a task that was taken out under `key` back under it.
    pub fn put_back(&mut self, key: usize, task: T)
        requires
            old(self).taken_out().contains(key),
        ensures
            final(self).next() == old(self).next(),
            final(self)@ == old(self)@.insert(key, task),
            final(self).taken_out() == old(self).taken_out().remove(key),
            forall|k: usize| #[trigger] old(self).retired(k) ==> final(self).retired(k),
    {
        proof {
            use_type_invariant(&*self);
        }
        self.taken = Ghost(self.taken@.remove(key));
        let mut tasks: HashMap<usize, T> = HashMap::new();
        std::mem::swap(&mut tasks, &mut self.tasks);
        tasks.insert(key, task);
        self.tasks = tasks;
    }

    /// The number of live tasks.
    pub fn len(&self) -> (n: usize)
        ensures
            n == self@.len(),
    {
        self.tasks.len()
    }
}

impl<T> TaskSet<T> {
    /// One round of polling: each key of `woke` in turn whose task is alive
    /// has its task handed to `poll`, which gives it back while it is still
    /// pending and `None` once it has finished. Finished tasks leave the set
    /// and their keys are retired; pending ones stay under their key and are
    /// returned, in order, to be polled again. Keys with no live task, retired
    /// ones among them, are passed over.
    pub fn poll_round<F: Fn(usize, T) -> Option<T>>(&mut self, woke: Vec<usize>, poll: F) -> (still: Vec<usize>)
        requires
            woke@.no_duplicates(),
            forall|k: usize, t: T| #[trigger] poll.requires((k, t)),
        ensures
            final(self).next() == old(self).next(),
            forall|k: usize|
                !woke@.contains(k) ==> (#[trigger] final(self)@.contains_key(k) == old(self)@.contains_key(k)
                    && (old(self)@.contains_key(k) ==> final(self)@[k] == old(self)@[k])),
            forall|k: usize|
                #[trigger] woke@.contains(k) && final(self)@.contains_key(k) ==> old(self)@.contains_key(k)
                    && poll.ensures((k, old(self)@[k]), Some(final(self)@[k])),
            forall|k: usize|
                #[trigger] woke@.contains(k) && old(self)@.contains_key(k) && !final(self)@.contains_key(k)
                    ==> poll.ensures((k, old(self)@[k]), None),
            still@ == woke@.filter(|k: usize| final(self)@.contains_key(k)),
            final(self).taken_out() == old(self).taken_out(),
            forall|k: usize|
                #[trigger] woke@.contains(k) && old(self)@.contains_key(k) && !final(self)@.contains_key(k)
                    ==> final(self).retired(k),
            forall|k: usize| #[trigger] old(self).retired(k) ==> final(self).retired(k),
    {
        proof {
            use_type_invariant(&*self);
        }
        let ghost old_map = self@;
        let mut still: Vec<usize> = Vec::new();
        let n = woke.len();
        let mut i: usize = 0;
        while i < n
            invariant
                n == woke@.len(),
                i <= n,
                woke@.no_duplicates(),
                forall|k: usize, t: T| #[trigger] poll.requires((k, t)),
                self.next() == old(self).next(),
                self.taken_out() == old(self).taken_out(),
                old_map == old(self)@,
                forall|k: usize| #[trigger] old_map.contains_key(k) ==> k < old(self).next()
                    && !old(self).taken_out().contains(k),
                forall|k: usize| #[trigger] old(self).taken_out().contains(k) ==> !old_map.contains_key(k),
                forall|k: usize| !woke@.subrange(0, i as int).contains(k) ==> (
                    #[trigger] self@.contains_key(k) == old_map.contains_key(k) && (
                    old_map.contains_key(k) ==> self@[k] == old_map[k])),
                forall|k: usize| #[trigger] woke@.subrange(0, i as int).contains(k)
                    && self@.contains_key(k) ==> old_map.contains_key(k) && poll.ensures(
                    (k, old_map[k]),
                    Some(self@[k]),
                ),
                forall|k: usize| #[trigger] woke@.subrange(0, i as int).contains(k)
                    && old_map.contains_key(k) && !self@.contains_key(k) ==> poll.ensures(
                    (k, old_map[k]),
                    None,
                ),
                still@ == woke@.subrange(0, i as int).filter(|k: usize| self@.contains_key(k)),
            decreases n - i,
        {
            let key = woke[i];
            let ghost before = self@;
            let ghost prefix = woke@.subrange(0, i as int);
            assert(!prefix.contains(key)) by {
                if prefix.contains(key) {
                    let j = choose|j: int| 0 <= j < prefix.len() && prefix[j] == key;
                    assert(woke@[j] == woke@[i as int]);
                }
            }
            assert(woke@.subrange(0, i + 1) =~= prefix.push(key));
            proof {
                use_type_invariant(&*self);
            }
            assert(old_map.contains_key(key) ==> before.contains_key(key) && before[key] == old_map[key]);
            assert(before.contains_key(key) ==> old_map.contains_key(key));
            match self.take(key) {
                Some(task) => {
                    match poll(key, task) {
                        Some(task) => {
                            self.put_back(key, task);
                            still.push(key);
                            assert(self@ =~= before.insert(key, task));
                        },
                        None => {
                            self.taken = Ghost(self.taken@.remove(key));
                            assert(self.taken@ =~= old(self).taken_out());
                            assert(self@ =~= before.remove(key));
                        },
                    }
                },
                None => {
                    assert(self@ =~= before);
                },
            }
            proof {
                let after = self@;
                let pre = woke@.subrange(0, i + 1);
                assert forall|k: usize| k != key implies (#[trigger] after.contains_key(k)
                    == before.contains_key(k) && (before.contains_key(k) ==> after[k] == before[k])) by {}
                assert forall|k: usize| !pre.contains(k) implies (#[trigger] after.contains_key(k)
                    == old_map.contains_key(k) && (old_map.contains_key(k) ==> after[k] == old_map[k])) by {
                    assert(k != key) by {
                        assert(pre[i as int] == key);
                    }
                    assert(!prefix.contains(k)) by {
                        if prefix.contains(k) {
                            let j = choose|j: int| 0 <= j < prefix.len() && prefix[j] == k;
                            assert(pre[j] == k);
                        }
                    }
                }
                assert forall|k: usize| #[trigger] pre.contains(k) && after.contains_key(k)
                    implies old_map.contains_key(k) && poll.ensures((k, old_map[k]), Some(after[k])) by {
                    if k != key {
                        let j = choose|j: int| 0 <= j < pre.len() && pre[j] == k;
                        assert(prefix[j] == k);
                        assert(prefix.contains(k));
                    }
                }
                assert forall|k: usize| #[trigger] pre.contains(k) && old_map.contains_key(k)
                    && !after.contains_key(k) implies poll.ensures((k, old_map[k]), None) by {
                    if k != key {
                        let j = choose|j: int| 0 <= j < pre.len() && pre[j] == k;
                        assert(prefix[j] == k);
                        assert(prefix.contains(k));
                    }
                }
                assert forall|j: int| 0 <= j < prefix.len() implies after.contains_key(prefix[j])
                    == before.contains_key(prefix[j]) by {
                    assert(prefix.contains(prefix[j]));
                }
                lemma_filter_same(prefix, |k: usize| before.contains_key(k), |k: usize| after.contains_key(k));
                assert(pre.drop_last() =~= prefix);
                reveal_with_fuel(Seq::<_>::filter, 1);
            }
            i += 1;
        }
        assert(woke@.subrange(0, n as int) =~= woke@);
        still
    }
}

/// Filtering by two predicates that agree on the elements gives the same
/// sequence.
proof fn lemma_filter_same(s: Seq<usize>, p1: spec_fn(usize) -> bool, p2: spec_fn(usize) -> bool)
    requires
        forall|j: int| 0 <= j < s.len() ==> p1(s[j]) == p2(s[j]),
    ensures
        s.filter(p1) == s.filter(p2),
    decreases s.len(),
{
    reveal_with_fuel(Seq::<_>::filter, 1);
    if s.len() > 0 {
        let t = s.drop_last();
        assert forall|j: int| 0 <= j < t.len() implies p1(t[j]) == p2(t[j]) by {
            assert(t[j] == s[j]);
        }
        lemma_filter_same(t, p1, p2);
        assert(p1(s[s.len() - 1]) == p2(s[s.len() - 1]));
    }
}

/// What a task's waker holds: the task's key and the set of woken keys that
/// waking adds it to.
#[derive(Clone)]
pub struct WakerImpl {
    key: usize,
    woke: Rc<RefCell<HashSet<usize>>>,
}

impl WakerImpl {
    /// The key of the task that this waker wakes.
    pub closed spec fn spec_key(self) -> usize {
        self.key
    }

    /// The set of woken keys that this waker adds to.
    pub closed spec fn spec_woke(self) -> Rc<RefCell<HashSet<usize>>> {
        self.woke
    }

    /// The waker state for the task under `key`, sharing `woke`.
    pub fn new(key: usize, woke: Rc<RefCell<HashSet<usize>>>) -> (w: WakerImpl)
        ensures
            w.spec_key() == key,
            w.spec_woke() == woke,
    {
        WakerImpl { key, woke }
    }

    /// The key of the task that this waker wakes.
    pub fn key(&self) -> (k: usize)
        ensures
            k == self.spec_key(),
    {
        self.key
    }

    /// The set of woken keys that this waker adds to.
    pub fn woke(&self) -> (w: &Rc<RefCell<HashSet<usize>>>)
        ensures
            *w == self.spec_woke(),
    {
        &self.woke
    }
}


/// Filed tasks get fresh keys: each task of `ts` lives under `next` plus its
/// position, none of those keys was in use, and the tasks there before keep
/// their keys.
pub proof fn law_filed_keys_fresh<T>(m: Map<usize, T>, next: int, ts: Seq<T>, i: int, k: usize)
    requires
        forall|j: usize| #[trigger] m.contains_key(j) ==> j < next,
        0 <= next,
        next + ts.len() <= usize::MAX + 1,
    ensures
        0 <= i < ts.len() ==> !m.contains_key((next + i) as usize) && filed_under(m, next, ts)[(next
            + i) as usize] == ts[i] && filed_under(m, next, ts).contains_key((next + i) as usize),
        m.contains_key(k) ==> filed_under(m, next, ts).contains_key(k) && filed_under(m, next, ts)[k]
            == m[k],
        filed_under(m, next, ts).contains_key(k) ==> m.contains_key(k) || (next <= k < next
            + ts.len()),
    decreases ts.len(),
{
    if ts.len() > 0 {
        law_filed_keys_fresh(m, next, ts.drop_last(), i, k);
        if 0 <= i < ts.len() - 1 {
            assert(ts.drop_last()[i] == ts[i]);
        }
    }
}

/// A finished task's key is never used again. `poll_round` retires the key of
/// each task that finishes, and every operation on a `TaskSet` keeps retired
/// keys retired (each states so); here, a retired key has no live task, no
/// task may be put back under it, filing new tasks never gives it out, and a
/// round of polling passes it over (filing as many tasks as `file_spawned`
/// accepts).
pub proof fn law_retired_key_never_reused<T>(s: TaskSet<T>, k: usize, ts: Seq<T>, woke: Seq<usize>)
    requires
        s.retired(k),
        s.next() + ts.len() <= usize::MAX,
    ensures
        !s@.contains_key(k),
        !s.taken_out().contains(k),
        !filed_under(s@, s.next() as int, ts).contains_key(k),
        !woke.filter(|j: usize| s@.contains_key(j)).contains(k),
    decreases ts.len(),
{
    if ts.len() > 0 {
        law_retired_key_never_reused(s, k, ts.drop_last(), woke);
    }
    let f = woke.filter(|j: usize| s@.contains_key(j));
    if f.contains(k) {
        let i = choose|i: int| 0 <= i < f.len() && f[i] == k;
        woke.filter_lemma(|j: usize| s@.contains_key(j));
        assert(s@.contains_key(f[i]));
    }
}

} // verus!
