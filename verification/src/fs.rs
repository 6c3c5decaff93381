//! The file-system queue's bookkeeping: results that the worker thread has
//! sent back, kept under the token of the task they answer until that task
//! asks for them, and the length of one read.
use std::collections::HashMap;
use vstd::prelude::*;

verus! {

/// How many bytes one read of a file asks for: the caller's limit, but no
/// more than the file's length (taken as a `usize`, as the platform does).
pub fn read_len(max_len: usize, file_len: u64) -> (len: usize)
    ensures
        len == if max_len <= (file_len as usize) { max_len } else { file_len as usize },
{
    let file_len = file_len as usize;
    if max_len <= file_len {
        max_len
    } else {
        file_len
    }
}

/// The map `m` after storing each of `rs` under its token, in order (a
/// later result for a token replaces an earlier one).
pub open spec fn stored<T>(m: Map<usize, T>, rs: Seq<(usize, T)>) -> Map<usize, T>
    decreases rs.len(),
{
    if rs.len() == 0 {
        m
    } else {
        stored(m, rs.drop_last()).insert(rs.last().0, rs.last().1)
    }
}

/// Results waiting for the task whose token they carry.
pub struct ResultTable<T> {
    results: HashMap<usize, T>,
}

impl<T> View for ResultTable<T> {
    type V = Map<usize, T>;

    closed spec fn view(&self) -> Map<usize, T> {
        self.results@
    }
}

impl<T> ResultTable<T> {
    /// A table with no results.
    pub fn new() -> (t: ResultTable<T>)
        ensures
            t@ == Map::<usize, T>::empty(),
    {
        ResultTable { results: HashMap::new() }
    }

    /// Stores the results `rs`, each under its token, in the order given.
    pub fn store(&mut self, rs: Vec<(usize, T)>)
        ensures
            final(self)@ == stored(old(self)@, rs@),
    {
        let ghost start = self.results@;
        let ghost all = rs@;
        for r in it: rs.into_iter()
            invariant
                it.seq() == all,
                self.results@ == stored(start, all.take(it.index())),
        {
            assert(all.take(it.index() + 1).drop_last() =~= all.take(it.index()));
            let (token, value) = r;
            self.results.insert(token, value);
        }
        assert(all.take(all.len() as int) =~= all);
    }

    /// Takes out the result stored under `token`, if there is one.
    pub fn take(&mut self, token: usize) -> (r: Option<T>)
        ensures
            final(self)@ == old(self)@.remove(token),
            match r {
                Some(x) => old(self)@.contains_key(token) && x == old(self)@[token],
                None => !old(self)@.contains_key(token),
            },
    {
        self.results.remove(&token)
    }
}


/// What a take gives back of a store: after storing results, taking a
/// token gives the last result stored under it, and a second take of the
/// same token gives nothing.
pub proof fn law_take_after_store<T>(m: Map<usize, T>, rs: Seq<(usize, T)>, token: usize, v: T)
    ensures
        stored(m, rs.push((token, v))).contains_key(token),
        stored(m, rs.push((token, v)))[token] == v,
        !stored(m, rs.push((token, v))).remove(token).contains_key(token),
{
    assert(rs.push((token, v)).drop_last() =~= rs);
}

/// Storing keeps what is waiting and adds what arrives: after storing `rs`,
/// a token that no result of `rs` carries has exactly what it had before, and
/// a token carried by the result at `i` and by none after it has that
/// result's value.
pub proof fn law_store_keeps_waiting_results<T>(m: Map<usize, T>, rs: Seq<(usize, T)>, k: usize, i: int)
    ensures
        (forall|j: int| 0 <= j < rs.len() ==> #[trigger] rs[j].0 != k) ==> (stored(m, rs).contains_key(k)
            == m.contains_key(k) && (m.contains_key(k) ==> stored(m, rs)[k] == m[k])),
        0 <= i < rs.len() && rs[i].0 == k && (forall|j: int| i < j < rs.len() ==> #[trigger] rs[j].0 != k)
            ==> stored(m, rs).contains_key(k) && stored(m, rs)[k] == rs[i].1,
    decreases rs.len(),
{
    if rs.len() > 0 {
        let t = rs.drop_last();
        law_store_keeps_waiting_results(m, t, k, i);
        if forall|j: int| 0 <= j < rs.len() ==> #[trigger] rs[j].0 != k {
            assert forall|j: int| 0 <= j < t.len() implies #[trigger] t[j].0 != k by {
                assert(t[j] == rs[j]);
            }
            assert(rs[rs.len() - 1].0 != k);
        }
        if 0 <= i < rs.len() - 1 && rs[i].0 == k && (forall|j: int| i < j < rs.len() ==> #[trigger] rs[j].0 != k) {
            assert(rs[rs.len() - 1].0 != k);
            assert(t[i] == rs[i]);
            assert forall|j: int| i < j < t.len() implies #[trigger] t[j].0 != k by {
                assert(t[j] == rs[j]);
            }
        }
    }
}

} // verus!
