//! The reactor's bookkeeping: which handles are registered, the readiness
//! each has seen, and whom an event wakes. The operating system's event
//! queue and the wakers themselves are driven by the caller.
use slab::Slab;
use vstd::prelude::*;

verus! {

// ---------------------------------------------------------------------------
// Readiness sets
// ---------------------------------------------------------------------------

/// The readiness bit of reading.
pub const READABLE: usize = 1;

/// The readiness bit of writing.
pub const WRITABLE: usize = 2;

/// A set of readiness kinds as bits: `READABLE`, `WRITABLE`, and whatever
/// other bits the platform reports (error, hang-up).
#[derive(Clone, Copy, Debug, PartialEq, Eq, Structural)]
pub struct Readiness {
    pub bits: usize,
}

impl Readiness {
    /// No readiness.
    pub fn empty() -> (r: Readiness)
        ensures
            r.bits == 0,
    {
        Readiness { bits: 0 }
    }

    /// Readiness for reading.
    pub fn readable() -> (r: Readiness)
        ensures
            r.bits == READABLE,
    {
        Readiness { bits: READABLE }
    }

    /// Readiness for writing.
    pub fn writable() -> (r: Readiness)
        ensures
            r.bits == WRITABLE,
    {
        Readiness { bits: WRITABLE }
    }

    /// The readiness with the given bits.
    pub fn from_bits(bits: usize) -> (r: Readiness)
        ensures
            r.bits == bits,
    {
        Readiness { bits }
    }

    /// Whether every kind in `other` is in `self`.
    pub fn contains(self, other: Readiness) -> (b: bool)
        ensures
            b == (self.bits & other.bits == other.bits),
    {
        self.bits & other.bits == other.bits
    }

    /// Whether reading is ready.
    pub fn is_readable(self) -> (b: bool)
        ensures
            b == (self.bits & READABLE == READABLE),
    {
        self.contains(Readiness::readable())
    }

    /// Whether writing is ready.
    pub fn is_writable(self) -> (b: bool)
        ensures
            b == (self.bits & WRITABLE == WRITABLE),
    {
        self.contains(Readiness::writable())
    }

    /// The kinds in either set.
    pub fn union(self, other: Readiness) -> (r: Readiness)
        ensures
            r.bits == self.bits | other.bits,
    {
        Readiness { bits: self.bits | other.bits }
    }

    /// The kinds of `self` that are not in `other`.
    pub fn without(self, other: Readiness) -> (r: Readiness)
        ensures
            r.bits == self.bits & !other.bits,
    {
        Readiness { bits: self.bits & !other.bits }
    }
}

/// Adding kinds keeps every kind there was and adds the new ones.
pub proof fn lemma_union_contains(a: usize, b: usize)
    ensures
        (a | b) & a == a,
        (a | b) & b == b,
{
    assert((a | b) & a == a) by (bit_vector);
    assert((a | b) & b == b) by (bit_vector);
}

/// Removing kinds leaves none of them.
pub proof fn lemma_without_disjoint(a: usize, b: usize)
    ensures
        (a & !b) & b == 0,
        (a & !b) & a == a & !b,
{
    assert((a & !b) & b == 0) by (bit_vector);
    assert((a & !b) & a == a & !b) by (bit_vector);
}

// ---------------------------------------------------------------------------
// The slab of registrations
// ---------------------------------------------------------------------------

/// The `slab` crate's slab.
#[verifier::external_type_specification]
#[verifier::external_body]
#[verifier::reject_recursive_types(T)]
pub struct ExSlab<T>(Slab<T>);

/// Name for what a slab of readiness bits holds: key to bits.
pub uninterp spec fn slab_items(s: Slab<usize>) -> Map<usize, usize>;

/// `Slab::new`: an empty slab.
#[verifier::external_body]
fn slab_new() -> (r: Slab<usize>)
    ensures
        forall|k: usize| !slab_items(r).contains_key(k),
{
    Slab::new()
}

/// `Slab::insert`: stores `v` under a key that was vacant and returns it.
/// Which vacant key it picks (the slab reuses the last freed one) is not
/// stated. It panics only where the slab's storage would pass `isize::MAX`
/// bytes, which memory runs out before.
#[verifier::external_body]
fn slab_insert(s: &mut Slab<usize>, v: usize) -> (key: usize)
    ensures
        !slab_items(*old(s)).contains_key(key),
        slab_items(*final(s)) == slab_items(*old(s)).insert(key, v),
{
    s.insert(v)
}

/// `Slab::remove`: takes the value stored under `key` out; it panics where
/// the key is vacant, which `requires` rules out.
#[verifier::external_body]
fn slab_remove(s: &mut Slab<usize>, key: usize) -> (v: usize)
    requires
        slab_items(*old(s)).contains_key(key),
    ensures
        v == slab_items(*old(s))[key],
        slab_items(*final(s)) == slab_items(*old(s)).remove(key),
{
    s.remove(key)
}

/// `Slab::get`: the value stored under `key`, if any.
#[verifier::external_body]
fn slab_get(s: &Slab<usize>, key: usize) -> (v: Option<usize>)
    ensures
        match v {
            Some(x) => slab_items(*s).contains_key(key) && x == slab_items(*s)[key],
            None => !slab_items(*s).contains_key(key),
        },
{
    s.get(key).copied()
}

/// `Slab`'s `IndexMut`: overwrites the value stored under `key`; it panics
/// where the key is vacant, which `requires` rules out.
#[verifier::external_body]
fn slab_set(s: &mut Slab<usize>, key: usize, v: usize)
    requires
        slab_items(*old(s)).contains_key(key),
    ensures
        slab_items(*final(s)) == slab_items(*old(s)).insert(key, v),
{
    s[key] = v;
}

// ---------------------------------------------------------------------------
// The reactor's table
// ---------------------------------------------------------------------------

/// Whom an event wakes: the reader, the writer, both or neither.
#[derive(Clone, Copy, Debug, PartialEq, Eq, Structural)]
pub struct Wake {
    pub read: bool,
    pub write: bool,
}

/// The registered handles, each with the readiness it has seen and not yet
/// used up.
pub struct ReactorTable {
    nodes: Slab<usize>,
}

impl View for ReactorTable {
    type V = Map<usize, usize>;

    closed spec fn view(&self) -> Map<usize, usize> {
        slab_items(self.nodes)
    }
}

impl ReactorTable {
    /// A table with no registrations.
    pub fn new() -> (t: ReactorTable)
        ensures
            t@ == Map::<usize, usize>::empty(),
    {
        let t = ReactorTable { nodes: slab_new() };
        assert(t@ =~= Map::<usize, usize>::empty());
        t
    }

    /// Registers a handle with no readiness yet, and returns its key, which
    /// no registered handle had.
    pub fn register(&mut self) -> (key: usize)
        ensures
            !old(self)@.contains_key(key),
            final(self)@ == old(self)@.insert(key, 0),
    {
        slab_insert(&mut self.nodes, 0)
    }

    /// Removes the registration under `key`.
    pub fn deregister(&mut self, key: usize)
        requires
            old(self)@.contains_key(key),
        ensures
            final(self)@ == old(self)@.remove(key),
    {
        slab_remove(&mut self.nodes, key);
    }

    /// Whether a handle is registered under `key`.
    pub fn contains(&self, key: usize) -> (b: bool)
        ensures
            b == self@.contains_key(key),
    {
        slab_get(&self.nodes, key).is_some()
    }

    /// The readiness of the handle under `key`, if one is registered.
    pub fn readiness(&self, key: usize) -> (r: Option<Readiness>)
        ensures
            match r {
                Some(x) => self@.contains_key(key) && x.bits == self@[key],
                None => !self@.contains_key(key),
            },
    {
        match slab_get(&self.nodes, key) {
            Some(bits) => Some(Readiness { bits }),
            None => None,
        }
    }

    /// Takes the kinds in `ready` out of the readiness of the handle under
    /// `key`; nothing changes where no handle is registered there.
    pub fn remove_readiness(&mut self, key: usize, ready: Readiness)
        ensures
            final(self)@ == if old(self)@.contains_key(key) {
                old(self)@.insert(key, old(self)@[key] & !ready.bits)
            } else {
                old(self)@
            },
    {
        match slab_get(&self.nodes, key) {
            Some(bits) => slab_set(&mut self.nodes, key, bits & !ready.bits),
            None => {},
        }
    }

    /// Records an event of readiness `ready` for the handle under `key`: its
    /// readiness gains those kinds, and the reader is woken where the event
    /// is readable, the writer where it is writable. An event for a key with
    /// no registration changes nothing and wakes no one.
    pub fn apply_event(&mut self, key: usize, ready: Readiness) -> (w: Wake)
        ensures
            old(self)@.contains_key(key) ==> {
                &&& final(self)@ == old(self)@.insert(key, old(self)@[key] | ready.bits)
                &&& w.read == (ready.bits & READABLE == READABLE)
                &&& w.write == (ready.bits & WRITABLE == WRITABLE)
            },
            !old(self)@.contains_key(key) ==> final(self)@ == old(self)@ && !w.read && !w.write,
    {
        match slab_get(&self.nodes, key) {
            Some(bits) => {
                slab_set(&mut self.nodes, key, bits | ready.bits);
                Wake { read: ready.is_readable(), write: ready.is_writable() }
            },
            None => Wake { read: false, write: false },
        }
    }
}


/// The direction of an I/O operation on a registered handle.
#[derive(Clone, Copy, Debug, PartialEq, Eq, Structural)]
pub enum Direction {
    Read,
    Write,
}

/// The readiness bit of a direction.
pub open spec fn direction_bit(d: Direction) -> usize {
    match d {
        Direction::Read => READABLE,
        Direction::Write => WRITABLE,
    }
}

impl ReactorTable {
    /// Whether the handle under `key` has readiness for `dir`, so that an
    /// I/O attempt is made. The handle must be registered.
    pub fn is_ready(&self, key: usize, dir: Direction) -> (b: bool)
        requires
            self@.contains_key(key),
        ensures
            b == (self@[key] & direction_bit(dir) == direction_bit(dir)),
    {
        let r = match self.readiness(key) {
            Some(r) => r,
            None => Readiness::empty(),
        };
        match dir {
            Direction::Read => r.is_readable(),
            Direction::Write => r.is_writable(),
        }
    }

    /// An I/O attempt in direction `dir` would have blocked: the handle's
    /// readiness for that direction is used up until the next event.
    pub fn would_block(&mut self, key: usize, dir: Direction)
        ensures
            final(self)@ == if old(self)@.contains_key(key) {
                old(self)@.insert(key, old(self)@[key] & !direction_bit(dir))
            } else {
                old(self)@
            },
    {
        let bit = match dir {
            Direction::Read => Readiness::readable(),
            Direction::Write => Readiness::writable(),
        };
        self.remove_readiness(key, bit);
    }
}

/// What a poll of a registered handle does next.
#[derive(Clone, Copy, Debug, PartialEq, Eq, Structural)]
pub enum PollStep {
    /// Make the I/O attempt.
    Attempt,
    /// Leave the task's waker with the handle and report that it is pending.
    Park,
    /// Report the outcome of the attempt.
    Complete,
}

impl ReactorTable {
    /// The first step of a poll in direction `dir`: attempt the I/O where the
    /// handle is ready for it, else park. The handle must be registered.
    pub fn begin_poll(&self, key: usize, dir: Direction) -> (s: PollStep)
        requires
            self@.contains_key(key),
        ensures
            s == if self@[key] & direction_bit(dir) == direction_bit(dir) {
                PollStep::Attempt
            } else {
                PollStep::Park
            },
    {
        if self.is_ready(key, dir) {
            PollStep::Attempt
        } else {
            PollStep::Park
        }
    }

    /// The step after an attempt in direction `dir`: where it would have
    /// blocked, the handle's readiness for `dir` is used up and the task
    /// parks; otherwise the outcome is reported and the table is unchanged.
    pub fn end_poll(&mut self, key: usize, dir: Direction, blocked: bool) -> (s: PollStep)
        ensures
            s == if blocked {
                PollStep::Park
            } else {
                PollStep::Complete
            },
            final(self)@ == if blocked && old(self)@.contains_key(key) {
                old(self)@.insert(key, old(self)@[key] & !direction_bit(dir))
            } else {
                old(self)@
            },
    {
        if blocked {
            self.would_block(key, dir);
            PollStep::Park
        } else {
            PollStep::Complete
        }
    }
}

/// An event marks its kinds ready: after `apply_event` with readiness bits
/// `bits` on a registered key, the handle has those kinds and every kind it
/// had before.
pub proof fn law_event_marks_ready(t: Map<usize, usize>, key: usize, bits: usize)
    requires
        t.contains_key(key),
    ensures
        t.insert(key, t[key] | bits)[key] & bits == bits,
        t.insert(key, t[key] | bits)[key] & t[key] == t[key],
{
    lemma_union_contains(t[key], bits);
}

/// A blocked attempt clears its direction: after `would_block`, or an
/// `end_poll` of a blocked attempt, the handle is not ready in that direction,
/// so that `begin_poll` parks until an event marks it again; it keeps the
/// other direction's readiness.
pub proof fn law_blocked_not_ready(t: Map<usize, usize>, key: usize, dir: Direction)
    requires
        t.contains_key(key),
    ensures
        t.insert(key, t[key] & !direction_bit(dir))[key] & direction_bit(dir) != direction_bit(dir),
        t[key] & WRITABLE == WRITABLE && dir == Direction::Read ==> t.insert(
            key,
            t[key] & !direction_bit(dir),
        )[key] & WRITABLE == WRITABLE,
        t[key] & READABLE == READABLE && dir == Direction::Write ==> t.insert(
            key,
            t[key] & !direction_bit(dir),
        )[key] & READABLE == READABLE,
{
    let a = t[key];
    lemma_without_disjoint(a, direction_bit(dir));
    assert(a & WRITABLE == WRITABLE ==> (a & !1usize) & 2usize == 2usize) by (bit_vector);
    assert(a & READABLE == READABLE ==> (a & !2usize) & 1usize == 1usize) by (bit_vector);
}

/// Registration keys are never shared: a new registration's key was not in
/// use, and removing a registration frees only its own key.
pub proof fn law_register_deregister(t: Map<usize, usize>, key: usize, other: usize)
    requires
        !t.contains_key(key),
        other != key,
    ensures
        t.insert(key, 0).remove(key) == t,
        t.insert(key, 0).contains_key(other) == t.contains_key(other),
{
    assert(t.insert(key, 0).remove(key) =~= t);
}

} // verus!
