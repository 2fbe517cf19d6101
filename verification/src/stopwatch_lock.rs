//! The stopwatch locks that owners hold on an entity's flux interaction, and
//! the commands that take and release one.
use vstd::prelude::*;
use vstd::string::*;

verus! {

/// The owners named in `s` are all different.
pub open spec fn owners_distinct<L>(s: Seq<(Seq<char>, L)>) -> bool {
    forall|i: int, j: int| 0 <= i < s.len() && 0 <= j < s.len() && i != j ==> s[i].0 != s[j].0
}

/// The position of `owner`'s lock in `s` at or after `from`, if any.
pub open spec fn owner_position<L>(s: Seq<(Seq<char>, L)>, owner: Seq<char>, from: int) -> Option<int>
    decreases s.len() - from,
{
    if from < 0 || from >= s.len() {
        None
    } else if s[from].0 == owner {
        Some(from)
    } else {
        owner_position(s, owner, from + 1)
    }
}

/// The locks after `owner` takes a lock of `duration`: the lock it already
/// holds is replaced in place, otherwise the new lock comes last.
pub open spec fn locked<L>(s: Seq<(Seq<char>, L)>, owner: Seq<char>, duration: L) -> Seq<(Seq<char>, L)> {
    match owner_position(s, owner, 0) {
        Some(i) => s.update(i, (owner, duration)),
        None => s.push((owner, duration)),
    }
}

/// The locks after `owner` releases its lock: all others, in order.
pub open spec fn released<L>(s: Seq<(Seq<char>, L)>, owner: Seq<char>) -> Seq<(Seq<char>, L)>
    decreases s.len(),
{
    if s.len() == 0 {
        Seq::empty()
    } else if s.last().0 == owner {
        released(s.drop_last(), owner)
    } else {
        released(s.drop_last(), owner).push(s.last())
    }
}

pub open spec fn entries_view<L>(v: Seq<(String, L)>) -> Seq<(Seq<char>, L)> {
    v.map_values(|e: (String, L)| (e.0@, e.1))
}

/// The stopwatch locks held on an entity's flux interaction: for each owner,
/// the lock it took (of type `L`), in the order the owners first took one.
/// An owner holds at most one lock.
pub struct FluxInteractionStopwatchLock<L> {
    locks: Vec<(String, L)>,
}

impl<L> View for FluxInteractionStopwatchLock<L> {
    type V = Seq<(Seq<char>, L)>;

    closed spec fn view(&self) -> Seq<(Seq<char>, L)> {
        entries_view(self.locks@)
    }
}

proof fn lemma_position_found<L>(s: Seq<(Seq<char>, L)>, owner: Seq<char>, from: int, i: int)
    requires
        0 <= from <= i < s.len(),
        s[i].0 == owner,
        forall|k: int| from <= k < i ==> s[k].0 != owner,
    ensures
        owner_position(s, owner, from) == Some(i),
    decreases i - from,
{
    if from < i {
        lemma_position_found(s, owner, from + 1, i);
    }
}

proof fn lemma_position_absent<L>(s: Seq<(Seq<char>, L)>, owner: Seq<char>, from: int)
    requires
        0 <= from <= s.len(),
        forall|k: int| from <= k < s.len() ==> s[k].0 != owner,
    ensures
        owner_position(s, owner, from) == None::<int>,
    decreases s.len() - from,
{
    if from < s.len() {
        lemma_position_absent(s, owner, from + 1);
    }
}

impl<L> FluxInteractionStopwatchLock<L> {
    #[verifier::type_invariant]
    closed spec fn inv(self) -> bool {
        owners_distinct(entries_view(self.locks@))
    }

    /// No lock held.
    pub fn new() -> (lock: Self)
        ensures
            lock@ == Seq::<(Seq<char>, L)>::empty(),
    {
        let lock = FluxInteractionStopwatchLock { locks: Vec::new() };
        assert(entries_view(lock.locks@) =~= Seq::<(Seq<char>, L)>::empty());
        lock
    }

    /// `owner` takes a lock of `duration`, replacing the one it held.
    pub fn lock(&mut self, owner: &str, duration: L)
        ensures
            final(self)@ == locked(old(self)@, owner@, duration),
            owners_distinct(final(self)@),
    {
        proof {
            use_type_invariant(&*self);
        }
        let owner_name = String::from_str(owner);
        let ghost s = entries_view(self.locks@);
        let mut i: usize = 0;
        while i < self.locks.len()
            invariant
                i <= self.locks@.len(),
                s == entries_view(self.locks@),
                s == old(self)@,
                owners_distinct(s),
                owner_name@ == owner@,
                forall|k: int| 0 <= k < i ==> s[k].0 != owner@,
            decreases self.locks.len() - i,
        {
            if self.locks[i].0 == owner_name {
                proof {
                    lemma_position_found(s, owner@, 0, i as int);
                }
                let mut locks = Vec::new();
                std::mem::swap(&mut locks, &mut self.locks);
                let ghost before = locks@;
                locks.remove(i);
                locks.insert(i, (owner_name, duration));
                proof {
                    assert(entries_view(locks@) =~= s.update(i as int, (owner@, duration)));
                    assert forall|a: int, b: int|
                        0 <= a < locks@.len() && 0 <= b < locks@.len() && a != b implies entries_view(
                        locks@,
                    )[a].0 != entries_view(locks@)[b].0 by {
                        assert(entries_view(before)[a].0 == entries_view(locks@)[a].0);
                        assert(entries_view(before)[b].0 == entries_view(locks@)[b].0);
                    }
                }
                self.locks = locks;
                return;
            }
            i = i + 1;
        }
        proof {
            lemma_position_absent(s, owner@, 0);
        }
        let mut locks = Vec::new();
        std::mem::swap(&mut locks, &mut self.locks);
        let ghost before = locks@;
        locks.push((owner_name, duration));
        proof {
            assert(entries_view(locks@) =~= s.push((owner@, duration)));
            assert forall|a: int, b: int|
                0 <= a < locks@.len() && 0 <= b < locks@.len() && a != b implies entries_view(
                locks@,
            )[a].0 != entries_view(locks@)[b].0 by {
                if a < before.len() {
                    assert(entries_view(before)[a].0 == entries_view(locks@)[a].0);
                }
                if b < before.len() {
                    assert(entries_view(before)[b].0 == entries_view(locks@)[b].0);
                }
            }
        }
        self.locks = locks;
    }

    /// The locks held, each with its owner, in the order the owners first
    /// took one.
    pub fn get(&self) -> (locks: &Vec<(String, L)>)
        ensures
            entries_view(locks@) == self@,
    {
        &self.locks
    }

    /// `lock_of` releases the lock it holds, if any.
    pub fn release(&mut self, lock_of: &str)
        ensures
            final(self)@ == released(old(self)@, lock_of@),
            owners_distinct(final(self)@),
    {
        proof {
            use_type_invariant(&*self);
        }
        let owner_name = String::from_str(lock_of);
        let mut rest = Vec::new();
        std::mem::swap(&mut rest, &mut self.locks);
        let ghost orig = entries_view(rest@);
        let ghost n = rest@.len();
        let mut kept: Vec<(String, L)> = Vec::new();
        while rest.len() > 0
            invariant
                rest@.len() <= n,
                n == orig.len(),
                owners_distinct(orig),
                owner_name@ == lock_of@,
                entries_view(rest@) == orig.skip(n - rest@.len()),
                entries_view(kept@) == released(orig.take(n - rest@.len()), lock_of@),
                forall|k: int|
                    0 <= k < kept@.len() ==> exists|m: int|
                        0 <= m < n - rest@.len() && #[trigger] entries_view(kept@)[k].0
                            == orig[m].0,
                owners_distinct(entries_view(kept@)),
            decreases rest@.len(),
        {
            let ghost i = n - rest@.len();
            let ghost rest_before = rest@;
            let entry = rest.remove(0);
            assert(entries_view(rest_before)[0] == orig[i]);
            assert(entries_view(rest@) =~= orig.skip(i + 1)) by {
                assert forall|k: int| 0 <= k < rest@.len() implies entries_view(rest@)[k]
                    == orig.skip(i + 1)[k] by {
                    assert(entries_view(rest_before)[k + 1] == orig.skip(i)[k + 1]);
                }
            }
            assert(orig.take(i + 1).drop_last() =~= orig.take(i));
            if entry.0 != owner_name {
                let ghost kept_before = entries_view(kept@);
                kept.push(entry);
                assert(entries_view(kept@) =~= kept_before.push(orig[i]));
                assert forall|a: int, b: int|
                    0 <= a < kept@.len() && 0 <= b < kept@.len() && a != b implies entries_view(
                    kept@,
                )[a].0 != entries_view(kept@)[b].0 by {
                    if a == kept_before.len() {
                        let m = choose|m: int|
                            0 <= m < i && #[trigger] entries_view(kept@)[b].0 == orig[m].0;
                        assert(kept_before[b] == entries_view(kept@)[b]);
                    } else if b == kept_before.len() {
                        let m = choose|m: int|
                            0 <= m < i && #[trigger] entries_view(kept@)[a].0 == orig[m].0;
                        assert(kept_before[a] == entries_view(kept@)[a]);
                    }
                }
                assert forall|k: int| 0 <= k < kept@.len() implies exists|m: int|
                    0 <= m < i + 1 && #[trigger] entries_view(kept@)[k].0 == orig[m].0 by {
                    if k == kept_before.len() {
                        assert(entries_view(kept@)[k].0 == orig[i].0);
                    } else {
                        assert(kept_before[k] == entries_view(kept@)[k]);
                    }
                }
            }
        }
        assert(orig.take(n as int) =~= orig);
        self.locks = kept;
    }
}

/// The locks held in an entity's slot, if it has a lock component.
pub open spec fn lock_slot_view<L>(slot: Option<FluxInteractionStopwatchLock<L>>) -> Option<
    Seq<(Seq<char>, L)>,
> {
    match slot {
        Some(l) => Some(l@),
        None => None,
    }
}

/// The locks an entity ends up with after `owner` locks its stopwatch for
/// `duration`: an entity without a lock component gets one holding that lock.
pub open spec fn locks_after_lock<L>(current: Option<Seq<(Seq<char>, L)>>, owner: Seq<char>, duration: L) -> Seq<
    (Seq<char>, L),
> {
    match current {
        None => seq![(owner, duration)],
        Some(s) => locked(s, owner, duration),
    }
}

/// The locks an entity ends up with after `owner` tries to release its lock:
/// an entity without a lock component stays without.
pub open spec fn locks_after_release<L>(current: Option<Seq<(Seq<char>, L)>>, owner: Seq<char>) -> Option<
    Seq<(Seq<char>, L)>,
> {
    match current {
        None => None,
        Some(s) => Some(released(s, owner)),
    }
}

/// The commands that lock and release the stopwatch of an entity's flux
/// interaction, applied to the entity's lock slot (`None` when the entity has
/// no lock component yet).
pub trait ManageFluxInteractionStopwatchLockExt<L> {
    fn lock_stopwatch(&mut self, owner: &str, duration: L) -> &mut Self;

    fn try_release_stopwatch_lock(&mut self, lock_of: &str) -> &mut Self;
}

impl<L> ManageFluxInteractionStopwatchLockExt<L> for Option<FluxInteractionStopwatchLock<L>> {
    fn lock_stopwatch(&mut self, owner: &str, duration: L) -> (slot: &mut Self)
        ensures
            lock_slot_view(*slot) == Some(
                locks_after_lock(lock_slot_view(*old(self)), owner@, duration),
            ),
            *final(self) == *final(slot),
    {
        match self {
            Some(lock) => {
                lock.lock(owner, duration);
            },
            None => {
                let mut lock = FluxInteractionStopwatchLock::new();
                lock.lock(owner, duration);
                assert(lock@ =~= seq![(owner@, duration)]);
                *self = Some(lock);
            },
        }
        self
    }

    fn try_release_stopwatch_lock(&mut self, lock_of: &str) -> (slot: &mut Self)
        ensures
            lock_slot_view(*slot) == locks_after_release(lock_slot_view(*old(self)), lock_of@),
            *final(self) == *final(slot),
    {
        match self {
            Some(lock) => {
                lock.release(lock_of);
            },
            None => {},
        }
        self
    }
}

// ---------------------------------------------------------------------------
// Laws of the stopwatch-lock commands
// ---------------------------------------------------------------------------

/// The lock `owner` holds in `s`, if any.
pub open spec fn lock_held<L>(s: Seq<(Seq<char>, L)>, owner: Seq<char>) -> Option<L> {
    match owner_position(s, owner, 0) {
        Some(i) => Some(s[i].1),
        None => None,
    }
}

proof fn lemma_position_range<L>(s: Seq<(Seq<char>, L)>, owner: Seq<char>, from: int)
    requires
        0 <= from,
    ensures
        match owner_position(s, owner, from) {
            Some(i) => from <= i < s.len() && s[i].0 == owner && forall|k: int|
                from <= k < i ==> s[k].0 != owner,
            None => forall|k: int| from <= k < s.len() ==> s[k].0 != owner,
        },
    decreases s.len() - from,
{
    if from < s.len() && s[from].0 != owner {
        lemma_position_range(s, owner, from + 1);
    }
}

proof fn lemma_position_same_owners<L>(s: Seq<(Seq<char>, L)>, t: Seq<(Seq<char>, L)>, owner: Seq<char>, from: int)
    requires
        0 <= from,
        s.len() == t.len(),
        forall|k: int| 0 <= k < s.len() ==> s[k].0 == t[k].0,
    ensures
        owner_position(s, owner, from) == owner_position(t, owner, from),
    decreases s.len() - from,
{
    if from < s.len() {
        lemma_position_same_owners(s, t, owner, from + 1);
    }
}

proof fn lemma_position_push<L>(s: Seq<(Seq<char>, L)>, e: (Seq<char>, L), owner: Seq<char>, from: int)
    requires
        0 <= from <= s.len(),
        e.0 != owner,
    ensures
        owner_position(s.push(e), owner, from) == owner_position(s, owner, from),
    decreases s.len() - from,
{
    let t = s.push(e);
    if from < s.len() {
        assert(t[from] == s[from]);
        lemma_position_push(s, e, owner, from + 1);
    } else {
        assert(t[from] == e);
        assert(owner_position(t, owner, from + 1) == None::<int>);
    }
}

/// After `owner` locks its stopwatch for `duration`, it holds a lock of
/// `duration`.
pub proof fn lemma_lock_holds<L>(s: Seq<(Seq<char>, L)>, owner: Seq<char>, duration: L)
    ensures
        lock_held(locked(s, owner, duration), owner) == Some(duration),
{
    lemma_position_range(s, owner, 0);
    match owner_position(s, owner, 0) {
        Some(i) => {
            let t = s.update(i, (owner, duration));
            lemma_position_same_owners(s, t, owner, 0);
        },
        None => {
            let t = s.push((owner, duration));
            lemma_position_range(t, owner, 0);
            assert(t[s.len() as int].0 == owner);
            match owner_position(t, owner, 0) {
                Some(j) => {
                    if j < s.len() {
                        assert(t[j] == s[j]);
                    }
                },
                None => {},
            }
        },
    }
}

/// Locking by one owner leaves the lock of every other owner as it was.
pub proof fn lemma_lock_keeps_others<L>(s: Seq<(Seq<char>, L)>, owner: Seq<char>, duration: L, other: Seq<char>)
    requires
        other != owner,
    ensures
        lock_held(locked(s, owner, duration), other) == lock_held(s, other),
{
    lemma_position_range(s, owner, 0);
    lemma_position_range(s, other, 0);
    match owner_position(s, owner, 0) {
        Some(i) => {
            let t = s.update(i, (owner, duration));
            lemma_position_same_owners(s, t, other, 0);
        },
        None => {
            lemma_position_push(s, (owner, duration), other, 0);
            match owner_position(s, other, 0) {
                Some(j) => {
                    assert(s.push((owner, duration))[j] == s[j]);
                },
                None => {},
            }
        },
    }
}

proof fn lemma_released_contains<L>(s: Seq<(Seq<char>, L)>, owner: Seq<char>, e: (Seq<char>, L))
    ensures
        released(s, owner).contains(e) == (e.0 != owner && s.contains(e)),
    decreases s.len(),
{
    if s.len() > 0 {
        lemma_released_contains(s.drop_last(), owner, e);
        let w = released(s.drop_last(), owner);
        if s.contains(e) {
            let k = choose|k: int| 0 <= k < s.len() && s[k] == e;
            if k < s.len() - 1 {
                assert(s.drop_last()[k] == e);
            }
        }
        if s.drop_last().contains(e) {
            let k = choose|k: int| 0 <= k < s.drop_last().len() && s.drop_last()[k] == e;
            assert(s[k] == e);
        }
        if s.last().0 != owner {
            let r = w.push(s.last());
            if r.contains(e) {
                let k = choose|k: int| 0 <= k < r.len() && r[k] == e;
                if k < w.len() {
                    assert(w[k] == e);
                } else {
                    assert(s[s.len() - 1] == e);
                }
            }
            if w.contains(e) {
                let k = choose|k: int| 0 <= k < w.len() && w[k] == e;
                assert(r[k] == e);
            }
            if e == s.last() {
                assert(r[w.len() as int] == e);
            }
        }
    }
}

/// After `owner` releases its lock, it holds none, and every other lock held
/// before is still held.
pub proof fn lemma_release<L>(s: Seq<(Seq<char>, L)>, owner: Seq<char>, e: (Seq<char>, L))
    ensures
        lock_held(released(s, owner), owner) == None::<L>,
        released(s, owner).contains(e) == (e.0 != owner && s.contains(e)),
{
    lemma_released_contains(s, owner, e);
    let r = released(s, owner);
    lemma_position_range(r, owner, 0);
    if let Some(i) = owner_position(r, owner, 0) {
        lemma_released_contains(s, owner, r[i]);
        assert(r.contains(r[i]));
    }
}

proof fn lemma_released_none<L>(s: Seq<(Seq<char>, L)>, owner: Seq<char>)
    requires
        forall|k: int| 0 <= k < s.len() ==> s[k].0 != owner,
    ensures
        released(s, owner) == s,
    decreases s.len(),
{
    if s.len() > 0 {
        assert(s[s.len() - 1] == s.last());
        lemma_released_none(s.drop_last(), owner);
        assert(s.drop_last().push(s.last()) =~= s);
    }
}

/// A lock taken by an owner that held none, then released, leaves the locks
/// as they were.
pub proof fn lemma_release_undoes_lock<L>(s: Seq<(Seq<char>, L)>, owner: Seq<char>, duration: L)
    requires
        lock_held(s, owner) == None::<L>,
    ensures
        released(locked(s, owner, duration), owner) == s,
{
    lemma_position_range(s, owner, 0);
    let t = s.push((owner, duration));
    assert(t.drop_last() =~= s);
    lemma_released_none(s, owner);
}

} // verus!
