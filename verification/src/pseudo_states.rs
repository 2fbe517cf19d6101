//! The pseudo states of an entity and the commands that add and remove one.
use vstd::prelude::*;

verus! {

/// `s` without the occurrences of `x`, the rest kept in order.
pub open spec fn without(s: Seq<u64>, x: u64) -> Seq<u64>
    decreases s.len(),
{
    if s.len() == 0 {
        Seq::empty()
    } else if s.last() == x {
        without(s.drop_last(), x)
    } else {
        without(s.drop_last(), x).push(s.last())
    }
}

/// No element of `s` occurs twice.
pub open spec fn distinct(s: Seq<u64>) -> bool {
    forall|i: int, j: int| 0 <= i < s.len() && 0 <= j < s.len() && i != j ==> s[i] != s[j]
}

/// The pseudo states of an entity, in the order they were added, each given by
/// the identifier of the pseudo state it stands for. No state occurs twice.
pub struct PseudoStates {
    states: Vec<u64>,
}

impl View for PseudoStates {
    type V = Seq<u64>;

    closed spec fn view(&self) -> Seq<u64> {
        self.states@
    }
}

impl PseudoStates {
    #[verifier::type_invariant]
    closed spec fn inv(self) -> bool {
        distinct(self.states@)
    }

    /// An entity with no pseudo state.
    pub fn new() -> (states: Self)
        ensures
            states@ == Seq::<u64>::empty(),
            distinct(states@),
    {
        PseudoStates { states: Vec::new() }
    }

    /// Whether the entity is in `state`.
    pub fn has(&self, state: u64) -> (found: bool)
        ensures
            found == self@.contains(state),
            distinct(self@),
    {
        proof {
            use_type_invariant(self);
        }
        let mut i: usize = 0;
        while i < self.states.len()
            invariant
                i <= self.states@.len(),
                distinct(self.states@),
                forall|k: int| 0 <= k < i ==> self.states@[k] != state,
            decreases self.states.len() - i,
        {
            if self.states[i] == state {
                return true;
            }
            i = i + 1;
        }
        false
    }

    /// Puts the entity in `state`, which it is not in yet.
    pub fn add(&mut self, state: u64)
        requires
            !old(self)@.contains(state),
        ensures
            final(self)@ == old(self)@.push(state),
            distinct(final(self)@),
    {
        proof {
            use_type_invariant(&*self);
        }
        let mut states = Vec::new();
        std::mem::swap(&mut states, &mut self.states);
        let ghost before = states@;
        states.push(state);
        assert forall|i: int, j: int|
            0 <= i < states@.len() && 0 <= j < states@.len() && i != j implies states@[i]
            != states@[j] by {
            if i == before.len() {
                assert(before[j] == states@[j]);
            } else if j == before.len() {
                assert(before[i] == states@[i]);
            }
        }
        self.states = states;
    }

    /// Takes the entity out of `state`, if it is in it.
    pub fn remove(&mut self, state: u64)
        ensures
            final(self)@ == without(old(self)@, state),
            distinct(final(self)@),
    {
        proof {
            use_type_invariant(&*self);
        }
        let mut kept: Vec<u64> = Vec::new();
        let mut i: usize = 0;
        while i < self.states.len()
            invariant
                i <= self.states@.len(),
                distinct(self.states@),
                kept@ == without(self.states@.take(i as int), state),
                forall|k: int| 0 <= k < kept@.len() ==> exists|m: int| 0 <= m < i && #[trigger] kept@[k] == self.states@[m],
                forall|k: int, m: int| 0 <= k < kept@.len() && 0 <= m < kept@.len() && k != m ==> kept@[k] != kept@[m],
            decreases self.states.len() - i,
        {
            assert(self.states@.take(i + 1).drop_last() =~= self.states@.take(i as int));
            if self.states[i] != state {
                let ghost before = kept@;
                kept.push(self.states[i]);
                assert forall|k: int, m: int|
                    0 <= k < kept@.len() && 0 <= m < kept@.len() && k != m implies kept@[k]
                    != kept@[m] by {
                    if k == before.len() {
                        let mm = choose|mm: int| 0 <= mm < i && #[trigger] kept@[m] == self.states@[mm];
                        assert(before[m] == kept@[m]);
                    } else if m == before.len() {
                        let kk = choose|kk: int| 0 <= kk < i && #[trigger] kept@[k] == self.states@[kk];
                        assert(before[k] == kept@[k]);
                    }
                }
                assert forall|k: int| 0 <= k < kept@.len() implies exists|m: int|
                    0 <= m < i + 1 && #[trigger] kept@[k] == self.states@[m] by {
                    if k == before.len() {
                        assert(kept@[k] == self.states@[i as int]);
                    } else {
                        assert(before[k] == kept@[k]);
                    }
                }
            }
            i = i + 1;
        }
        assert(self.states@.take(self.states@.len() as int) =~= self.states@);
        self.states = kept;
    }

    /// The states, in the order they were added.
    pub fn get(&self) -> (states: &Vec<u64>)
        ensures
            states@ == self@,
    {
        &self.states
    }
}

/// The pseudo states an entity ends up with after the command that puts it in
/// `state`: an entity without pseudo states gets the single state; one that is
/// already in `state` keeps its states; otherwise `state` comes last.
pub open spec fn states_after_add(current: Option<Seq<u64>>, state: u64) -> Seq<u64> {
    match current {
        None => seq![state],
        Some(s) => if s.contains(state) {
            s
        } else {
            s.push(state)
        },
    }
}

/// The pseudo states an entity ends up with after the command that takes it
/// out of `state`: an entity without pseudo states stays without.
pub open spec fn states_after_remove(current: Option<Seq<u64>>, state: u64) -> Option<Seq<u64>> {
    match current {
        None => None,
        Some(s) => Some(without(s, state)),
    }
}

/// The pseudo states held in an entity's slot, if it has any.
pub open spec fn slot_view(slot: Option<PseudoStates>) -> Option<Seq<u64>> {
    match slot {
        Some(s) => Some(s@),
        None => None,
    }
}

/// Whether the command that puts an entity in `state` writes its pseudo
/// states: always, but for an entity already in `state`, whose pseudo states
/// are left untouched (and so are not marked changed).
pub open spec fn add_writes(current: Option<Seq<u64>>, state: u64) -> bool {
    !(current is Some && current.unwrap().contains(state))
}

/// The command that puts an entity in a pseudo state.
pub struct AddPseudoState {
    pub state: u64,
}

impl AddPseudoState {
    /// Applies the command to the entity's pseudo-state slot (`None` when the
    /// entity has no pseudo-state component yet). Returns whether it wrote
    /// the slot; when it did not, the slot is exactly as it was.
    pub fn apply(self, slot: &mut Option<PseudoStates>) -> (written: bool)
        ensures
            written == add_writes(slot_view(*old(slot)), self.state),
            slot_view(*final(slot)) == Some(states_after_add(slot_view(*old(slot)), self.state)),
            !written ==> *final(slot) == *old(slot),
    {
        match slot {
            Some(pseudo_states) => {
                if !pseudo_states.has(self.state) {
                    pseudo_states.add(self.state);
                    true
                } else {
                    false
                }
            },
            None => {
                let mut pseudo_states = PseudoStates::new();
                pseudo_states.add(self.state);
                *slot = Some(pseudo_states);
                true
            },
        }
    }
}

/// The command that takes an entity out of a pseudo state.
pub struct RemovePseudoState {
    pub state: u64,
}

impl RemovePseudoState {
    /// Applies the command to the entity's pseudo-state slot (`None` when the
    /// entity has no pseudo-state component). Returns whether it wrote the
    /// slot: it does whenever the entity has pseudo states, and otherwise
    /// leaves the slot as it was.
    pub fn apply(self, slot: &mut Option<PseudoStates>) -> (written: bool)
        ensures
            written == old(slot).is_some(),
            slot_view(*final(slot)) == states_after_remove(slot_view(*old(slot)), self.state),
            !written ==> *final(slot) == *old(slot),
    {
        match slot {
            Some(pseudo_states) => {
                pseudo_states.remove(self.state);
                true
            },
            None => false,
        }
    }
}

/// The commands that put an entity in a pseudo state and take it out of one,
/// applied to the entity's pseudo-state slot (`None` when the entity has no
/// pseudo-state component yet).
pub trait ManagePseudoStateExt {
    fn add_pseudo_state(&mut self, state: u64) -> &mut Self;

    fn remove_pseudo_state(&mut self, state: u64) -> &mut Self;
}

impl ManagePseudoStateExt for Option<PseudoStates> {
    /// Puts the entity in `state`; an entity already in it is left untouched.
    fn add_pseudo_state(&mut self, state: u64) -> (slot: &mut Self)
        ensures
            slot_view(*slot) == Some(states_after_add(slot_view(*old(self)), state)),
            !add_writes(slot_view(*old(self)), state) ==> *slot == *old(self),
            *final(self) == *final(slot),
    {
        AddPseudoState { state }.apply(self);
        self
    }

    /// Takes the entity out of `state`; an entity without pseudo states is left
    /// untouched.
    fn remove_pseudo_state(&mut self, state: u64) -> (slot: &mut Self)
        ensures
            slot_view(*slot) == states_after_remove(slot_view(*old(self)), state),
            old(self).is_none() ==> *slot == *old(self),
            *final(self) == *final(slot),
    {
        RemovePseudoState { state }.apply(self);
        self
    }
}

// ---------------------------------------------------------------------------
// Laws of the pseudo-state commands
// ---------------------------------------------------------------------------

proof fn lemma_contains_split(q: Seq<u64>, y: u64)
    requires
        q.len() > 0,
    ensures
        q.contains(y) == (q.drop_last().contains(y) || q.last() == y),
{
    if q.contains(y) {
        let k = choose|k: int| 0 <= k < q.len() && q[k] == y;
        if k < q.len() - 1 {
            assert(q.drop_last()[k] == y);
        }
    }
    if q.drop_last().contains(y) {
        let k = choose|k: int| 0 <= k < q.drop_last().len() && q.drop_last()[k] == y;
        assert(q[k] == y);
    }
    if q.last() == y {
        assert(q[q.len() - 1] == y);
    }
}

proof fn lemma_push_contains(w: Seq<u64>, v: u64, y: u64)
    ensures
        w.push(v).contains(y) == (w.contains(y) || v == y),
{
    lemma_contains_split(w.push(v), y);
    assert(w.push(v).drop_last() =~= w);
}

proof fn lemma_without_contains(q: Seq<u64>, x: u64, y: u64)
    ensures
        without(q, x).contains(y) == (y != x && q.contains(y)),
    decreases q.len(),
{
    if q.len() > 0 {
        lemma_without_contains(q.drop_last(), x, y);
        lemma_contains_split(q, y);
        let w = without(q.drop_last(), x);
        if q.last() != x {
            lemma_push_contains(w, q.last(), y);
        }
    }
}

proof fn lemma_without_absent(q: Seq<u64>, x: u64)
    requires
        !q.contains(x),
    ensures
        without(q, x) == q,
    decreases q.len(),
{
    if q.len() > 0 {
        assert(q[q.len() - 1] == q.last());
        assert(!q.drop_last().contains(x)) by {
            if q.drop_last().contains(x) {
                let k = choose|k: int| 0 <= k < q.drop_last().len() && q.drop_last()[k] == x;
                assert(q[k] == x);
            }
        }
        lemma_without_absent(q.drop_last(), x);
        assert(q.drop_last().push(q.last()) =~= q);
    }
}

/// After the command that puts an entity in a state, the entity is in that
/// state, and in every state it was in before, and in no other.
pub proof fn lemma_add_puts_in_state(current: Option<Seq<u64>>, state: u64, other: u64)
    ensures
        states_after_add(current, state).contains(state),
        other != state ==> states_after_add(current, state).contains(other) == (match current {
            Some(q) => q.contains(other),
            None => false,
        }),
{
    match current {
        Some(q) => {
            if !q.contains(state) {
                assert(q.push(state)[q.len() as int] == state);
                if q.push(state).contains(other) {
                    let k = choose|k: int| 0 <= k < q.push(state).len() && q.push(state)[k] == other;
                    if other != state {
                        assert(q[k] == other);
                    }
                }
                if q.contains(other) {
                    let k = choose|k: int| 0 <= k < q.len() && q[k] == other;
                    assert(q.push(state)[k] == other);
                }
            }
        },
        None => {
            assert(seq![state][0] == state);
        },
    }
}

/// Putting an entity twice in the same state is the same as putting it
/// there once.
pub proof fn lemma_add_idempotent(current: Option<Seq<u64>>, state: u64)
    ensures
        states_after_add(Some(states_after_add(current, state)), state) == states_after_add(
            current,
            state,
        ),
{
    lemma_add_puts_in_state(current, state, state);
}

/// After the command that takes an entity out of a state, the entity is not
/// in that state, and it is still in every other state it was in.
pub proof fn lemma_remove_takes_out_of_state(current: Option<Seq<u64>>, state: u64, other: u64)
    ensures
        match states_after_remove(current, state) {
            Some(q) => !q.contains(state) && (other != state ==> q.contains(other) == current.unwrap().contains(other)),
            None => current.is_none(),
        },
{
    if let Some(q) = current {
        lemma_without_contains(q, state, state);
        lemma_without_contains(q, state, other);
    }
}

/// Taking an entity out of a state it was just put in, while it had not been
/// in it, gives back the states it had.
pub proof fn lemma_remove_undoes_add(states: Seq<u64>, state: u64)
    requires
        !states.contains(state),
    ensures
        states_after_remove(Some(states_after_add(Some(states), state)), state) == Some(states),
{
    assert(states.push(state).drop_last() =~= states);
    assert(states.push(state).last() == state);
    lemma_without_absent(states, state);
}

} // verus!
