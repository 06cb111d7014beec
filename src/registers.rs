use vstd::prelude::*;
use crate::value::{Value, ValueV};

verus! {

/// Why a register could not be defined, assigned or loaded.
#[derive(Clone, Copy, Debug, PartialEq, Eq, Structural)]
pub enum RegisterError {
    /// The register was never defined.
    Undefined(u64),
    /// The register was defined before.
    AlreadyDefined(u64),
    /// The register holds a value already.
    AlreadyAssigned(u64),
    /// The register was defined but holds no value yet.
    Unassigned(u64),
}

pub open spec fn slot_view(o: Option<Value>) -> Option<ValueV> {
    match o {
        Some(v) => Some(v@),
        None => None,
    }
}

/// The register file as a map from index to its value, `None` while defined but unassigned.
pub open spec fn slots_map(s: Seq<(u64, Option<Value>)>) -> Map<u64, Option<ValueV>>
    decreases s.len(),
{
    if s.len() == 0 {
        Map::empty()
    } else {
        slots_map(s.drop_last()).insert(s.last().0, slot_view(s.last().1))
    }
}

pub open spec fn keys_unique(s: Seq<(u64, Option<Value>)>) -> bool {
    forall|i: int, j: int| 0 <= i < j < s.len() ==> #[trigger] s[i].0 != #[trigger] s[j].0
}

proof fn lemma_slots_map_index(s: Seq<(u64, Option<Value>)>, i: int)
    requires
        keys_unique(s),
        0 <= i < s.len(),
    ensures
        slots_map(s).contains_key(s[i].0),
        slots_map(s)[s[i].0] == slot_view(s[i].1),
    decreases s.len(),
{
    if i < s.len() - 1 {
        lemma_slots_map_index(s.drop_last(), i);
    }
}

proof fn lemma_slots_map_absent(s: Seq<(u64, Option<Value>)>, k: u64)
    requires
        forall|i: int| 0 <= i < s.len() ==> #[trigger] s[i].0 != k,
    ensures
        !slots_map(s).contains_key(k),
    decreases s.len(),
{
    if s.len() > 0 {
        lemma_slots_map_absent(s.drop_last(), k);
    }
}

proof fn lemma_slots_map_update(s: Seq<(u64, Option<Value>)>, i: int, v: Option<Value>)
    requires
        keys_unique(s),
        0 <= i < s.len(),
    ensures
        slots_map(s.update(i, (s[i].0, v))) == slots_map(s).insert(s[i].0, slot_view(v)),
    decreases s.len(),
{
    let t = s.update(i, (s[i].0, v));
    if i == s.len() - 1 {
        assert(t.drop_last() =~= s.drop_last());
        assert(slots_map(s).insert(s[i].0, slot_view(v)) =~= slots_map(s.drop_last()).insert(
            s[i].0,
            slot_view(v),
        ));
    } else {
        assert(t.drop_last() =~= s.drop_last().update(i, (s[i].0, v)));
        lemma_slots_map_update(s.drop_last(), i, v);
        assert(slots_map(t) =~= slots_map(s).insert(s[i].0, slot_view(v)));
    }
}

/// The register file of one function invocation: each register is defined once and then
/// assigned at most once.
pub struct Registers {
    slots: Vec<(u64, Option<Value>)>,
}

impl View for Registers {
    type V = Map<u64, Option<ValueV>>;

    closed spec fn view(&self) -> Map<u64, Option<ValueV>> {
        slots_map(self.slots@)
    }
}

impl Registers {
    /// No index appears twice.
    pub closed spec fn wf(&self) -> bool {
        keys_unique(self.slots@)
    }

    /// An empty register file.
    pub fn new() -> (r: Registers)
        ensures
            r.wf(),
            r@ == Map::<u64, Option<ValueV>>::empty(),
    {
        Registers { slots: Vec::new() }
    }

    fn position(&self, reg: u64) -> (r: Option<usize>)
        requires
            self.wf(),
        ensures
            match r {
                Some(i) => i < self.slots@.len() && self.slots@[i as int].0 == reg,
                None => !self@.contains_key(reg),
            },
    {
        let mut i: usize = 0;
        while i < self.slots.len()
            invariant
                i <= self.slots@.len(),
                forall|j: int| 0 <= j < i ==> #[trigger] self.slots@[j].0 != reg,
            decreases self.slots@.len() - i,
        {
            if self.slots[i].0 == reg {
                return Some(i);
            }
            i = i + 1;
        }
        proof {
            lemma_slots_map_absent(self.slots@, reg);
        }
        None
    }

    /// Declares a register; fails if it was declared before.
    pub fn define(&mut self, reg: u64) -> (r: Result<(), RegisterError>)
        requires
            old(self).wf(),
        ensures
            final(self).wf(),
            old(self)@.contains_key(reg) ==> r == Err::<(), RegisterError>(
                RegisterError::AlreadyDefined(reg),
            ) && final(self)@ == old(self)@,
            !old(self)@.contains_key(reg) ==> r is Ok && final(self)@ == old(self)@.insert(reg, None),
    {
        match self.position(reg) {
            Some(i) => {
                proof {
                    lemma_slots_map_index(self.slots@, i as int);
                }
                Err(RegisterError::AlreadyDefined(reg))
            },
            None => {
                let ghost before = self.slots@;
                proof {
                    lemma_slots_map_absent_all(before, reg);
                }
                self.slots.push((reg, None));
                assert(self.slots@.drop_last() =~= before);
                Ok(())
            },
        }
    }

    /// Stores a value in a defined register that holds none yet.
    pub fn assign(&mut self, reg: u64, value: Value) -> (r: Result<(), RegisterError>)
        requires
            old(self).wf(),
        ensures
            final(self).wf(),
            !old(self)@.contains_key(reg) ==> r == Err::<(), RegisterError>(
                RegisterError::Undefined(reg),
            ) && final(self)@ == old(self)@,
            old(self)@.contains_key(reg) && old(self)@[reg] is Some ==> r == Err::<(), RegisterError>(
                RegisterError::AlreadyAssigned(reg),
            ) && final(self)@ == old(self)@,
            old(self)@.contains_key(reg) && old(self)@[reg] is None ==> r is Ok && final(self)@
                == old(self)@.insert(reg, Some(value@)),
    {
        match self.position(reg) {
            None => Err(RegisterError::Undefined(reg)),
            Some(i) => {
                proof {
                    lemma_slots_map_index(self.slots@, i as int);
                }
                if self.slots[i].1.is_some() {
                    return Err(RegisterError::AlreadyAssigned(reg));
                }
                let ghost before = self.slots@;
                self.slots.set(i, (reg, Some(value)));
                proof {
                    lemma_slots_map_update(before, i as int, Some(value));
                    assert(self.slots@ == before.update(i as int, (before[i as int].0, Some(value))));
                    assert forall|a: int, b: int| 0 <= a < b < self.slots@.len() implies #[trigger] self.slots@[a].0
                        != #[trigger] self.slots@[b].0 by {
                        assert(self.slots@[a].0 == before[a].0);
                        assert(self.slots@[b].0 == before[b].0);
                    }
                }
                Ok(())
            },
        }
    }

    /// Returns the value of an assigned register.
    pub fn load(&self, reg: u64) -> (r: Result<&Value, RegisterError>)
        requires
            self.wf(),
        ensures
            !self@.contains_key(reg) ==> r == Err::<&Value, RegisterError>(RegisterError::Undefined(reg)),
            self@.contains_key(reg) && self@[reg] is None ==> r == Err::<&Value, RegisterError>(
                RegisterError::Unassigned(reg),
            ),
            self@.contains_key(reg) && self@[reg] is Some ==> (r matches Ok(v) && self@[reg] == Some(v@)),
    {
        match self.position(reg) {
            None => Err(RegisterError::Undefined(reg)),
            Some(i) => {
                proof {
                    lemma_slots_map_index(self.slots@, i as int);
                }
                match &self.slots[i].1 {
                    Some(v) => Ok(v),
                    None => Err(RegisterError::Unassigned(reg)),
                }
            },
        }
    }
}

proof fn lemma_slots_map_absent_all(s: Seq<(u64, Option<Value>)>, k: u64)
    requires
        !slots_map(s).contains_key(k),
    ensures
        forall|i: int| 0 <= i < s.len() ==> #[trigger] s[i].0 != k,
    decreases s.len(),
{
    if s.len() > 0 {
        lemma_slots_map_absent_all(s.drop_last(), k);
        assert forall|i: int| 0 <= i < s.len() implies #[trigger] s[i].0 != k by {
            if i < s.len() - 1 {
                assert(s[i] == s.drop_last()[i]);
            }
        }
    }
}

} // verus!
