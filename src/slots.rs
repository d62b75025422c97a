use vstd::prelude::*;
use crate::address::Address;

verus! {

/// One storage slot handed to a call: its address, the authority that owns
/// it, its resource balance and its bytes.
#[derive(Debug)]
pub struct Slot {
    pub key: Address,
    pub owner: Address,
    pub lamports: u64,
    pub data: Vec<u8>,
}

/// What a slot holds, as the contracts speak of it.
pub struct SlotState {
    pub owner: Address,
    pub lamports: u64,
    pub data: Seq<u8>,
}

impl SlotState {
    /// This state with its bytes replaced.
    pub open spec fn with_data(self, data: Seq<u8>) -> SlotState {
        SlotState { data, ..self }
    }

    /// This state with its balance replaced.
    pub open spec fn with_lamports(self, lamports: u64) -> SlotState {
        SlotState { lamports, ..self }
    }
}

impl Slot {
    pub open spec fn state(&self) -> SlotState {
        SlotState { owner: self.owner, lamports: self.lamports, data: self.data@ }
    }
}

/// No two slots of `s` share an address.
pub open spec fn keys_distinct(s: Seq<Slot>) -> bool {
    forall|i: int, j: int| 0 <= i < s.len() && 0 <= j < s.len() && i != j ==> s[i].key != s[j].key
}

/// Some slot of `s` has address `a`.
pub open spec fn has_key(s: Seq<Slot>, a: Address) -> bool {
    exists|i: int| 0 <= i < s.len() && #[trigger] s[i].key == a
}

/// The slots of `s` keyed by address.
pub open spec fn map_of(s: Seq<Slot>) -> Map<Address, SlotState> {
    Map::new(
        |a: Address| has_key(s, a),
        |a: Address| s[choose|i: int| 0 <= i < s.len() && #[trigger] s[i].key == a].state(),
    )
}

proof fn lemma_map_of_at(s: Seq<Slot>, i: int)
    requires
        keys_distinct(s),
        0 <= i < s.len(),
    ensures
        map_of(s).contains_key(s[i].key),
        map_of(s)[s[i].key] == s[i].state(),
{
    let a = s[i].key;
    assert(has_key(s, a));
    let j = choose|j: int| 0 <= j < s.len() && #[trigger] s[j].key == a;
    assert(j == i);
}

proof fn lemma_map_of_update(s: Seq<Slot>, i: int, x: Slot)
    requires
        keys_distinct(s),
        0 <= i < s.len(),
        x.key == s[i].key,
    ensures
        keys_distinct(s.update(i, x)),
        map_of(s.update(i, x)) == map_of(s).insert(x.key, x.state()),
{
    let t = s.update(i, x);
    assert forall|a: Address| has_key(t, a) <==> has_key(s, a) by {
        if has_key(t, a) {
            let j = choose|j: int| 0 <= j < t.len() && #[trigger] t[j].key == a;
            assert(s[j].key == a);
        }
        if has_key(s, a) {
            let j = choose|j: int| 0 <= j < s.len() && #[trigger] s[j].key == a;
            assert(t[j].key == a);
        }
    }
    assert forall|a: Address| #[trigger] map_of(t).contains_key(a) implies map_of(t)[a]
        == map_of(s).insert(x.key, x.state())[a] by {
        let j = choose|j: int| 0 <= j < t.len() && #[trigger] t[j].key == a;
        lemma_map_of_at(t, j);
        if a != x.key {
            lemma_map_of_at(s, j);
        }
    }
    assert(map_of(t) =~= map_of(s).insert(x.key, x.state()));
}

proof fn lemma_map_of_push(s: Seq<Slot>, x: Slot)
    requires
        keys_distinct(s),
        !has_key(s, x.key),
    ensures
        keys_distinct(s.push(x)),
        map_of(s.push(x)) == map_of(s).insert(x.key, x.state()),
{
    let t = s.push(x);
    assert forall|a: Address| has_key(t, a) <==> (has_key(s, a) || a == x.key) by {
        if has_key(t, a) {
            let j = choose|j: int| 0 <= j < t.len() && #[trigger] t[j].key == a;
            if j < s.len() {
                assert(s[j].key == a);
            }
        }
        if has_key(s, a) {
            let j = choose|j: int| 0 <= j < s.len() && #[trigger] s[j].key == a;
            assert(t[j].key == a);
        }
        if a == x.key {
            assert(t[s.len() as int].key == a);
        }
    }
    assert forall|a: Address| #[trigger] map_of(t).contains_key(a) implies map_of(t)[a]
        == map_of(s).insert(x.key, x.state())[a] by {
        let j = choose|j: int| 0 <= j < t.len() && #[trigger] t[j].key == a;
        lemma_map_of_at(t, j);
        if a != x.key {
            lemma_map_of_at(s, j);
        }
    }
    assert(map_of(t) =~= map_of(s).insert(x.key, x.state()));
}

/// The slots handed to one call, at most one per address.
pub struct WorkingSet {
    slots: Vec<Slot>,
}

impl View for WorkingSet {
    type V = Map<Address, SlotState>;

    closed spec fn view(&self) -> Map<Address, SlotState> {
        map_of(self.slots@)
    }
}

impl WorkingSet {
    #[verifier::type_invariant]
    spec fn inv(self) -> bool {
        keys_distinct(self.slots@)
    }

    /// A working set with no slot.
    pub fn new() -> (r: WorkingSet)
        ensures
            r@ == Map::<Address, SlotState>::empty(),
    {
        let r = WorkingSet { slots: Vec::new() };
        assert(r@ =~= Map::<Address, SlotState>::empty());
        r
    }

    /// Where in the set the slot with address `key` stands.
    fn position(&self, key: &Address) -> (r: Option<usize>)
        ensures
            r is None <==> !self@.contains_key(*key),
            r matches Some(i) ==> i < self.slots@.len() && self.slots@[i as int].key == *key
                && self@[*key] == self.slots@[i as int].state(),
    {
        proof {
            use_type_invariant(self);
        }
        let mut i: usize = 0;
        while i < self.slots.len()
            invariant
                i <= self.slots@.len(),
                keys_distinct(self.slots@),
                forall|j: int| 0 <= j < i ==> self.slots@[j].key != *key,
            decreases self.slots@.len() - i,
        {
            if self.slots[i].key.same_as(key) {
                proof {
                    lemma_map_of_at(self.slots@, i as int);
                }
                return Some(i);
            }
            i = i + 1;
        }
        None
    }

    /// Adds a slot; a second slot with an address already present is left out.
    pub fn add(&mut self, slot: Slot) -> (r: bool)
        ensures
            r == !old(self)@.contains_key(slot.key),
            r ==> final(self)@ == old(self)@.insert(slot.key, slot.state()),
            !r ==> final(self)@ == old(self)@,
    {
        proof {
            use_type_invariant(&*self);
        }
        match self.position(&slot.key) {
            Some(_) => false,
            None => {
                let mut slots: Vec<Slot> = Vec::new();
                std::mem::swap(&mut slots, &mut self.slots);
                proof {
                    lemma_map_of_push(slots@, slot);
                }
                slots.push(slot);
                self.slots = slots;
                true
            },
        }
    }

    /// The slot with address `key`, if the set holds one.
    pub fn get(&self, key: &Address) -> (r: Option<&Slot>)
        ensures
            r is None <==> !self@.contains_key(*key),
            r matches Some(s) ==> s.key == *key && s.state() == self@[*key],
    {
        match self.position(key) {
            Some(i) => Some(&self.slots[i]),
            None => None,
        }
    }

    /// Replaces the bytes of the slot with address `key`.
    pub fn set_data(&mut self, key: &Address, data: Vec<u8>)
        requires
            old(self)@.contains_key(*key),
        ensures
            final(self)@ == old(self)@.insert(*key, old(self)@[*key].with_data(data@)),
    {
        proof {
            use_type_invariant(&*self);
        }
        let i = match self.position(key) {
            Some(i) => i,
            None => {
                return;
            },
        };
        let mut slots: Vec<Slot> = Vec::new();
        std::mem::swap(&mut slots, &mut self.slots);
        let s = Slot { key: slots[i].key, owner: slots[i].owner, lamports: slots[i].lamports, data };
        proof {
            lemma_map_of_update(slots@, i as int, s);
        }
        slots.set(i, s);
        self.slots = slots;
    }

    /// Replaces the balance of the slot with address `key`.
    pub fn set_lamports(&mut self, key: &Address, lamports: u64)
        requires
            old(self)@.contains_key(*key),
        ensures
            final(self)@ == old(self)@.insert(*key, old(self)@[*key].with_lamports(lamports)),
    {
        proof {
            use_type_invariant(&*self);
        }
        let i = match self.position(key) {
            Some(i) => i,
            None => {
                return;
            },
        };
        let mut slots: Vec<Slot> = Vec::new();
        std::mem::swap(&mut slots, &mut self.slots);
        let data = slots[i].data.clone();
        let s = Slot { key: slots[i].key, owner: slots[i].owner, lamports, data };
        proof {
            lemma_map_of_update(slots@, i as int, s);
        }
        slots.set(i, s);
        self.slots = slots;
    }
}

} // verus!
