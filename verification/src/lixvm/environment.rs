//! Variables of a running function: numbered slots and named variables.
use vstd::prelude::*;
use crate::lixvm::value::{
    Value, ValueV, values_view, fields_view, lemma_values_view, copy_value,
    copy_values, copy_fields, field_get, field_set, field_index, set_field,
};

verus! {

/// The variables of one activation.
pub struct Environment {
    slots: Vec<Value>,
    vars: Vec<(String, Value)>,
}

/// The mathematical value of an [`Environment`].
pub struct EnvV {
    pub slots: Seq<ValueV>,
    pub vars: Seq<(Seq<char>, ValueV)>,
}

impl View for Environment {
    type V = EnvV;

    closed spec fn view(&self) -> EnvV {
        EnvV { slots: values_view(self.slots@), vars: fields_view(self.vars@) }
    }
}

/// `n` empty slots.
pub open spec fn null_slots(n: nat) -> Seq<ValueV> {
    Seq::new(n, |_i: int| ValueV::Null)
}

/// The slots grown with empty ones so that `index` is one of them.
pub open spec fn grow_slots(s: Seq<ValueV>, index: nat) -> Seq<ValueV> {
    if index < s.len() {
        s
    } else {
        s + null_slots((index + 1 - s.len()) as nat)
    }
}

/// Whether a value is an object.
pub open spec fn is_object(v: ValueV) -> bool {
    v is Object
}

impl Environment {
    /// An environment with `slot_count` empty slots and no named variable.
    pub fn new(slot_count: usize) -> (e: Environment)
        ensures
            e@.slots == null_slots(slot_count as nat),
            e@.vars == Seq::<(Seq<char>, ValueV)>::empty(),
    {
        let mut slots: Vec<Value> = Vec::new();
        let mut k: usize = 0;
        while k < slot_count
            invariant
                k <= slot_count,
                values_view(slots@) == null_slots(k as nat),
            decreases slot_count - k,
        {
            proof {
                crate::lixvm::value::lemma_values_view_push(slots@, Value::Null);
            }
            slots.push(Value::Null);
            k = k + 1;
            assert(values_view(slots@) =~= null_slots(k as nat));
        }
        let e = Environment { slots, vars: Vec::new() };
        assert(e@.vars =~= Seq::<(Seq<char>, ValueV)>::empty());
        e
    }

    /// How many slots there are.
    pub fn slot_count(&self) -> (n: usize)
        ensures
            n == self@.slots.len(),
    {
        proof {
            lemma_values_view(self.slots@);
        }
        self.slots.len()
    }

    /// The value in slot `index`.
    pub fn get_slot(&self, index: u16) -> (v: &Value)
        requires
            (index as int) < self@.slots.len(),
        ensures
            v@ == self@.slots[index as int],
    {
        proof {
            lemma_values_view(self.slots@);
        }
        &self.slots[index as usize]
    }

    /// Stores `value` in slot `index`, adding empty slots up to it first.
    pub fn set_slot(&mut self, index: u16, value: Value)
        ensures
            final(self)@.slots == grow_slots(old(self)@.slots, index as nat).update(index as int, value@),
            final(self)@.vars == old(self)@.vars,
    {
        proof {
            lemma_values_view(self.slots@);
        }
        let i = index as usize;
        while self.slots.len() <= i
            invariant
                values_view(self.slots@) == grow_slots(old(self)@.slots, index as nat).take(
                    self.slots@.len() as int,
                ),
                old(self)@.slots.len() <= self.slots@.len() <= grow_slots(old(self)@.slots, index as nat).len(),
                self.vars == old(self).vars,
                i == index,
            decreases i + 1 - self.slots.len(),
        {
            proof {
                crate::lixvm::value::lemma_values_view_push(self.slots@, Value::Null);
            }
            let ghost n = self.slots@.len();
            self.slots.push(Value::Null);
            assert(values_view(self.slots@) =~= grow_slots(old(self)@.slots, index as nat).take((n + 1) as int));
        }
        proof {
            lemma_values_view(self.slots@);
            assert(values_view(self.slots@) =~= grow_slots(old(self)@.slots, index as nat).take(
                grow_slots(old(self)@.slots, index as nat).len() as int,
            ));
        }
        let ghost before = self.slots@;
        self.slots.set(i, value);
        proof {
            let g = grow_slots(old(self)@.slots, index as nat);
            lemma_values_view(self.slots@);
            lemma_values_view(before);
            assert(g.take(g.len() as int) =~= g);
            assert(values_view(before) == g);
            assert forall|j: int| 0 <= j < g.len() implies #[trigger] values_view(self.slots@)[j] == g.update(
                index as int,
                value@,
            )[j] by {
                assert(values_view(before)[j] == before[j]@);
            }
        }
        assert(self@.slots =~= grow_slots(old(self)@.slots, index as nat).update(index as int, value@));
    }

    /// Copies of the objects held in slots, in slot order.
    pub fn objects(&self) -> (r: Vec<Value>)
        ensures
            values_view(r@) == self@.slots.filter(|v: ValueV| is_object(v)),
    {
        let ghost sv = values_view(self.slots@);
        proof {
            lemma_values_view(self.slots@);
            reveal(Seq::filter);
            assert(sv.take(0) =~= Seq::<ValueV>::empty());
        }
        let mut r: Vec<Value> = Vec::new();
        let mut k: usize = 0;
        while k < self.slots.len()
            invariant
                k <= self.slots.len(),
                sv == values_view(self.slots@),
                sv.len() == self.slots@.len(),
                forall|j: int| 0 <= j < self.slots@.len() ==> #[trigger] sv[j] == self.slots@[j]@,
                values_view(r@) == sv.take(k as int).filter(|v: ValueV| is_object(v)),
            decreases self.slots.len() - k,
        {
            proof {
                reveal(Seq::filter);
                assert(sv.take(k + 1).drop_last() =~= sv.take(k as int));
                assert(sv.take(k + 1).last() == sv[k as int]);
            }
            match &self.slots[k] {
                Value::Object(_, _) => {
                    let x = copy_value(&self.slots[k]);
                    proof {
                        crate::lixvm::value::lemma_values_view_push(r@, x);
                    }
                    r.push(x);
                },
                _ => {},
            }
            k = k + 1;
        }
        assert(sv.take(k as int) =~= sv);
        r
    }

    /// The value of the named variable.
    pub fn get(&self, name: &String) -> (r: Option<&Value>)
        ensures
            match field_get(self@.vars, name@) {
                Some(v) => r matches Some(x) && x@ == v,
                None => r is None,
            },
    {
        match field_index(&self.vars, name) {
            Some(i) => Some(&self.vars[i].1),
            None => None,
        }
    }

    /// Binds the named variable to `value`.
    pub fn set(&mut self, name: String, value: Value)
        ensures
            final(self)@.vars == field_set(old(self)@.vars, name@, value@),
            final(self)@.slots == old(self)@.slots,
    {
        set_field(&mut self.vars, name, value);
    }

    /// A deep copy.
    pub fn copy(&self) -> (r: Environment)
        ensures
            r@ == self@,
    {
        Environment { slots: copy_values(&self.slots), vars: copy_fields(&self.vars) }
    }
}

} // verus!
