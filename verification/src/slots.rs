//! Named, indexed values: the externally visible properties of a node, which
//! a backend interacting with it queries by name or by index.

use vstd::prelude::*;

verus! {

/// Values that have both a name and an index. Names are unique; the index
/// of a value is the order in which it was added.
#[derive(Debug)]
pub struct Slots<T> {
    values: Vec<T>,
    names: Vec<String>,
}

/// Why a slot could not be updated.
#[derive(Debug)]
pub enum SlotError {
    /// No slot has this name.
    NameNotFound(String),
    /// No slot has this index.
    IndexNotFound(usize),
}

impl<T> Slots<T> {
    /// One name per value, and no name twice.
    #[verifier::type_invariant]
    spec fn inv(self) -> bool {
        &&& self.values@.len() == self.names@.len()
        &&& forall|i: int, j: int|
            0 <= i < j < self.names@.len() ==> (#[trigger] self.names@[i])@ != (#[trigger] self.names@[j])@
    }

    /// The values, by index.
    pub closed spec fn values(self) -> Seq<T> {
        self.values@
    }

    /// The names, by index.
    pub closed spec fn names(self) -> Seq<Seq<char>> {
        self.names@.map_values(|s: String| s@)
    }

    /// No slots.
    pub fn new() -> (r: Self)
        ensures
            r.values() == Seq::<T>::empty(),
            r.names() == Seq::<Seq<char>>::empty(),
    {
        let r = Slots { values: Vec::new(), names: Vec::new() };
        assert(r.names() =~= Seq::<Seq<char>>::empty());
        r
    }

    /// How many slots there are.
    pub fn len(&self) -> (r: usize)
        ensures
            r == self.values().len(),
            r == self.names().len(),
    {
        proof {
            use_type_invariant(self);
        }
        self.values.len()
    }

    /// Add a new slot; its index is returned. The name must not be taken.
    pub fn add(&mut self, name: String, value: T) -> (r: usize)
        requires
            !old(self).names().contains(name@),
        ensures
            r == old(self).values().len(),
            final(self).values() == old(self).values().push(value),
            final(self).names() == old(self).names().push(name@),
    {
        proof {
            use_type_invariant(&*self);
        }
        let mut tmp = Slots { values: Vec::new(), names: Vec::new() };
        std::mem::swap(self, &mut tmp);
        proof {
            use_type_invariant(&tmp);
        }
        let Slots { mut values, mut names } = tmp;
        let ix = values.len();
        let ghost old_names = names@;
        values.push(value);
        names.push(name);
        proof {
            assert forall|i: int, j: int| 0 <= i < j < names@.len() implies (
            #[trigger] names@[i])@ != (#[trigger] names@[j])@ by {
                if j == names@.len() - 1 {
                    assert(old_names.map_values(|s: String| s@)[i] == names@[i]@);
                }
            }
            assert(names@.map_values(|s: String| s@) =~= old_names.map_values(|s: String| s@).push(
                name@,
            ));
        }
        *self = Slots { values, names };
        ix
    }

    /// The value with index `ix`, if there is one.
    pub fn get_index(&self, ix: usize) -> (r: Option<&T>)
        ensures
            ix < self.values().len() ==> r == Some(&self.values()[ix as int]),
            ix >= self.values().len() ==> r is None,
    {
        if ix < self.values.len() {
            Some(&self.values[ix])
        } else {
            None
        }
    }

    /// The name of the slot with index `ix`.
    pub fn name_at(&self, ix: usize) -> (r: String)
        requires
            ix < self.names().len(),
        ensures
            r@ == self.names()[ix as int],
    {
        self.names[ix].clone()
    }

    /// The index of the slot named `name`, if there is one.
    pub fn index_for_name(&self, name: &str) -> (r: Option<usize>)
        ensures
            r matches Some(i) ==> i < self.names().len() && self.names()[i as int] == name@
                && forall|j: int| 0 <= j < self.names().len() && j != i ==> self.names()[j] != name@,
            r is None ==> !self.names().contains(name@),
    {
        proof {
            use_type_invariant(self);
        }
        let key = name.to_owned();
        let mut i: usize = 0;
        while i < self.names.len()
            invariant
                i <= self.names@.len(),
                key@ == name@,
                forall|k: int| 0 <= k < i ==> (#[trigger] self.names@[k])@ != name@,
            decreases self.names@.len() - i,
        {
            if self.names[i] == key {
                proof {
                    use_type_invariant(self);
                    assert forall|j: int| 0 <= j < self.names().len() && j != i implies self.names()[j]
                        != name@ by {
                        if j < i {
                            assert(self.names@[i as int]@ != self.names@[j]@);
                        } else {
                            assert(self.names@[i as int]@ != self.names@[j]@);
                        }
                    }
                }
                return Some(i);
            }
            i = i + 1;
        }
        proof {
            if self.names().contains(name@) {
                let k = choose|k: int| 0 <= k < self.names().len() && self.names()[k] == name@;
                assert(self.names@[k]@ == name@);
            }
        }
        None
    }

    /// The value of the slot named `name`, if there is one.
    pub fn get_name(&self, name: &str) -> (r: Option<&T>)
        ensures
            r matches Some(v) ==> exists|i: int|
                0 <= i < self.names().len() && self.names()[i] == name@ && *v == self.values()[i],
            r is None ==> !self.names().contains(name@),
    {
        proof {
            use_type_invariant(self);
        }
        match self.index_for_name(name) {
            Some(ix) => self.get_index(ix),
            None => None,
        }
    }

    /// Replace the value of the slot with index `ix`; an error when there is
    /// no such slot.
    pub fn update_index(&mut self, ix: usize, val: T) -> (r: Result<(), SlotError>)
        ensures
            ix < old(self).values().len() ==> r is Ok && final(self).values() == old(self).values().update(
                ix as int,
                val,
            ),
            ix >= old(self).values().len() ==> (r matches Err(SlotError::IndexNotFound(i)) && i == ix)
                && final(self).values() == old(self).values(),
            final(self).names() == old(self).names(),
    {
        proof {
            use_type_invariant(&*self);
        }
        if ix < self.values.len() {
            let mut tmp = Slots { values: Vec::new(), names: Vec::new() };
            std::mem::swap(self, &mut tmp);
            proof {
                use_type_invariant(&tmp);
            }
            let Slots { mut values, names } = tmp;
            values.set(ix, val);
            *self = Slots { values, names };
            Ok(())
        } else {
            Err(SlotError::IndexNotFound(ix))
        }
    }

    /// Replace the value of the slot named `name`; an error when there is no
    /// such slot.
    pub fn update_name(&mut self, name: &str, val: T) -> (r: Result<(), SlotError>)
        ensures
            old(self).names().contains(name@) ==> r is Ok && exists|i: int|
                0 <= i < old(self).names().len() && old(self).names()[i] == name@ && final(self).values()
                    == old(self).values().update(i, val),
            !old(self).names().contains(name@) ==> (r matches Err(SlotError::NameNotFound(n)) && n@
                == name@) && final(self).values() == old(self).values(),
            final(self).names() == old(self).names(),
    {
        proof {
            use_type_invariant(&*self);
        }
        match self.index_for_name(name) {
            Some(ix) => self.update_index(ix, val),
            None => Err(SlotError::NameNotFound(name.to_owned())),
        }
    }
}

impl<T> Default for Slots<T> {
    fn default() -> (r: Self)
        ensures
            r.values() == Seq::<T>::empty(),
            r.names() == Seq::<Seq<char>>::empty(),
    {
        Slots::new()
    }
}

/// After a slot is added, its name leads to its index, and no other slot
/// has that name; at that index is the value added.
pub proof fn lemma_added_slot_found<T>(old: Slots<T>, new: Slots<T>, name: Seq<char>, value: T)
    requires
        old.values().len() == old.names().len(),
        !old.names().contains(name),
        new.names() == old.names().push(name),
        new.values() == old.values().push(value),
    ensures
        new.names()[old.names().len() as int] == name,
        new.values()[old.names().len() as int] == value,
        forall|j: int| 0 <= j < new.names().len() && j != old.names().len() ==> new.names()[j] != name,
{
    assert forall|j: int| 0 <= j < new.names().len() && j != old.names().len() implies new.names()[j]
        != name by {
        assert(new.names()[j] == old.names()[j]);
    }
}

} // verus!
