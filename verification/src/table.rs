//! A minimal association table: parallel vectors of keys and values,
//! looked up by linear scan. Keys are unique.
use vstd::prelude::*;

verus! {

/// Failure conditions of the association table.
#[derive(Debug, PartialEq, Eq, Structural)]
pub enum MapError {
    RepeatedKey,
    NoKey,
    DifferentLenght,
}

/// String keys paired with integer values, positionally.
pub struct Table {
    keys: Vec<String>,
    values: Vec<i64>,
    len: usize,
}

impl Table {
    /// Abstraction: the key strings, in insertion order.
    pub closed spec fn key_seq(&self) -> Seq<Seq<char>> {
        self.keys@.map_values(|s: String| s@)
    }

    /// Abstraction: the values, in insertion order.
    pub closed spec fn val_seq(&self) -> Seq<i64> {
        self.values@
    }

    /// Invariant: keys and values run in step, the cached length agrees,
    /// and no key occurs twice.
    pub closed spec fn wf(&self) -> bool {
        &&& self.keys@.len() == self.values@.len()
        &&& self.len == self.keys@.len()
        &&& forall|i: int, j: int|
            0 <= i < j < self.key_seq().len() ==> self.key_seq()[i] != self.key_seq()[j]
    }

    /// Some position holds this key.
    pub open spec fn spec_has_key(&self, key: Seq<char>) -> bool {
        exists|i: int| 0 <= i < self.key_seq().len() && self.key_seq()[i] == key
    }

    /// A table holding the single pair `key` to `val`.
    pub fn new(key: String, val: i64) -> (t: Table)
        ensures
            t.wf(),
            t.key_seq() =~~= seq![key@],
            t.val_seq() == seq![val],
    {
        let mut keys: Vec<String> = Vec::new();
        let mut values: Vec<i64> = Vec::new();
        keys.push(key);
        values.push(val);
        Table { keys, values, len: 1 }
    }

    /// Index of the first (and by the invariant only) position holding
    /// `key`, if any.
    fn _find_value(&self, key: &String) -> (r: Option<usize>)
        requires
            self.wf(),
        ensures
            (match r {
                Some(i) => i < self.key_seq().len() && self.key_seq()[i as int] == key@,
                None => !self.spec_has_key(key@),
            }),
    {
        let mut idx: usize = 0;
        while idx < self.keys.len()
            invariant
                self.wf(),
                idx <= self.keys@.len(),
                forall|j: int| 0 <= j < idx ==> self.key_seq()[j] != key@,
            decreases self.keys@.len() - idx,
        {
            if self.keys[idx].eq(key) {
                return Some(idx);
            }
            idx += 1;
        }
        None
    }

    /// Appends the pair unless the key is already present, in which case
    /// nothing changes and `RepeatedKey` is reported.
    pub fn insert(&mut self, key: String, val: i64) -> (r: Result<(), MapError>)
        requires
            old(self).wf(),
        ensures
            final(self).wf(),
            old(self).spec_has_key(key@) ==> r == Err::<(), MapError>(MapError::RepeatedKey)
                && final(self).key_seq() == old(self).key_seq()
                && final(self).val_seq() == old(self).val_seq(),
            !old(self).spec_has_key(key@) ==> r == Ok::<(), MapError>(())
                && final(self).key_seq() =~~= old(self).key_seq().push(key@)
                && final(self).val_seq() == old(self).val_seq().push(val),
    {
        let exists_already = self._find_value(&key);
        if exists_already.is_some() {
            return Err(MapError::RepeatedKey);
        }
        self.keys.push(key);
        self.values.push(val);
        self.len = self.keys.len();
        proof {
            assert(final(self).key_seq() =~~= old(self).key_seq().push(
                final(self).keys@.last()@,
            ));
        }
        Ok(())
    }

    /// Builds a table from parallel vectors, reporting `DifferentLenght`
    /// when their lengths differ. The vectors must hold one or two pairs;
    /// a repeated key in the second slot is dropped silently.
    pub fn from(keys: Vec<String>, values: Vec<i64>) -> (r: Result<Table, MapError>)
        requires
            keys@.len() == values@.len() ==> 1 <= keys@.len() <= 2,
        ensures
            keys@.len() != values@.len() ==> r == Err::<Table, MapError>(
                MapError::DifferentLenght,
            ),
            keys@.len() == values@.len() ==> (r matches Ok(t) && t.wf() && (if keys@.len() == 1
                || keys@[1]@ == keys@[0]@ {
                t.key_seq() =~~= seq![keys@[0]@] && t.val_seq() == seq![values@[0]]
            } else {
                t.key_seq() =~~= seq![keys@[0]@, keys@[1]@] && t.val_seq() == seq![
                    values@[0],
                    values@[1],
                ]
            })),
    {
        if keys.len() != values.len() {
            return Err(MapError::DifferentLenght);
        }
        let ghost ks0 = keys@;
        let ghost vs0 = values@;
        let mut keys = keys;
        let mut values = values;
        let k = keys.swap_remove(0);
        let v = values.swap_remove(0);
        let mut table = Table::new(k, v);
        proof {
            assert(k@ == ks0[0]@);
            assert(table.key_seq() =~~= seq![ks0[0]@]);
        }
        if keys.len() > 0 {
            proof {
                assert(ks0.len() == 2);
                assert(keys@[0] == ks0[1]);
            }
            let k2 = keys.swap_remove(0);
            let v2 = values.swap_remove(0);
            proof {
                assert(k2@ == ks0[1]@);
                assert(table.key_seq()[0] == ks0[0]@);
                assert(table.key_seq().len() == 1);
                if ks0[1]@ == ks0[0]@ {
                    assert(table.spec_has_key(k2@));
                } else {
                    assert(!table.spec_has_key(k2@));
                }
            }
            let _ = table.insert(k2, v2);
            proof {
                if ks0[1]@ != ks0[0]@ {
                    assert(table.key_seq() =~~= seq![ks0[0]@, ks0[1]@]);
                    assert(table.val_seq() =~= seq![vs0[0], vs0[1]]);
                } else {
                    assert(table.key_seq() =~~= seq![ks0[0]@]);
                }
            }
        }
        Ok(table)
    }

    /// Removes the pair with this key, reporting `NoKey` (and changing
    /// nothing) when the key is absent.
    pub fn delete(&mut self, key: String) -> (r: Result<(), MapError>)
        requires
            old(self).wf(),
        ensures
            final(self).wf(),
            !old(self).spec_has_key(key@) ==> r == Err::<(), MapError>(MapError::NoKey)
                && final(self).key_seq() == old(self).key_seq()
                && final(self).val_seq() == old(self).val_seq(),
            old(self).spec_has_key(key@) ==> r == Ok::<(), MapError>(()) && (exists|i: int|
                0 <= i < old(self).key_seq().len() && old(self).key_seq()[i] == key@
                    && final(self).key_seq() =~~= old(self).key_seq().remove(i)
                    && final(self).val_seq() == old(self).val_seq().remove(i)),
    {
        let element = self._find_value(&key);
        match element {
            None => Err(MapError::NoKey),
            Some(x) => {
                self.values.remove(x);
                self.keys.remove(x);
                self.len -= 1;
                proof {
                    assert(final(self).key_seq() =~~= old(self).key_seq().remove(x as int));
                }
                Ok(())
            },
        }
    }

    /// The stored keys, in order.
    pub fn keys(&self) -> (r: &Vec<String>)
        ensures
            r@.map_values(|s: String| s@) == self.key_seq(),
    {
        &self.keys
    }

    /// The stored values, in order.
    pub fn values(&self) -> (r: &Vec<i64>)
        ensures
            r@ == self.val_seq(),
    {
        &self.values
    }

    /// The value paired with this key, if any.
    pub fn get_value(&self, key: String) -> (r: Option<&i64>)
        requires
            self.wf(),
        ensures
            (match r {
                Some(v) => exists|i: int|
                    0 <= i < self.key_seq().len() && self.key_seq()[i] == key@ && *v
                        == self.val_seq()[i],
                None => !self.spec_has_key(key@),
            }),
    {
        let index = self._find_value(&key);
        match index {
            None => None,
            Some(i) => Some(&self.values[i]),
        }
    }

    /// How many pairs the table holds.
    pub fn len(&self) -> (r: usize)
        requires
            self.wf(),
        ensures
            r == self.key_seq().len(),
    {
        self.len
    }
}

} // verus!
