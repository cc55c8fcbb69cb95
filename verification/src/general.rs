//! Scalar store: key to one entry, with overwrite or safe (no-clobber)
//! writes and numeric increment.

use vstd::prelude::*;
use vstd::hash_map::StringHashMap;
use crate::KVPair;
use crate::entry::{Entry, EntryModel, ExpiryState};
use crate::errors::StoreError;
use crate::value::{TypedValue, ValueModel, render_model};

verus! {

/// Write policy of the scalar store: `Safe` rejects overwriting an
/// existing key.
#[derive(Clone, Copy, PartialEq, Eq, Structural, Debug)]
pub enum StoreMode {
    Normal,
    Safe,
}

/// Signed 64-bit addition that wraps at the ends of the range.
pub open spec fn wrap_add_i64(a: int, b: int) -> int {
    if a + b > i64::MAX {
        a + b - 0x1_0000_0000_0000_0000
    } else if a + b < i64::MIN {
        a + b + 0x1_0000_0000_0000_0000
    } else {
        a + b
    }
}

/// The result of one write: in safe mode an existing key is left as it is,
/// otherwise the entry is stored under the key.
pub open spec fn write_model(
    m: Map<Seq<char>, EntryModel>,
    mode: StoreMode,
    key: Seq<char>,
    e: EntryModel,
) -> Map<Seq<char>, EntryModel> {
    if mode == StoreMode::Safe && m.contains_key(key) {
        m
    } else {
        m.insert(key, e)
    }
}

/// The result of a batch of writes applied in order, each one independent.
pub open spec fn write_all_model(
    m: Map<Seq<char>, EntryModel>,
    mode: StoreMode,
    pairs: Seq<(Seq<char>, EntryModel)>,
) -> Map<Seq<char>, EntryModel>
    decreases pairs.len(),
{
    if pairs.len() == 0 {
        m
    } else {
        let rest = write_all_model(m, mode, pairs.drop_last());
        write_model(rest, mode, pairs.last().0, pairs.last().1)
    }
}

/// Model of a sequence of key-entry pairs.
pub open spec fn pairs_model(kvs: Seq<(String, Entry)>) -> Seq<(Seq<char>, EntryModel)> {
    kvs.map_values(|kv: (String, Entry)| (kv.0@, kv.1@))
}

/// Key-to-entry mapping supporting overwrite or safe writes and numeric
/// increment.
pub struct GeneralStore {
    store: StringHashMap<Entry>,
    mode: StoreMode,
}

impl View for GeneralStore {
    type V = Map<Seq<char>, EntryModel>;

    closed spec fn view(&self) -> Map<Seq<char>, EntryModel> {
        self.store@.map_values(|e: Entry| e@)
    }
}

impl GeneralStore {
    /// The write policy of this store.
    pub closed spec fn spec_mode(&self) -> StoreMode {
        self.mode
    }

    /// Validity: every stored entry respects the value classification.
    pub closed spec fn wf(&self) -> bool {
        forall|k: Seq<char>|
            self.store@.contains_key(k) ==> (#[trigger] self.store@[k]).wf()
    }

    /// An empty store with the given write policy.
    pub fn with_mode(mode: StoreMode) -> (s: GeneralStore)
        ensures
            s@ == Map::<Seq<char>, EntryModel>::empty(),
            s.spec_mode() == mode,
            s.wf(),
    {
        let s = GeneralStore { store: StringHashMap::new(), mode };
        proof {
            assert(s@ =~= Map::<Seq<char>, EntryModel>::empty());
        }
        s
    }

    /// An empty store with normal (overwrite) writes.
    pub fn new() -> (s: GeneralStore)
        ensures
            s@ == Map::<Seq<char>, EntryModel>::empty(),
            s.spec_mode() == StoreMode::Normal,
            s.wf(),
    {
        Self::with_mode(StoreMode::Normal)
    }

    /// Number of keys in the store.
    pub fn len(&self) -> (r: usize)
        ensures
            r as nat == self@.len(),
    {
        proof {
            assert(self@.dom() =~= self.store@.dom());
        }
        self.store.len()
    }

    /// Store the pair's entry under its key. In safe mode a write to an
    /// existing key is rejected with `SafeModeViolation` and changes
    /// nothing; otherwise the write overwrites unconditionally.
    pub fn set(&mut self, kv: KVPair) -> (r: Result<(), StoreError>)
        requires
            old(self).wf(),
            kv.1.wf(),
        ensures
            final(self).wf(),
            final(self).spec_mode() == old(self).spec_mode(),
            final(self)@ == write_model(old(self)@, old(self).spec_mode(), kv.0@, kv.1@),
            r == if old(self).spec_mode() == StoreMode::Safe && old(self)@.contains_key(kv.0@) {
                Err::<(), StoreError>(StoreError::SafeModeViolation)
            } else {
                Ok::<(), StoreError>(())
            },
    {
        let (key, value) = kv;
        if self.mode == StoreMode::Safe && self.store.contains_key(key.as_str()) {
            proof {
                assert(old(self)@.contains_key(key@));
            }
            return Err(StoreError::SafeModeViolation);
        }
        proof {
            assert(old(self)@.contains_key(key@) ==> self.store@.contains_key(key@));
        }
        self.store.insert(key, value);
        proof {
            assert(self@ =~= old(self)@.insert(kv.0@, kv.1@));
        }
        Ok(())
    }

    /// Apply one write per pair, in order; pairs are independent, a safe
    /// mode rejection skips only its own pair.
    pub fn set_multiple(&mut self, kvs: Vec<KVPair>) -> (r: Result<(), StoreError>)
        requires
            old(self).wf(),
            forall|i: int| 0 <= i < kvs@.len() ==> (#[trigger] kvs@[i]).1.wf(),
        ensures
            final(self).wf(),
            final(self).spec_mode() == old(self).spec_mode(),
            final(self)@ == write_all_model(old(self)@, old(self).spec_mode(), pairs_model(kvs@)),
            r == Ok::<(), StoreError>(()),
    {
        let ghost pairs = pairs_model(kvs@);
        let mut i: usize = 0;
        while i < kvs.len()
            invariant
                0 <= i <= kvs@.len(),
                pairs == pairs_model(kvs@),
                pairs.len() == kvs@.len(),
                forall|j: int| 0 <= j < kvs@.len() ==> (#[trigger] kvs@[j]).1.wf(),
                self.wf(),
                self.spec_mode() == old(self).spec_mode(),
                self@ == write_all_model(old(self)@, old(self).spec_mode(), pairs.take(i as int)),
            decreases kvs@.len() - i,
        {
            let kv = (kvs[i].0.clone(), kvs[i].1.duplicate());
            let _ = self.set(kv);
            proof {
                assert(pairs.take(i + 1).drop_last() =~= pairs.take(i as int));
                assert(pairs.take(i + 1).last() == pairs[i as int]);
            }
            i = i + 1;
        }
        proof {
            assert(pairs.take(kvs@.len() as int) =~= pairs);
        }
        Ok(())
    }

    /// Canonical text of the value stored under the key.
    pub fn get(&self, key: &str) -> (r: Option<String>)
        requires
            self.wf(),
        ensures
            match r {
                Some(s) => self@.contains_key(key@) && s@ == render_model(self@[key@].value),
                None => !self@.contains_key(key@),
            },
    {
        match self.store.get(key) {
            Some(e) => Some(e.render()),
            None => None,
        }
    }

    /// One lookup per key; results keep the input order.
    pub fn get_multiple(&self, keys: &Vec<String>) -> (r: Vec<Option<String>>)
        requires
            self.wf(),
        ensures
            r@.len() == keys@.len(),
            forall|i: int|
                0 <= i < keys@.len() ==> match #[trigger] r@[i] {
                    Some(s) => self@.contains_key(keys@[i]@) && s@ == render_model(
                        self@[keys@[i]@].value,
                    ),
                    None => !self@.contains_key(keys@[i]@),
                },
    {
        let mut out: Vec<Option<String>> = Vec::new();
        let mut i: usize = 0;
        while i < keys.len()
            invariant
                0 <= i <= keys@.len(),
                self.wf(),
                out@.len() == i,
                forall|j: int|
                    0 <= j < i ==> match #[trigger] out@[j] {
                        Some(s) => self@.contains_key(keys@[j]@) && s@ == render_model(
                            self@[keys@[j]@].value,
                        ),
                        None => !self@.contains_key(keys@[j]@),
                    },
            decreases keys@.len() - i,
        {
            out.push(self.get(keys[i].as_str()));
            i = i + 1;
        }
        out
    }

    /// Add `incr` to the integer under the key, wrapping at the 64-bit
    /// range, and return the new value. An absent key is initialized to the
    /// increment itself with no expiry; a key holding a non-integer value
    /// fails with `TypeMismatch` and changes nothing. An existing entry
    /// keeps its expiry state.
    pub fn increment(&mut self, key: &str, incr: i64) -> (r: Result<i64, StoreError>)
        requires
            old(self).wf(),
        ensures
            final(self).wf(),
            final(self).spec_mode() == old(self).spec_mode(),
            if !old(self)@.contains_key(key@) {
                r == Ok::<i64, StoreError>(incr) && final(self)@ == old(self)@.insert(
                    key@,
                    EntryModel {
                        value: ValueModel::Integer(incr as int),
                        expiry: ExpiryState::NoExpiry,
                    },
                )
            } else {
                match old(self)@[key@].value {
                    ValueModel::Integer(v) => {
                        &&& r == Ok::<i64, StoreError>(wrap_add_i64(v, incr as int) as i64)
                        &&& final(self)@ == old(self)@.insert(
                            key@,
                            EntryModel {
                                value: ValueModel::Integer(wrap_add_i64(v, incr as int)),
                                expiry: old(self)@[key@].expiry,
                            },
                        )
                    },
                    _ => r == Err::<i64, StoreError>(StoreError::TypeMismatch) && final(self)@
                        == old(self)@,
                }
            },
    {
        match self.store.get(key) {
            Some(e) => {
                match &e.value {
                    TypedValue::Integer(v) => {
                        let n = v.wrapping_add(incr);
                        let updated = Entry {
                            value: TypedValue::Integer(n),
                            expiry: e.expiry,
                        };
                        self.store.insert(key.to_owned(), updated);
                        proof {
                            assert(self@ =~= old(self)@.insert(
                                key@,
                                EntryModel {
                                    value: ValueModel::Integer(wrap_add_i64(
                                        old(self)@[key@].value->Integer_0,
                                        incr as int,
                                    )),
                                    expiry: old(self)@[key@].expiry,
                                },
                            ));
                        }
                        Ok(n)
                    },
                    TypedValue::Float(_) => Err(StoreError::TypeMismatch),
                    TypedValue::Text(_) => Err(StoreError::TypeMismatch),
                }
            },
            None => {
                let fresh = Entry {
                    value: TypedValue::Integer(incr),
                    expiry: ExpiryState::NoExpiry,
                };
                self.store.insert(key.to_owned(), fresh);
                proof {
                    assert(self@ =~= old(self)@.insert(
                        key@,
                        EntryModel {
                            value: ValueModel::Integer(incr as int),
                            expiry: ExpiryState::NoExpiry,
                        },
                    ));
                }
                Ok(incr)
            },
        }
    }
}

} // verus!
