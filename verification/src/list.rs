//! Positional list store: key to an ordered sequence of entries, with
//! end-pushes and pops, offset-normalized indexing, ranges, positional
//! splice, trimming and directional bulk removal.

use vstd::prelude::*;
use vstd::hash_map::StringHashMap;
use crate::KVPair;
use crate::entry::{
    Entry, EntryModel, entries_model, entries_wf, duplicate_entries, duplicate_range,
    reverse_entries,
};
use crate::errors::StoreError;
use crate::value::{TypedValue, ValueModel, convert_model};

verus! {

/// Offset normalization: a negative index counts from the end of a
/// sequence of the given length; bounds are not clamped here.
pub open spec fn norm(len: int, idx: int) -> int {
    if idx >= 0 {
        idx
    } else {
        len + idx
    }
}

/// The sequence stored under the key; an absent key reads as empty.
pub open spec fn list_model(m: Map<Seq<char>, Seq<EntryModel>>, key: Seq<char>) -> Seq<
    EntryModel,
> {
    if m.contains_key(key) {
        m[key]
    } else {
        Seq::empty()
    }
}

/// The length stored under the key; an absent key reads as zero.
pub open spec fn len_model(m: Map<Seq<char>, Seq<EntryModel>>, key: Seq<char>) -> nat {
    list_model(m, key).len()
}

/// Normalized position of `idx` in a sequence of `list_size` elements:
/// the position itself when it is not negative, `None` otherwise. The
/// position may lie at or beyond the end; callers check their own bounds.
pub fn idx_from_offset(list_size: usize, idx: isize) -> (r: Option<usize>)
    ensures
        match r {
            Some(p) => p as int == norm(list_size as int, idx as int) && norm(
                list_size as int,
                idx as int,
            ) >= 0,
            None => norm(list_size as int, idx as int) < 0,
        },
{
    if idx >= 0 {
        Some(idx as usize)
    } else {
        // Magnitude of the negative offset, written so that even the
        // smallest `isize` does not overflow.
        let mag = ((-(idx + 1)) as usize) + 1;
        if mag > list_size {
            None
        } else {
            Some(list_size - mag)
        }
    }
}

/// Key to an ordered sequence of entries. A key is present in the mapping
/// exactly while its sequence is non-empty.
pub struct ListStore {
    store: StringHashMap<Vec<Entry>>,
}

impl View for ListStore {
    type V = Map<Seq<char>, Seq<EntryModel>>;

    closed spec fn view(&self) -> Map<Seq<char>, Seq<EntryModel>> {
        self.store@.map_values(|v: Vec<Entry>| entries_model(v@))
    }
}

impl ListStore {
    /// Validity: present sequences are non-empty and every entry respects
    /// the value classification.
    pub closed spec fn wf(&self) -> bool {
        forall|k: Seq<char>|
            self.store@.contains_key(k) ==> (#[trigger] self.store@[k])@.len() > 0 && entries_wf(
                self.store@[k]@,
            )
    }

    /// An empty list store.
    pub fn new() -> (s: ListStore)
        ensures
            s@ == Map::<Seq<char>, Seq<EntryModel>>::empty(),
            s.wf(),
    {
        let s = ListStore { store: StringHashMap::new() };
        proof {
            assert(s@ =~= Map::<Seq<char>, Seq<EntryModel>>::empty());
        }
        s
    }

    /// Number of entries under the key; zero when the key is absent.
    pub fn len(&self, key: &str) -> (r: usize)
        ensures
            r as nat == len_model(self@, key@),
    {
        match self.store.get(key) {
            Some(list) => list.len(),
            None => 0,
        }
    }

    /// Insert the pair's entry at the front of its key's sequence,
    /// creating the sequence on first use.
    pub fn left_push(&mut self, kv: KVPair)
        requires
            old(self).wf(),
            kv.1.wf(),
        ensures
            final(self).wf(),
            final(self)@ == old(self)@.insert(
                kv.0@,
                seq![kv.1@] + list_model(old(self)@, kv.0@),
            ),
            len_model(final(self)@, kv.0@) == len_model(old(self)@, kv.0@) + 1,
    {
        let (key, value) = kv;
        let ghost target = seq![value@] + list_model(old(self)@, key@);
        match self.store.get(key.as_str()) {
            Some(list) => {
                let mut nl = duplicate_entries(list);
                nl.insert(0, value);
                proof {
                    assert(entries_model(nl@) =~= target);
                }
                self.store.insert(key, nl);
            },
            None => {
                let mut nl: Vec<Entry> = Vec::new();
                nl.push(value);
                proof {
                    assert(entries_model(nl@) =~= target);
                }
                self.store.insert(key, nl);
            },
        }
        proof {
            assert(self@ =~= old(self)@.insert(kv.0@, target));
        }
    }

    /// Insert the pair's entry at the back of its key's sequence,
    /// creating the sequence on first use.
    pub fn right_push(&mut self, kv: KVPair)
        requires
            old(self).wf(),
            kv.1.wf(),
        ensures
            final(self).wf(),
            final(self)@ == old(self)@.insert(
                kv.0@,
                list_model(old(self)@, kv.0@) + seq![kv.1@],
            ),
            len_model(final(self)@, kv.0@) == len_model(old(self)@, kv.0@) + 1,
    {
        let (key, value) = kv;
        let ghost target = list_model(old(self)@, key@) + seq![value@];
        match self.store.get(key.as_str()) {
            Some(list) => {
                let mut nl = duplicate_entries(list);
                nl.push(value);
                proof {
                    assert(entries_model(nl@) =~= target);
                }
                self.store.insert(key, nl);
            },
            None => {
                let mut nl: Vec<Entry> = Vec::new();
                nl.push(value);
                proof {
                    assert(entries_model(nl@) =~= target);
                }
                self.store.insert(key, nl);
            },
        }
        proof {
            assert(self@ =~= old(self)@.insert(kv.0@, target));
        }
    }

    /// Remove and return the first entry of the key's sequence; the key is
    /// deleted when the sequence empties. An absent key yields `None`.
    pub fn left_pop(&mut self, key: &str) -> (r: Option<Entry>)
        requires
            old(self).wf(),
        ensures
            final(self).wf(),
            match r {
                None => !old(self)@.contains_key(key@) && final(self)@ == old(self)@,
                Some(e) => {
                    &&& old(self)@.contains_key(key@)
                    &&& old(self)@[key@].len() > 0
                    &&& e@ == old(self)@[key@][0]
                    &&& e.wf()
                    &&& len_model(final(self)@, key@) == len_model(old(self)@, key@) - 1
                    &&& final(self)@ == if old(self)@[key@].len() == 1 {
                        old(self)@.remove(key@)
                    } else {
                        old(self)@.insert(
                            key@,
                            old(self)@[key@].subrange(1, old(self)@[key@].len() as int),
                        )
                    }
                },
            },
    {
        match self.store.get(key) {
            None => None,
            Some(list) => {
                let e = list[0].duplicate();
                if list.len() == 1 {
                    self.store.remove(key);
                    proof {
                        assert(self@ =~= old(self)@.remove(key@));
                    }
                } else {
                    let nl = duplicate_range(list, 1, list.len());
                    proof {
                        assert(entries_model(nl@) =~= old(self)@[key@].subrange(
                            1,
                            old(self)@[key@].len() as int,
                        ));
                    }
                    self.store.insert(key.to_owned(), nl);
                    proof {
                        assert(self@ =~= old(self)@.insert(
                            key@,
                            old(self)@[key@].subrange(1, old(self)@[key@].len() as int),
                        ));
                    }
                }
                Some(e)
            },
        }
    }

    /// Remove and return the last entry of the key's sequence; the key is
    /// deleted when the sequence empties. An absent key yields `None`.
    pub fn right_pop(&mut self, key: &str) -> (r: Option<Entry>)
        requires
            old(self).wf(),
        ensures
            final(self).wf(),
            match r {
                None => !old(self)@.contains_key(key@) && final(self)@ == old(self)@,
                Some(e) => {
                    &&& old(self)@.contains_key(key@)
                    &&& old(self)@[key@].len() > 0
                    &&& e@ == old(self)@[key@].last()
                    &&& e.wf()
                    &&& len_model(final(self)@, key@) == len_model(old(self)@, key@) - 1
                    &&& final(self)@ == if old(self)@[key@].len() == 1 {
                        old(self)@.remove(key@)
                    } else {
                        old(self)@.insert(
                            key@,
                            old(self)@[key@].subrange(0, old(self)@[key@].len() - 1),
                        )
                    }
                },
            },
    {
        match self.store.get(key) {
            None => None,
            Some(list) => {
                let e = list[list.len() - 1].duplicate();
                if list.len() == 1 {
                    self.store.remove(key);
                    proof {
                        assert(self@ =~= old(self)@.remove(key@));
                    }
                } else {
                    let nl = duplicate_range(list, 0, list.len() - 1);
                    proof {
                        assert(entries_model(nl@) =~= old(self)@[key@].subrange(
                            0,
                            old(self)@[key@].len() - 1,
                        ));
                    }
                    self.store.insert(key.to_owned(), nl);
                    proof {
                        assert(self@ =~= old(self)@.insert(
                            key@,
                            old(self)@[key@].subrange(0, old(self)@[key@].len() - 1),
                        ));
                    }
                }
                Some(e)
            },
        }
    }
}

/// The element a positional read returns: the entry at the normalized
/// index, or nothing when that index falls outside the sequence.
pub open spec fn index_model(
    m: Map<Seq<char>, Seq<EntryModel>>,
    key: Seq<char>,
    idx: int,
) -> Option<EntryModel> {
    let l = list_model(m, key);
    let t = norm(l.len() as int, idx);
    if 0 <= t < l.len() {
        Some(l[t])
    } else {
        None
    }
}

/// The slice a range query returns: both bounds normalized, an empty
/// result when the start falls at or after the end of the sequence or
/// after the end bound, the end clamped to the last element, a negative
/// start clamped to the first.
pub open spec fn range_model(
    m: Map<Seq<char>, Seq<EntryModel>>,
    key: Seq<char>,
    start: int,
    end: int,
) -> Seq<EntryModel> {
    let l = list_model(m, key);
    let n = l.len() as int;
    let s = norm(n, start);
    let e = norm(n, end);
    if s >= n || s > e || e < 0 {
        Seq::empty()
    } else {
        let lo = if s < 0 {
            0
        } else {
            s
        };
        let hi = if e < n - 1 {
            e
        } else {
            n - 1
        };
        l.subrange(lo, hi + 1)
    }
}

impl ListStore {
    /// A copy of the entry at the normalized index; `None` when the key is
    /// absent or the index falls outside the sequence.
    pub fn index(&self, key: &str, idx: isize) -> (r: Option<Entry>)
        requires
            self.wf(),
        ensures
            match r {
                Some(e) => index_model(self@, key@, idx as int) == Some(e@) && e.wf(),
                None => index_model(self@, key@, idx as int) is None,
            },
    {
        match self.store.get(key) {
            None => None,
            Some(list) => {
                match idx_from_offset(list.len(), idx) {
                    None => None,
                    Some(p) => {
                        if p < list.len() {
                            Some(list[p].duplicate())
                        } else {
                            None
                        }
                    },
                }
            },
        }
    }

    /// Copies of the entries in the inclusive normalized range, in their
    /// original order; an absent key yields an empty result.
    pub fn range(&self, key: &str, start: isize, end: isize) -> (r: Vec<Entry>)
        requires
            self.wf(),
        ensures
            entries_model(r@) == range_model(self@, key@, start as int, end as int),
            entries_wf(r@),
    {
        let ghost result = range_model(self@, key@, start as int, end as int);
        match self.store.get(key) {
            None => {
                let r: Vec<Entry> = Vec::new();
                proof {
                    assert(entries_model(r@) =~= result);
                }
                r
            },
            Some(list) => {
                let n = list.len();
                let e_opt = idx_from_offset(n, end);
                match e_opt {
                    None => {
                        // The normalized end is negative: nothing to return.
                        let r: Vec<Entry> = Vec::new();
                        proof {
                            assert(entries_model(r@) =~= result);
                        }
                        r
                    },
                    Some(pe) => {
                        let lo: usize = match idx_from_offset(n, start) {
                            None => 0,
                            Some(ps) => {
                                if ps >= n || ps > pe {
                                    let r: Vec<Entry> = Vec::new();
                                    proof {
                                        assert(entries_model(r@) =~= result);
                                    }
                                    return r;
                                }
                                ps
                            },
                        };
                        let hi: usize = if pe < n - 1 {
                            pe
                        } else {
                            n - 1
                        };
                        let r = duplicate_range(list, lo, hi + 1);
                        proof {
                            assert(entries_model(r@) =~= result);
                        }
                        r
                    },
                }
            },
        }
    }
}

/// A valid index and its negative counterpart address the same element.
pub proof fn lemma_index_negative_counterpart(
    m: Map<Seq<char>, Seq<EntryModel>>,
    key: Seq<char>,
    i: int,
)
    requires
        0 <= i < len_model(m, key),
    ensures
        index_model(m, key, i) == index_model(m, key, i - len_model(m, key)),
{
}

/// The range over the whole sequence — start zero, end minus one —
/// returns the full sequence in its original order.
pub proof fn lemma_range_full(m: Map<Seq<char>, Seq<EntryModel>>, key: Seq<char>)
    ensures
        range_model(m, key, 0, -1) == list_model(m, key),
{
    let l = list_model(m, key);
    if l.len() > 0 {
        assert(range_model(m, key, 0, -1) =~= l);
    } else {
        assert(range_model(m, key, 0, -1) =~= l);
    }
}

/// The sequence after a positional write at normalized index `t`. The
/// chosen semantics are splice-based insertion, kept from the splice
/// behavior this engine specifies: the new entry is inserted before the
/// element at `t`, except that an index naming the last element appends
/// after it instead of replacing or displacing it.
pub open spec fn set_model(l: Seq<EntryModel>, t: int, e: EntryModel) -> Seq<EntryModel> {
    if t == 0 {
        seq![e] + l
    } else if t == l.len() - 1 {
        l + seq![e]
    } else {
        l.insert(t, e)
    }
}

/// The mapping after a trim: an absent key stays absent; a normalized
/// window that is negative, starts past the end or is inverted deletes
/// the key; otherwise only the inclusive window remains, with its end
/// clamped to the last element.
pub open spec fn trim_model(
    m: Map<Seq<char>, Seq<EntryModel>>,
    key: Seq<char>,
    start: int,
    end: int,
) -> Map<Seq<char>, Seq<EntryModel>> {
    if !m.contains_key(key) {
        m
    } else {
        let l = m[key];
        let n = l.len() as int;
        let s = norm(n, start);
        let e = norm(n, end);
        if s < 0 || s >= n || s > e {
            m.remove(key)
        } else {
            let hi = if e < n - 1 {
                e
            } else {
                n - 1
            };
            m.insert(key, l.subrange(s, hi + 1))
        }
    }
}

impl ListStore {
    /// Positional write by splice: insert the pair's entry at the
    /// normalized index, which must lie in `[0, length]`; an index naming
    /// the last element appends after it (see `set_model`). A write to an
    /// absent key succeeds and changes nothing.
    pub fn set(&mut self, kv: KVPair, idx: isize) -> (r: Result<(), StoreError>)
        requires
            old(self).wf(),
            kv.1.wf(),
        ensures
            final(self).wf(),
            if !old(self)@.contains_key(kv.0@) {
                r == Ok::<(), StoreError>(()) && final(self)@ == old(self)@
            } else {
                {
                    let l = old(self)@[kv.0@];
                    let t = norm(l.len() as int, idx as int);
                    if t < 0 || t > l.len() {
                        r == Err::<(), StoreError>(StoreError::IndexOutOfRange) && final(self)@
                            == old(self)@
                    } else {
                        r == Ok::<(), StoreError>(()) && final(self)@ == old(self)@.insert(
                            kv.0@,
                            set_model(l, t, kv.1@),
                        )
                    }
                }
            },
    {
        let (key, value) = kv;
        match self.store.get(key.as_str()) {
            None => Ok(()),
            Some(list) => {
                let n = list.len();
                let t = match idx_from_offset(n, idx) {
                    None => {
                        return Err(StoreError::IndexOutOfRange);
                    },
                    Some(p) => p,
                };
                if t > n {
                    return Err(StoreError::IndexOutOfRange);
                }
                let ghost l = old(self)@[key@];
                let mut nl = duplicate_entries(list);
                if t == 0 {
                    nl.insert(0, value);
                    proof {
                        assert(entries_model(nl@) =~= set_model(l, t as int, value@));
                    }
                } else if t == n - 1 {
                    nl.push(value);
                    proof {
                        assert(entries_model(nl@) =~= set_model(l, t as int, value@));
                    }
                } else {
                    nl.insert(t, value);
                    proof {
                        assert(entries_model(nl@) =~= set_model(l, t as int, value@));
                    }
                }
                let ghost target = entries_model(nl@);
                self.store.insert(key, nl);
                proof {
                    assert(self@ =~= old(self)@.insert(kv.0@, target));
                }
                Ok(())
            },
        }
    }

    /// Keep only the inclusive normalized window of the key's sequence;
    /// a window that is negative, starts past the end or is inverted
    /// deletes the key. An absent key stays as it is.
    pub fn trim(&mut self, key: &str, start: isize, end: isize)
        requires
            old(self).wf(),
        ensures
            final(self).wf(),
            final(self)@ == trim_model(old(self)@, key@, start as int, end as int),
    {
        let ghost target = trim_model(old(self)@, key@, start as int, end as int);
        match self.store.get(key) {
            None => {
            },
            Some(list) => {
                let n = list.len();
                let s = match idx_from_offset(n, start) {
                    None => {
                        self.store.remove(key);
                        proof {
                            assert(self@ =~= target);
                        }
                        return ;
                    },
                    Some(p) => p,
                };
                let e = match idx_from_offset(n, end) {
                    None => {
                        // The normalized end is negative, so it lies before
                        // the start: the window is empty.
                        self.store.remove(key);
                        proof {
                            assert(self@ =~= target);
                        }
                        return ;
                    },
                    Some(p) => p,
                };
                if s >= n || s > e {
                    self.store.remove(key);
                    proof {
                        assert(self@ =~= target);
                    }
                    return ;
                }
                let hi: usize = if e < n - 1 {
                    e
                } else {
                    n - 1
                };
                let nl = duplicate_range(list, s, hi + 1);
                proof {
                    assert(entries_model(nl@) =~= old(self)@[key@].subrange(
                        s as int,
                        hi as int + 1,
                    ));
                }
                let ghost kept = entries_model(nl@);
                self.store.insert(key.to_owned(), nl);
                proof {
                    assert(self@ =~= old(self)@.insert(key@, kept));
                    assert(self@ =~= target);
                }
            },
        }
    }
}

/// Trimming a second time with the same bounds changes nothing more, for
/// windows anchored at an end of the sequence: bounds starting at the
/// head (`a == 0` with `b >= 0`) or running to the tail (`a <= 0` with
/// `b == -1`).
pub proof fn lemma_trim_idempotent(
    m: Map<Seq<char>, Seq<EntryModel>>,
    key: Seq<char>,
    a: int,
    b: int,
)
    requires
        (a == 0 && b >= 0) || (a <= 0 && b == -1),
    ensures
        trim_model(trim_model(m, key, a, b), key, a, b) == trim_model(m, key, a, b),
{
    if m.contains_key(key) {
        let l = m[key];
        let n = l.len() as int;
        let s = norm(n, a);
        let e = norm(n, b);
        if s < 0 || s >= n || s > e {
            let m2 = m.remove(key);
            assert(!m2.contains_key(key));
        } else {
            let hi = if e < n - 1 {
                e
            } else {
                n - 1
            };
            let l2 = l.subrange(s, hi + 1);
            let m2 = m.insert(key, l2);
            let n2 = l2.len() as int;
            let s2 = norm(n2, a);
            let e2 = norm(n2, b);
            assert(n2 >= 1);
            if a == 0 && b >= 0 {
                assert(s2 == 0);
                assert(e2 == b);
                assert(n2 == hi + 1);
                assert(n2 - 1 <= b);
                let hi2 = if e2 < n2 - 1 {
                    e2
                } else {
                    n2 - 1
                };
                assert(hi2 == n2 - 1);
                assert(l2.subrange(0, n2) =~= l2);
                assert(m2.insert(key, l2) =~= m2);
            } else {
                assert(b == -1);
                assert(e == n - 1);
                assert(hi == n - 1);
                assert(n2 == n - s);
                assert(s2 == 0) by {
                    if a < 0 {
                        assert(s == n + a);
                        assert(n2 == -a);
                    }
                }
                assert(e2 == n2 - 1);
                assert(l2.subrange(0, n2) =~= l2);
                assert(m2.insert(key, l2) =~= m2);
            }
        }
    }
}

/// Number of entries whose value equals `t`.
pub open spec fn count_matches(l: Seq<EntryModel>, t: ValueModel) -> nat
    decreases l.len(),
{
    if l.len() == 0 {
        0
    } else {
        (if l[0].value == t {
            1nat
        } else {
            0nat
        }) + count_matches(l.drop_first(), t)
    }
}

/// The sequence with its first at most `k` matches of `t` spliced out,
/// scanning from the front.
pub open spec fn remove_first_matches(l: Seq<EntryModel>, t: ValueModel, k: nat) -> Seq<
    EntryModel,
>
    decreases l.len(),
{
    if l.len() == 0 {
        l
    } else if k > 0 && l[0].value == t {
        remove_first_matches(l.drop_first(), t, (k - 1) as nat)
    } else {
        seq![l[0]] + remove_first_matches(l.drop_first(), t, k)
    }
}

/// The sequence with its last at most `k` matches of `t` spliced out,
/// scanning from the back.
pub open spec fn remove_last_matches(l: Seq<EntryModel>, t: ValueModel, k: nat) -> Seq<
    EntryModel,
> {
    remove_first_matches(l.reverse(), t, k).reverse()
}

/// The subsequence of entries whose value differs from `t`, order kept.
pub open spec fn keep_unmatched(l: Seq<EntryModel>, t: ValueModel) -> Seq<EntryModel>
    decreases l.len(),
{
    if l.len() == 0 {
        l
    } else if l[0].value == t {
        keep_unmatched(l.drop_first(), t)
    } else {
        seq![l[0]] + keep_unmatched(l.drop_first(), t)
    }
}

/// The sequence left by a bulk removal: with count zero all matches go,
/// with a positive count at most that many from the left, with a
/// negative count at most its magnitude from the right.
pub open spec fn removal_model(l: Seq<EntryModel>, t: ValueModel, count: int) -> Seq<
    EntryModel,
> {
    if count == 0 {
        remove_first_matches(l, t, l.len())
    } else if count > 0 {
        remove_first_matches(l, t, count as nat)
    } else {
        remove_last_matches(l, t, (-count) as nat)
    }
}

/// A capped removal never lengthens the sequence.
proof fn lemma_remove_first_matches_le(l: Seq<EntryModel>, t: ValueModel, k: nat)
    ensures
        remove_first_matches(l, t, k).len() <= l.len(),
    decreases l.len(),
{
    if l.len() > 0 {
        if k > 0 && l[0].value == t {
            lemma_remove_first_matches_le(l.drop_first(), t, (k - 1) as nat);
        } else {
            lemma_remove_first_matches_le(l.drop_first(), t, k);
        }
    }
}

/// A cap at least as large as the number of matches removes exactly the
/// matching entries.
proof fn lemma_remove_first_matches_uncapped(l: Seq<EntryModel>, t: ValueModel, k: nat)
    requires
        k >= count_matches(l, t),
    ensures
        remove_first_matches(l, t, k) == keep_unmatched(l, t),
    decreases l.len(),
{
    if l.len() > 0 {
        if l[0].value == t {
            lemma_remove_first_matches_uncapped(l.drop_first(), t, (k - 1) as nat);
        } else {
            lemma_remove_first_matches_uncapped(l.drop_first(), t, k);
        }
    }
}

/// What `keep_unmatched` keeps: no occurrence of `t` survives, and the
/// length drops by exactly the number of occurrences.
proof fn lemma_keep_unmatched_props(l: Seq<EntryModel>, t: ValueModel)
    ensures
        count_matches(l, t) <= l.len(),
        keep_unmatched(l, t).len() == l.len() - count_matches(l, t),
        forall|i: int|
            0 <= i < keep_unmatched(l, t).len() ==> (#[trigger] keep_unmatched(l, t)[i]).value
                != t,
    decreases l.len(),
{
    if l.len() > 0 {
        lemma_keep_unmatched_props(l.drop_first(), t);
        if l[0].value != t {
            let rest = keep_unmatched(l.drop_first(), t);
            let whole = keep_unmatched(l, t);
            assert(whole =~= seq![l[0]] + rest);
            assert(forall|i: int|
                0 <= i < whole.len() ==> (#[trigger] whole[i]).value != t) by {
                assert(whole[0] == l[0]);
                assert(forall|i: int|
                    1 <= i < whole.len() ==> whole[i] == #[trigger] rest[i - 1]);
            }
        }
    }
}

/// Removal with count zero removes every occurrence of the value: what
/// stays is exactly the unmatched subsequence, so the length drops by
/// exactly the prior number of occurrences and no occurrence survives.
pub proof fn lemma_remove_all_occurrences(l: Seq<EntryModel>, t: ValueModel)
    ensures
        count_matches(l, t) <= l.len(),
        removal_model(l, t, 0) == keep_unmatched(l, t),
        removal_model(l, t, 0).len() == l.len() - count_matches(l, t),
        forall|i: int|
            0 <= i < removal_model(l, t, 0).len() ==> (#[trigger] removal_model(l, t, 0)[i]).value
                != t,
{
    lemma_keep_unmatched_props(l, t);
    lemma_remove_first_matches_uncapped(l, t, l.len());
}

impl ListStore {
    /// Splice out entries whose value equals the converted `value` text:
    /// count zero removes all matches scanning left to right, a positive
    /// count removes at most that many scanning left to right, a negative
    /// count at most its magnitude scanning right to left. The key is
    /// deleted when the sequence empties; returned is the number removed.
    pub fn remove(&mut self, key: &str, value: &str, count: isize) -> (r: usize)
        requires
            old(self).wf(),
        ensures
            final(self).wf(),
            if !old(self)@.contains_key(key@) {
                final(self)@ == old(self)@ && r == 0
            } else {
                {
                    let l = old(self)@[key@];
                    let nl = removal_model(l, convert_model(value@), count as int);
                    &&& r == l.len() - nl.len()
                    &&& final(self)@ == if nl.len() == 0 {
                        old(self)@.remove(key@)
                    } else {
                        old(self)@.insert(key@, nl)
                    }
                }
            },
    {
        let target = TypedValue::convert(value);
        match self.store.get(key) {
            None => 0,
            Some(list) => {
                let n = list.len();
                let ghost lm = old(self)@[key@];
                let ghost t = convert_model(value@);
                let nl: Vec<Entry>;
                if count >= 0 {
                    let k: usize = if count == 0 {
                        n
                    } else {
                        count as usize
                    };
                    nl = remove_first_k(list, &target, k);
                    proof {
                        assert(entries_model(nl@) == removal_model(lm, t, count as int));
                        lemma_remove_first_matches_le(lm, t, k as nat);
                    }
                } else {
                    let k: usize = ((-(count + 1)) as usize) + 1;
                    let rev = reverse_entries(list);
                    proof {
                        crate::entry::lemma_entries_model_reverse(list@);
                        assert(entries_model(rev@) == lm.reverse());
                    }
                    let kept_rev = remove_first_k(&rev, &target, k);
                    nl = reverse_entries(&kept_rev);
                    proof {
                        crate::entry::lemma_entries_model_reverse(kept_rev@);
                        assert(entries_model(nl@) == remove_first_matches(
                            lm.reverse(),
                            t,
                            k as nat,
                        ).reverse());
                        assert(entries_model(nl@) == removal_model(lm, t, count as int));
                        lemma_remove_first_matches_le(lm.reverse(), t, k as nat);
                    }
                }
                proof {
                    assert(entries_model(nl@).len() <= lm.len());
                    assert(nl@.len() <= n);
                }
                let removed = n - nl.len();
                if nl.len() == 0 {
                    self.store.remove(key);
                    proof {
                        assert(self@ =~= old(self)@.remove(key@));
                    }
                } else {
                    let ghost kept = entries_model(nl@);
                    self.store.insert(key.to_owned(), nl);
                    proof {
                        assert(self@ =~= old(self)@.insert(key@, kept));
                    }
                }
                removed
            },
        }
    }
}

/// Copies of the entries with the first at most `k` matches of `target`
/// left out, scanning from the front.
fn remove_first_k(list: &Vec<Entry>, target: &TypedValue, k: usize) -> (r: Vec<Entry>)
    requires
        entries_wf(list@),
    ensures
        entries_model(r@) == remove_first_matches(entries_model(list@), target@, k as nat),
        entries_wf(r@),
        r@.len() <= list@.len(),
{
    let ghost lm = entries_model(list@);
    let ghost t = target@;
    let mut out: Vec<Entry> = Vec::new();
    let mut rem: usize = k;
    let mut i: usize = 0;
    proof {
        assert(lm.subrange(0, lm.len() as int) =~= lm);
        assert(entries_model(out@) + remove_first_matches(lm, t, k as nat)
            =~= remove_first_matches(lm, t, k as nat));
    }
    while i < list.len()
        invariant
            0 <= i <= list@.len(),
            entries_wf(list@),
            entries_wf(out@),
            out@.len() <= i,
            lm == entries_model(list@),
            t == target@,
            remove_first_matches(lm, t, k as nat) == entries_model(out@)
                + remove_first_matches(
                lm.subrange(i as int, lm.len() as int),
                t,
                rem as nat,
            ),
        decreases list@.len() - i,
    {
        let ghost tail = lm.subrange(i as int, lm.len() as int);
        proof {
            assert(tail[0] == lm[i as int]);
            assert(tail.drop_first() =~= lm.subrange(i as int + 1, lm.len() as int));
        }
        if rem > 0 && list[i].value.eq_value(target) {
            rem = rem - 1;
        } else {
            out.push(list[i].duplicate());
            proof {
                assert(entries_model(out@) =~= entries_model(out@.drop_last()) + seq![
                    lm[i as int],
                ]);
                assert(entries_model(out@) + remove_first_matches(
                    lm.subrange(i as int + 1, lm.len() as int),
                    t,
                    rem as nat,
                ) =~= (entries_model(out@.drop_last()) + seq![lm[i as int]])
                    + remove_first_matches(
                    lm.subrange(i as int + 1, lm.len() as int),
                    t,
                    rem as nat,
                ));
                assert(seq![lm[i as int]] + remove_first_matches(
                    lm.subrange(i as int + 1, lm.len() as int),
                    t,
                    rem as nat,
                ) =~= (seq![lm[i as int]] + remove_first_matches(
                    lm.subrange(i as int + 1, lm.len() as int),
                    t,
                    rem as nat,
                )));
            }
        }
        i = i + 1;
    }
    proof {
        assert(lm.subrange(lm.len() as int, lm.len() as int) =~= Seq::<EntryModel>::empty());
        assert(remove_first_matches(lm, t, k as nat) =~= entries_model(out@));
    }
    out
}

/// With the store invariant, a key reads length zero exactly when it is
/// absent from the mapping.
pub proof fn lemma_length_zero_iff_absent(s: &ListStore, key: Seq<char>)
    requires
        s.wf(),
    ensures
        len_model(s@, key) == 0 <==> !s@.contains_key(key),
{
}

} // verus!
