//! Set store: key to a deduplicated collection of entries, with
//! cardinality, difference and difference-materialization.
//!
//! Membership equality is by value alone: two entries with the same typed
//! value are the same member even when their expiry states differ.

use vstd::prelude::*;
use vstd::hash_map::StringHashMap;
use crate::KVPair;
use crate::entry::{Entry, EntryModel, entries_model, entries_wf, duplicate_entries};
use crate::list::{list_model, len_model};
use crate::value::{TypedValue, ValueModel};

verus! {

/// Some entry of the sequence holds the value.
pub open spec fn seq_has_value(l: Seq<EntryModel>, v: ValueModel) -> bool {
    exists|i: int| 0 <= i < l.len() && l[i].value == v
}

/// All entries of the sequence hold pairwise distinct values.
pub open spec fn distinct_values(l: Seq<EntryModel>) -> bool {
    forall|i: int, j: int| 0 <= i < j < l.len() ==> l[i].value != l[j].value
}

/// The value occurs in the collection of at least one of the keys.
pub open spec fn union_has_value(
    m: Map<Seq<char>, Seq<EntryModel>>,
    comps: Seq<Seq<char>>,
    v: ValueModel,
) -> bool {
    exists|i: int| 0 <= i < comps.len() && seq_has_value(list_model(m, comps[i]), v)
}

/// The entries of `l` whose value occurs in none of the comparator keys'
/// collections, in their original order.
pub open spec fn diff_list(
    l: Seq<EntryModel>,
    m: Map<Seq<char>, Seq<EntryModel>>,
    comps: Seq<Seq<char>>,
) -> Seq<EntryModel>
    decreases l.len(),
{
    if l.len() == 0 {
        l
    } else if union_has_value(m, comps, l[0].value) {
        diff_list(l.drop_first(), m, comps)
    } else {
        seq![l[0]] + diff_list(l.drop_first(), m, comps)
    }
}

/// The set difference: members of the target key's collection minus the
/// union of the comparator keys' collections; absent keys read as empty.
pub open spec fn diff_model(
    m: Map<Seq<char>, Seq<EntryModel>>,
    target: Seq<char>,
    comps: Seq<Seq<char>>,
) -> Seq<EntryModel> {
    diff_list(list_model(m, target), m, comps)
}

/// Models of a sequence of keys.
pub open spec fn keys_model(keys: Seq<String>) -> Seq<Seq<char>> {
    keys.map_values(|k: String| k@)
}

/// The difference keeps only entries of the original collection and keeps
/// distinct values distinct.
proof fn lemma_diff_list_props(
    l: Seq<EntryModel>,
    m: Map<Seq<char>, Seq<EntryModel>>,
    comps: Seq<Seq<char>>,
)
    ensures
        diff_list(l, m, comps).len() <= l.len(),
        forall|v: ValueModel|
            seq_has_value(diff_list(l, m, comps), v) ==> seq_has_value(l, v),
        distinct_values(l) ==> distinct_values(diff_list(l, m, comps)),
    decreases l.len(),
{
    if l.len() > 0 {
        let rest0 = l.drop_first();
        lemma_diff_list_props(rest0, m, comps);
        let rest = diff_list(rest0, m, comps);
        let whole = diff_list(l, m, comps);
        assert(forall|v: ValueModel|
            seq_has_value(rest0, v) ==> seq_has_value(l, v)) by {
            assert(forall|i: int| 0 <= i < rest0.len() ==> rest0[i] == #[trigger] l[i + 1]);
        }
        if distinct_values(l) {
            assert(distinct_values(rest0)) by {
                assert(forall|i: int|
                    0 <= i < rest0.len() ==> rest0[i] == #[trigger] l[i + 1]);
            }
        }
        if !union_has_value(m, comps, l[0].value) {
            assert(whole == seq![l[0]] + rest);
            assert(whole[0] == l[0]);
            assert(forall|i: int| 1 <= i < whole.len() ==> whole[i] == #[trigger] rest[i - 1]);
            assert(forall|v: ValueModel|
                seq_has_value(whole, v) ==> seq_has_value(l, v)) by {
                assert(forall|v: ValueModel| #[trigger]
                    seq_has_value(whole, v) ==> seq_has_value(seq![l[0]], v) || seq_has_value(
                        rest,
                        v,
                    ));
                assert(seq_has_value(l, l[0].value));
            }
            if distinct_values(l) {
                assert(forall|i: int, j: int|
                    0 <= i < j < whole.len() ==> whole[i].value != whole[j].value) by {
                    assert(forall|j: int|
                        1 <= j < whole.len() ==> whole[j] == #[trigger] rest[j - 1]);
                    assert(forall|j: int|
                        1 <= j < whole.len() ==> whole[0].value != (#[trigger] whole[j]).value)
                        by {
                        if exists|j: int|
                            1 <= j < whole.len() && whole[0].value == (#[trigger] whole[j]).value {
                            let j = choose|j: int|
                                1 <= j < whole.len() && whole[0].value == (#[trigger] whole[
                                    j
                                ]).value;
                            assert(seq_has_value(rest, whole[j].value)) by {
                                assert(rest[j - 1] == whole[j]);
                            }
                            assert(seq_has_value(rest0, l[0].value));
                            let w = choose|i: int|
                                0 <= i < rest0.len() && rest0[i].value == l[0].value;
                            assert(l[w + 1] == rest0[w]);
                        }
                    }
                }
            }
        } else {
            assert(forall|v: ValueModel|
                seq_has_value(whole, v) ==> seq_has_value(l, v));
        }
    }
}

/// Against no comparators the difference keeps every member.
pub proof fn lemma_diff_no_comparators(m: Map<Seq<char>, Seq<EntryModel>>, target: Seq<char>)
    ensures
        diff_model(m, target, Seq::<Seq<char>>::empty()) == list_model(m, target),
{
    lemma_diff_list_empty_comps(list_model(m, target), m);
}

/// Helper: with no comparators `diff_list` is the identity.
proof fn lemma_diff_list_empty_comps(l: Seq<EntryModel>, m: Map<Seq<char>, Seq<EntryModel>>)
    ensures
        diff_list(l, m, Seq::<Seq<char>>::empty()) == l,
    decreases l.len(),
{
    if l.len() > 0 {
        lemma_diff_list_empty_comps(l.drop_first(), m);
        assert(diff_list(l, m, Seq::<Seq<char>>::empty()) =~= l) by {
            assert(seq![l[0]] + l.drop_first() =~= l);
        }
    }
}

/// Key to a deduplicated collection of entries.
pub struct SetStore {
    store: StringHashMap<Vec<Entry>>,
}

impl View for SetStore {
    type V = Map<Seq<char>, Seq<EntryModel>>;

    closed spec fn view(&self) -> Map<Seq<char>, Seq<EntryModel>> {
        self.store@.map_values(|v: Vec<Entry>| entries_model(v@))
    }
}

impl SetStore {
    /// Validity: present collections are non-empty, hold pairwise
    /// distinct values, and every entry respects the value classification.
    pub closed spec fn wf(&self) -> bool {
        forall|k: Seq<char>|
            self.store@.contains_key(k) ==> (#[trigger] self.store@[k])@.len() > 0 && entries_wf(
                self.store@[k]@,
            ) && distinct_values(entries_model(self.store@[k]@))
    }

    /// An empty set store.
    pub fn new() -> (s: SetStore)
        ensures
            s@ == Map::<Seq<char>, Seq<EntryModel>>::empty(),
            s.wf(),
    {
        let s = SetStore { store: StringHashMap::new() };
        proof {
            assert(s@ =~= Map::<Seq<char>, Seq<EntryModel>>::empty());
        }
        s
    }

    /// Idempotent insertion: the entry joins the key's collection unless
    /// a member with the same value is already there, in which case
    /// nothing changes — whatever the expiry of either entry.
    pub fn add(&mut self, kv: KVPair)
        requires
            old(self).wf(),
            kv.1.wf(),
        ensures
            final(self).wf(),
            final(self)@ == if seq_has_value(list_model(old(self)@, kv.0@), kv.1@.value) {
                old(self)@
            } else {
                old(self)@.insert(kv.0@, list_model(old(self)@, kv.0@) + seq![kv.1@])
            },
    {
        let (key, value) = kv;
        match self.store.get(key.as_str()) {
            None => {
                let mut nl: Vec<Entry> = Vec::new();
                nl.push(value);
                proof {
                    assert(entries_model(nl@) =~= list_model(old(self)@, key@) + seq![kv.1@]);
                }
                let ghost target = entries_model(nl@);
                self.store.insert(key, nl);
                proof {
                    assert(self@ =~= old(self)@.insert(kv.0@, target));
                }
            },
            Some(list) => {
                if find_value(list, &value.value) {
                    return ;
                }
                let mut nl = duplicate_entries(list);
                nl.push(value);
                proof {
                    assert(entries_model(nl@) =~= list_model(old(self)@, key@) + seq![kv.1@]);
                    assert(distinct_values(entries_model(nl@))) by {
                        let w = entries_model(nl@);
                        let l0 = entries_model(list@);
                        assert(forall|i: int| 0 <= i < l0.len() ==> w[i] == #[trigger] l0[i]);
                        assert(w[l0.len() as int] == kv.1@);
                        assert(!seq_has_value(l0, kv.1@.value));
                    }
                }
                let ghost target = entries_model(nl@);
                self.store.insert(key, nl);
                proof {
                    assert(self@ =~= old(self)@.insert(kv.0@, target));
                }
            },
        }
    }

    /// Number of members under the key; zero when the key is absent.
    pub fn cardinality(&self, key: &str) -> (r: usize)
        ensures
            r as nat == len_model(self@, key@),
    {
        match self.store.get(key) {
            Some(list) => list.len(),
            None => 0,
        }
    }

    /// Whether the value occurs in the collection of any comparator key.
    fn in_union(&self, comps: &Vec<String>, v: &TypedValue) -> (r: bool)
        ensures
            r == union_has_value(self@, keys_model(comps@), v@),
    {
        let ghost cm = keys_model(comps@);
        let mut j: usize = 0;
        while j < comps.len()
            invariant
                0 <= j <= comps@.len(),
                cm == keys_model(comps@),
                forall|jj: int|
                    0 <= jj < j ==> !seq_has_value(list_model(self@, cm[jj]), v@),
            decreases comps@.len() - j,
        {
            match self.store.get(comps[j].as_str()) {
                Some(list) => {
                    if find_value(list, v) {
                        proof {
                            assert(list_model(self@, cm[j as int]) == entries_model(list@));
                            assert(seq_has_value(list_model(self@, cm[j as int]), v@));
                            assert(union_has_value(self@, cm, v@));
                        }
                        return true;
                    }
                },
                None => {
                },
            }
            j = j + 1;
        }
        false
    }

    /// Copies of the target collection's members whose value occurs in no
    /// comparator key's collection, in the target's order. Absent keys,
    /// target or comparator, read as empty collections.
    pub fn diff(&self, target: &str, comps: &Vec<String>) -> (r: Vec<Entry>)
        requires
            self.wf(),
        ensures
            entries_model(r@) == diff_model(self@, target@, keys_model(comps@)),
            entries_wf(r@),
            distinct_values(entries_model(r@)),
    {
        let ghost cm = keys_model(comps@);
        let ghost result = diff_model(self@, target@, cm);
        proof {
            lemma_diff_list_props(list_model(self@, target@), self@, cm);
        }
        match self.store.get(target) {
            None => {
                let r: Vec<Entry> = Vec::new();
                proof {
                    assert(entries_model(r@) =~= result);
                }
                r
            },
            Some(list) => {
                let ghost lm = entries_model(list@);
                let mut out: Vec<Entry> = Vec::new();
                let mut i: usize = 0;
                proof {
                    assert(lm.subrange(0, lm.len() as int) =~= lm);
                    assert(entries_model(out@) + diff_list(lm, self@, cm) =~= diff_list(
                        lm,
                        self@,
                        cm,
                    ));
                }
                while i < list.len()
                    invariant
                        0 <= i <= list@.len(),
                        self.wf(),
                        entries_wf(list@),
                        cm == keys_model(comps@),
                        lm == entries_model(list@),
                        entries_wf(out@),
                        out@.len() <= i,
                        diff_list(lm, self@, cm) == entries_model(out@) + diff_list(
                            lm.subrange(i as int, lm.len() as int),
                            self@,
                            cm,
                        ),
                    decreases list@.len() - i,
                {
                    let ghost tail = lm.subrange(i as int, lm.len() as int);
                    proof {
                        assert(tail[0] == lm[i as int]);
                        assert(tail.drop_first() =~= lm.subrange(i as int + 1, lm.len() as int));
                    }
                    if !self.in_union(comps, &list[i].value) {
                        out.push(list[i].duplicate());
                        proof {
                            assert(entries_model(out@) =~= entries_model(out@.drop_last())
                                + seq![lm[i as int]]);
                            assert(entries_model(out@) + diff_list(
                                lm.subrange(i as int + 1, lm.len() as int),
                                self@,
                                cm,
                            ) =~= (entries_model(out@.drop_last()) + seq![lm[i as int]])
                                + diff_list(
                                lm.subrange(i as int + 1, lm.len() as int),
                                self@,
                                cm,
                            ));
                        }
                    }
                    i = i + 1;
                }
                proof {
                    assert(lm.subrange(lm.len() as int, lm.len() as int) =~= Seq::<
                        EntryModel,
                    >::empty());
                    assert(entries_model(out@) =~= result);
                    assert(distinct_values(entries_model(out@)));
                }
                out
            },
        }
    }

    /// Compute the difference and, only when it is not empty, store its
    /// members under the destination key, overwriting any prior
    /// collection there; an empty difference leaves the whole mapping —
    /// the destination key in particular — untouched.
    pub fn diff_store(&mut self, dst: &str, target: &str, comps: &Vec<String>)
        requires
            old(self).wf(),
        ensures
            final(self).wf(),
            final(self)@ == if diff_model(old(self)@, target@, keys_model(comps@)).len() == 0 {
                old(self)@
            } else {
                old(self)@.insert(dst@, diff_model(old(self)@, target@, keys_model(comps@)))
            },
    {
        let d = self.diff(target, comps);
        if d.len() > 0 {
            let ghost dm = entries_model(d@);
            self.store.insert(dst.to_owned(), d);
            proof {
                assert(self@ =~= old(self)@.insert(dst@, dm));
            }
        }
    }
}

/// Whether some entry of the sequence holds the given value.
fn find_value(list: &Vec<Entry>, v: &TypedValue) -> (r: bool)
    ensures
        r == seq_has_value(entries_model(list@), v@),
{
    let mut i: usize = 0;
    while i < list.len()
        invariant
            0 <= i <= list@.len(),
            forall|j: int|
                0 <= j < i ==> entries_model(list@)[j].value != v@,
        decreases list@.len() - i,
    {
        if list[i].value.eq_value(v) {
            proof {
                assert(entries_model(list@)[i as int].value == v@);
            }
            return true;
        }
        i = i + 1;
    }
    false
}

} // verus!
