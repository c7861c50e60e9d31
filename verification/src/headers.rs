//! An ordered header mapping with case-insensitive names.
//!
//! Names are normalized to ASCII lower case when stored; setting a name
//! that is already present overwrites its value in place (last write
//! wins), so stored names are always distinct.

use vstd::prelude::*;
use vstd::pervasive::VecAdditionalExecFns;
use crate::text::{lower_seq, lower_str};

verus! {

/// Value of `key` among `entries`: the value of the first entry whose
/// name equals `key`, or `None` when no entry has that name.
pub open spec fn lookup(entries: Seq<(Seq<char>, Seq<char>)>, key: Seq<char>) -> Option<
    Seq<char>,
>
    decreases entries.len(),
{
    if entries.len() == 0 {
        None
    } else if entries[0].0 == key {
        Some(entries[0].1)
    } else {
        lookup(entries.drop_first(), key)
    }
}

/// `entries` with `key` bound to `value`: the first entry named `key`
/// is replaced in place; when none is, a new entry is appended.
pub open spec fn set_entry(
    entries: Seq<(Seq<char>, Seq<char>)>,
    key: Seq<char>,
    value: Seq<char>,
) -> Seq<(Seq<char>, Seq<char>)>
    decreases entries.len(),
{
    if entries.len() == 0 {
        seq![(key, value)]
    } else if entries[0].0 == key {
        seq![(key, value)] + entries.drop_first()
    } else {
        seq![entries[0]] + set_entry(entries.drop_first(), key, value)
    }
}

/// Every stored name is ASCII lower case.
pub open spec fn keys_lower(entries: Seq<(Seq<char>, Seq<char>)>) -> bool {
    forall|i: int| 0 <= i < entries.len() ==> #[trigger] entries[i].0 == lower_seq(entries[i].0)
}

/// No two entries share a name.
pub open spec fn keys_distinct(entries: Seq<(Seq<char>, Seq<char>)>) -> bool {
    forall|i: int, j: int|
        0 <= i < j < entries.len() ==> (#[trigger] entries[i].0) != (#[trigger] entries[j].0)
}

/// An ordered mapping from header names to header values.
pub struct HeaderMap {
    entries: Vec<(String, String)>,
}

impl View for HeaderMap {
    type V = Seq<(Seq<char>, Seq<char>)>;

    closed spec fn view(&self) -> Seq<(Seq<char>, Seq<char>)> {
        self.entries@.map_values(|p: (String, String)| (p.0@, p.1@))
    }
}

impl HeaderMap {
    /// Names are stored lower-cased and never repeat.
    pub open spec fn wf(&self) -> bool {
        keys_lower(self@) && keys_distinct(self@)
    }

    /// The empty header mapping.
    pub fn new() -> (r: HeaderMap)
        ensures
            r@ == Seq::<(Seq<char>, Seq<char>)>::empty(),
            r.wf(),
    {
        let r = HeaderMap { entries: Vec::new() };
        proof {
            assert(r@ =~= Seq::<(Seq<char>, Seq<char>)>::empty());
        }
        r
    }

    /// How many entries the mapping holds.
    pub fn len(&self) -> (r: usize)
        ensures
            r == self@.len(),
    {
        self.entries.len()
    }

    /// The name of the entry at position `i` (already lower-cased).
    pub fn key_at(&self, i: usize) -> (r: &String)
        requires
            i < self@.len(),
        ensures
            r@ == self@[i as int].0,
    {
        &self.entries[i].0
    }

    /// The value of the entry at position `i`.
    pub fn value_at(&self, i: usize) -> (r: &String)
        requires
            i < self@.len(),
        ensures
            r@ == self@[i as int].1,
    {
        &self.entries[i].1
    }

    /// Bind `name` (compared case-insensitively) to `value`,
    /// overwriting any earlier value of the same name.
    pub fn set(&mut self, name: &str, value: &str)
        requires
            old(self).wf(),
        ensures
            final(self)@ == set_entry(old(self)@, lower_seq(name@), value@),
            final(self).wf(),
    {
        let key = lower_str(name);
        let n = self.entries.len();
        let mut i: usize = 0;
        while i < n
            invariant
                n == self@.len(),
                i <= n,
                self == old(self),
                old(self).wf(),
                key@ == lower_seq(name@),
                forall|j: int| 0 <= j < i ==> (#[trigger] self@[j].0) != key@,
            decreases n - i,
        {
            if self.entries[i].0 == key {
                let ghost e0 = self@;
                proof {
                    assert(e0[i as int].0 == self.entries@[i as int].0@);
                }
                self.entries.set(i, (key, value.to_owned()));
                proof {
                    assert(self@ =~= e0.update(i as int, (lower_seq(name@), value@)));
                    crate::text::lemma_lower_seq_idempotent(name@);
                    lemma_set_entry_update(e0, lower_seq(name@), value@, i as int);
                    lemma_set_entry_wf(e0, lower_seq(name@), value@);
                }
                return ;
            }
            i = i + 1;
        }
        let ghost e0 = self@;
        self.entries.push((key, value.to_owned()));
        proof {
            assert(self@ =~= e0.push((lower_seq(name@), value@)));
            crate::text::lemma_lower_seq_idempotent(name@);
            lemma_set_entry_push(e0, lower_seq(name@), value@);
            lemma_set_entry_wf(e0, lower_seq(name@), value@);
        }
    }

    /// Look `name` up, case-insensitively.
    pub fn get(&self, name: &str) -> (r: Option<&String>)
        ensures
            match r {
                Some(v) => lookup(self@, lower_seq(name@)) == Some(v@),
                None => lookup(self@, lower_seq(name@)) is None,
            },
    {
        let key = lower_str(name);
        let n = self.entries.len();
        let mut i: usize = 0;
        while i < n
            invariant
                n == self@.len(),
                i <= n,
                key@ == lower_seq(name@),
                forall|j: int| 0 <= j < i ==> (#[trigger] self@[j].0) != key@,
            decreases n - i,
        {
            if self.entries[i].0 == key {
                proof {
                    assert(self@[i as int].0 == self.entries@[i as int].0@);
                    lemma_lookup_at(self@, lower_seq(name@), i as int);
                }
                return Some(&self.entries[i].1);
            }
            i = i + 1;
        }
        proof {
            lemma_lookup_none(self@, lower_seq(name@));
        }
        None
    }
}

/// After binding `key` to `value`, looking `key` up yields `value`.
pub proof fn lemma_lookup_set_same(
    entries: Seq<(Seq<char>, Seq<char>)>,
    key: Seq<char>,
    value: Seq<char>,
)
    ensures
        lookup(set_entry(entries, key, value), key) == Some(value),
    decreases entries.len(),
{
    if entries.len() == 0 {
    } else if entries[0].0 == key {
        assert(set_entry(entries, key, value)[0] == (key, value));
    } else {
        lemma_lookup_set_same(entries.drop_first(), key, value);
        assert(set_entry(entries, key, value).drop_first() =~= set_entry(
            entries.drop_first(),
            key,
            value,
        ));
    }
}

/// Binding `key` leaves the value of every other name unchanged.
pub proof fn lemma_lookup_set_other(
    entries: Seq<(Seq<char>, Seq<char>)>,
    key: Seq<char>,
    value: Seq<char>,
    other: Seq<char>,
)
    requires
        other != key,
    ensures
        lookup(set_entry(entries, key, value), other) == lookup(entries, other),
    decreases entries.len(),
{
    if entries.len() == 0 {
        let s = set_entry(entries, key, value);
        assert(s[0] == (key, value));
        assert(s.drop_first().len() == 0);
        assert(lookup(s.drop_first(), other) is None);
        assert(lookup(s, other) is None);
    } else if entries[0].0 == key {
        assert(set_entry(entries, key, value)[0] == (key, value));
        assert(set_entry(entries, key, value).drop_first() =~= entries.drop_first());
    } else {
        lemma_lookup_set_other(entries.drop_first(), key, value, other);
        assert(set_entry(entries, key, value)[0] == entries[0]);
        assert(set_entry(entries, key, value).drop_first() =~= set_entry(
            entries.drop_first(),
            key,
            value,
        ));
    }
}

/// Binding `key` to the value it already has changes nothing.
pub proof fn lemma_set_entry_absorb(
    entries: Seq<(Seq<char>, Seq<char>)>,
    key: Seq<char>,
    value: Seq<char>,
)
    requires
        lookup(entries, key) == Some(value),
    ensures
        set_entry(entries, key, value) == entries,
    decreases entries.len(),
{
    if entries.len() == 0 {
    } else if entries[0].0 == key {
        assert(set_entry(entries, key, value) =~= entries);
    } else {
        lemma_set_entry_absorb(entries.drop_first(), key, value);
        assert(set_entry(entries, key, value) =~= entries);
    }
}

/// When the first entry named `key` stands at position `i`, binding
/// `key` replaces that entry in place.
proof fn lemma_set_entry_update(
    entries: Seq<(Seq<char>, Seq<char>)>,
    key: Seq<char>,
    value: Seq<char>,
    i: int,
)
    requires
        0 <= i < entries.len(),
        entries[i].0 == key,
        forall|j: int| 0 <= j < i ==> (#[trigger] entries[j].0) != key,
    ensures
        set_entry(entries, key, value) == entries.update(i, (key, value)),
    decreases entries.len(),
{
    if i == 0 {
        assert(set_entry(entries, key, value) =~= entries.update(0, (key, value)));
    } else {
        lemma_set_entry_update(entries.drop_first(), key, value, i - 1);
        assert(set_entry(entries, key, value) =~= entries.update(i, (key, value)));
    }
}

/// When no entry is named `key`, binding `key` appends a new entry.
pub proof fn lemma_set_entry_push(entries: Seq<(Seq<char>, Seq<char>)>, key: Seq<char>, value: Seq<char>)
    requires
        forall|j: int| 0 <= j < entries.len() ==> (#[trigger] entries[j].0) != key,
    ensures
        set_entry(entries, key, value) == entries.push((key, value)),
    decreases entries.len(),
{
    if entries.len() == 0 {
        assert(set_entry(entries, key, value) =~= entries.push((key, value)));
    } else {
        lemma_set_entry_push(entries.drop_first(), key, value);
        assert(set_entry(entries, key, value) =~= entries.push((key, value)));
    }
}

/// The first entry named `key`, at position `i`, decides the lookup.
proof fn lemma_lookup_at(entries: Seq<(Seq<char>, Seq<char>)>, key: Seq<char>, i: int)
    requires
        0 <= i < entries.len(),
        entries[i].0 == key,
        forall|j: int| 0 <= j < i ==> (#[trigger] entries[j].0) != key,
    ensures
        lookup(entries, key) == Some(entries[i].1),
    decreases entries.len(),
{
    if i > 0 {
        lemma_lookup_at(entries.drop_first(), key, i - 1);
    }
}

/// When no entry is named `key`, the lookup yields nothing.
proof fn lemma_lookup_none(entries: Seq<(Seq<char>, Seq<char>)>, key: Seq<char>)
    requires
        forall|j: int| 0 <= j < entries.len() ==> (#[trigger] entries[j].0) != key,
    ensures
        lookup(entries, key) is None,
    decreases entries.len(),
{
    if entries.len() > 0 {
        lemma_lookup_none(entries.drop_first(), key);
    }
}

/// Binding a lower-cased name keeps the mapping well formed.
proof fn lemma_set_entry_wf(entries: Seq<(Seq<char>, Seq<char>)>, key: Seq<char>, value: Seq<char>)
    requires
        keys_lower(entries),
        keys_distinct(entries),
        key == lower_seq(key),
    ensures
        keys_lower(set_entry(entries, key, value)),
        keys_distinct(set_entry(entries, key, value)),
    decreases entries.len(),
{
    let s = set_entry(entries, key, value);
    if entries.len() == 0 {
    } else if entries[0].0 == key {
        assert forall|i: int, j: int| 0 <= i < j < s.len() implies (#[trigger] s[i].0) != (
        #[trigger] s[j].0) by {
            assert(s[j] == entries[j]);
            if i == 0 {
                assert(s[0].0 == entries[0].0);
            } else {
                assert(s[i] == entries[i]);
            }
        }
    } else {
        lemma_set_entry_wf(entries.drop_first(), key, value);
        let t = set_entry(entries.drop_first(), key, value);
        assert forall|i: int| 0 <= i < s.len() implies #[trigger] s[i].0 == lower_seq(s[i].0) by {
            if i > 0 {
                assert(s[i] == t[i - 1]);
            }
        }
        assert forall|i: int, j: int| 0 <= i < j < s.len() implies (#[trigger] s[i].0) != (
        #[trigger] s[j].0) by {
            if i > 0 {
                assert(s[i] == t[i - 1]);
                assert(s[j] == t[j - 1]);
            } else {
                assert(s[j] == t[j - 1]);
                lemma_set_entry_keys(entries.drop_first(), key, value, j - 1);
            }
        }
    }
}

/// Every name among the bound entries is either `key` or a name that
/// was already there.
proof fn lemma_set_entry_keys(
    entries: Seq<(Seq<char>, Seq<char>)>,
    key: Seq<char>,
    value: Seq<char>,
    i: int,
)
    requires
        0 <= i < set_entry(entries, key, value).len(),
    ensures
        set_entry(entries, key, value)[i].0 == key || exists|j: int|
            0 <= j < entries.len() && (#[trigger] entries[j].0) == set_entry(entries, key, value)[i].0,
    decreases entries.len(),
{
    if entries.len() == 0 {
    } else if entries[0].0 == key {
        if i > 0 {
            assert(set_entry(entries, key, value)[i] == entries[i]);
            assert(entries[i].0 == entries[i].0);
        }
    } else {
        if i > 0 {
            lemma_set_entry_keys(entries.drop_first(), key, value, i - 1);
            assert(set_entry(entries, key, value)[i] == set_entry(
                entries.drop_first(),
                key,
                value,
            )[i - 1]);
            if set_entry(entries.drop_first(), key, value)[i - 1].0 != key {
                let j = choose|j: int|
                    0 <= j < entries.drop_first().len() && (#[trigger] entries.drop_first()[j].0)
                        == set_entry(entries.drop_first(), key, value)[i - 1].0;
                assert(entries[j + 1].0 == set_entry(entries, key, value)[i].0);
            }
        } else {
            assert(entries[0].0 == set_entry(entries, key, value)[0].0);
        }
    }
}

} // verus!
