use vstd::prelude::*;

use crate::atom::{AtomRef, OwnedAtom};
use crate::error::Error;

verus! {

pub const MAX_CONTEXT_ENTRIES: usize = 16;

/// A borrowed attribute value.
#[derive(Clone, Copy, Debug, Eq, PartialEq)]
pub enum ValueRef<'a> {
    Bool(bool),
    Int(i64),
    Str(AtomRef<'a>),
}

/// An owned attribute value.
#[derive(Clone, Debug, Eq, PartialEq)]
pub enum OwnedValue {
    Bool(bool),
    Int(i64),
    Str(OwnedAtom),
}

/// One attribute of a request context: a key and its value.
#[derive(Clone, Copy, Debug, Eq, PartialEq)]
pub struct ContextEntry<'a> {
    key: AtomRef<'a>,
    value: ValueRef<'a>,
}

impl<'a> ContextEntry<'a> {
    /// The entry's key.
    pub closed spec fn spec_key(self) -> AtomRef<'a> {
        self.key
    }

    /// The entry's value.
    pub closed spec fn spec_value(self) -> ValueRef<'a> {
        self.value
    }

    pub fn new(key: AtomRef<'a>, value: ValueRef<'a>) -> (e: Self)
        ensures
            e.spec_key() == key,
            e.spec_value() == value,
    {
        Self { key, value }
    }

    pub fn key(self) -> (k: AtomRef<'a>)
        ensures
            k == self.spec_key(),
    {
        self.key
    }

    pub fn value(self) -> (v: ValueRef<'a>)
        ensures
            v == self.spec_value(),
    {
        self.value
    }
}

/// No two entries share a key.
pub open spec fn keys_distinct(entries: Seq<ContextEntry>) -> bool {
    forall|i: int, j: int|
        0 <= i < j < entries.len() ==> entries[i].spec_key()@ != entries[j].spec_key()@
}

/// `(first, second)` is the first pair of entries sharing a key, pairs taken in
/// the order `(0, 1), (0, 2), ..., (1, 2), ...`.
pub open spec fn is_first_duplicate(entries: Seq<ContextEntry>, first: int, second: int) -> bool {
    &&& 0 <= first < second < entries.len()
    &&& entries[first].spec_key()@ == entries[second].spec_key()@
    &&& forall|i: int, j: int|
        0 <= i < j < entries.len() && (i < first || (i == first && j < second))
            ==> entries[i].spec_key()@ != entries[j].spec_key()@
}

/// The value of the first entry at or after `i` whose key is `key`.
pub open spec fn lookup_from<'a>(entries: Seq<ContextEntry<'a>>, key: Seq<u8>, i: int) -> Option<
    ValueRef<'a>,
>
    decreases entries.len() - i,
{
    if i < 0 || i >= entries.len() {
        None
    } else if entries[i].spec_key()@ == key {
        Some(entries[i].spec_value())
    } else {
        lookup_from(entries, key, i + 1)
    }
}

/// A request context: a bounded list of attributes with distinct keys.
#[derive(Clone, Copy, Debug)]
pub struct Context<'a> {
    entries: &'a [ContextEntry<'a>],
}

impl<'a> Context<'a> {
    /// The context's entries, in order.
    pub closed spec fn spec_entries(self) -> Seq<ContextEntry<'a>> {
        self.entries@
    }

    /// The value of the attribute named `key`, if any.
    pub open spec fn spec_get(self, key: Seq<u8>) -> Option<ValueRef<'a>> {
        lookup_from(self.spec_entries(), key, 0)
    }

    /// A context as `new` builds it: at most `MAX_CONTEXT_ENTRIES` entries, distinct keys.
    pub open spec fn wf(self) -> bool {
        &&& self.spec_entries().len() <= MAX_CONTEXT_ENTRIES
        &&& keys_distinct(self.spec_entries())
    }

    /// Builds a context, rejecting more than `MAX_CONTEXT_ENTRIES` entries and, after that,
    /// the first pair of entries that share a key.
    pub fn new(entries: &'a [ContextEntry<'a>]) -> (r: Result<Self, Error>)
        ensures
            match r {
                Ok(c) => {
                    &&& entries@.len() <= MAX_CONTEXT_ENTRIES
                    &&& keys_distinct(entries@)
                    &&& c.spec_entries() == entries@
                    &&& c.wf()
                },
                Err(Error::TooManyContextEntries { limit, actual }) => {
                    &&& entries@.len() > MAX_CONTEXT_ENTRIES
                    &&& limit == MAX_CONTEXT_ENTRIES
                    &&& actual == entries@.len()
                },
                Err(Error::DuplicateContextKey { first, second }) => {
                    &&& entries@.len() <= MAX_CONTEXT_ENTRIES
                    &&& is_first_duplicate(entries@, first as int, second as int)
                },
                Err(_) => false,
            },
    {
        if entries.len() > MAX_CONTEXT_ENTRIES {
            return Err(Error::TooManyContextEntries {
                limit: MAX_CONTEXT_ENTRIES,
                actual: entries.len(),
            });
        }
        let len = entries.len();
        let mut first: usize = 0;
        while first < len
            invariant
                len == entries@.len(),
                len <= MAX_CONTEXT_ENTRIES,
                0 <= first <= len,
                forall|i: int, j: int|
                    0 <= i < j < len && i < first ==> entries@[i].spec_key()@
                        != entries@[j].spec_key()@,
            decreases len - first,
        {
            let mut second: usize = first + 1;
            while second < len
                invariant
                    len == entries@.len(),
                    len <= MAX_CONTEXT_ENTRIES,
                    0 <= first < len,
                    first + 1 <= second <= len,
                    forall|i: int, j: int|
                        0 <= i < j < len && i < first ==> entries@[i].spec_key()@
                            != entries@[j].spec_key()@,
                    forall|j: int|
                        first < j < second ==> entries@[first as int].spec_key()@
                            != entries@[j].spec_key()@,
                decreases len - second,
            {
                if entries[first].key().same_as(entries[second].key()) {
                    return Err(Error::DuplicateContextKey { first, second });
                }
                second = second + 1;
            }
            first = first + 1;
        }
        Ok(Self { entries })
    }

    pub fn entries(&self) -> (e: &'a [ContextEntry<'a>])
        ensures
            e@ == self.spec_entries(),
    {
        self.entries
    }

    /// The value of the first entry whose key equals `key` byte for byte.
    pub fn get(&self, key: AtomRef<'_>) -> (v: Option<ValueRef<'a>>)
        ensures
            v == self.spec_get(key@),
    {
        let len = self.entries.len();
        let mut i: usize = 0;
        while i < len
            invariant
                len == self.entries@.len(),
                0 <= i <= len,
                lookup_from(self.entries@, key@, 0) == lookup_from(self.entries@, key@, i as int),
            decreases len - i,
        {
            let entry = self.entries[i];
            if entry.key().same_as(key) {
                return Some(entry.value());
            }
            i = i + 1;
        }
        None
    }
}

/// In a context whose keys are distinct, looking a key up yields the value of the
/// one entry that has it.
pub proof fn lemma_lookup_finds_unique_entry<'a>(ctx: Context<'a>, k: int)
    requires
        ctx.wf(),
        0 <= k < ctx.spec_entries().len(),
    ensures
        ctx.spec_get(ctx.spec_entries()[k].spec_key()@) == Some(ctx.spec_entries()[k].spec_value()),
{
    let entries = ctx.spec_entries();
    let key = entries[k].spec_key()@;
    lemma_lookup_skips_to(entries, key, 0, k);
}

/// Lookup from `i` passes over entries before `k` when none of them has the key.
proof fn lemma_lookup_skips_to<'a>(entries: Seq<ContextEntry<'a>>, key: Seq<u8>, i: int, k: int)
    requires
        0 <= i <= k < entries.len(),
        entries[k].spec_key()@ == key,
        forall|j: int| i <= j < k ==> entries[j].spec_key()@ != key,
    ensures
        lookup_from(entries, key, i) == Some(entries[k].spec_value()),
    decreases k - i,
{
    if i < k {
        lemma_lookup_skips_to(entries, key, i + 1, k);
    }
}

/// Looking a key up finds nothing exactly when no entry has that key.
pub proof fn lemma_lookup_absent_key<'a>(ctx: Context<'a>, key: Seq<u8>)
    ensures
        ctx.spec_get(key) is None <==> forall|j: int|
            0 <= j < ctx.spec_entries().len() ==> (#[trigger] ctx.spec_entries()[j]).spec_key()@
                != key,
{
    lemma_lookup_from_none(ctx.spec_entries(), key, 0);
}

proof fn lemma_lookup_from_none<'a>(entries: Seq<ContextEntry<'a>>, key: Seq<u8>, i: int)
    requires
        0 <= i <= entries.len(),
    ensures
        lookup_from(entries, key, i) is None <==> forall|j: int|
            i <= j < entries.len() ==> (#[trigger] entries[j]).spec_key()@ != key,
    decreases entries.len() - i,
{
    if i < entries.len() {
        lemma_lookup_from_none(entries, key, i + 1);
    }
}

} // verus!
