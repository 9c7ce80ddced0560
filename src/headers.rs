//! Request headers: a map from name to value in which a later entry for a
//! name replaces an earlier one.

use vstd::prelude::*;
use crate::scan::bytes_eq;

verus! {

/// The map that a sequence of entries denotes, later entries winning.
pub open spec fn entries_map(es: Seq<(Vec<u8>, Vec<u8>)>) -> Map<Seq<u8>, Seq<u8>>
    decreases es.len(),
{
    if es.len() == 0 {
        Map::empty()
    } else {
        entries_map(es.drop_last()).insert(es.last().0@, es.last().1@)
    }
}

/// No two entries share a name.
pub open spec fn names_unique(es: Seq<(Vec<u8>, Vec<u8>)>) -> bool {
    forall|i: int, j: int| 0 <= i < j < es.len() ==> es[i].0@ != es[j].0@
}

/// The names that `entries_map` holds are those of the entries.
proof fn lemma_entries_map_keys(es: Seq<(Vec<u8>, Vec<u8>)>)
    ensures
        entries_map(es).dom().finite(),
        forall|k: Seq<u8>|
            #[trigger] entries_map(es).contains_key(k) <==> exists|i: int|
                0 <= i < es.len() && es[i].0@ == k,
    decreases es.len(),
{
    if es.len() > 0 {
        let init = es.drop_last();
        lemma_entries_map_keys(init);
        assert forall|k: Seq<u8>|
            #[trigger] entries_map(es).contains_key(k) <==> exists|i: int|
                0 <= i < es.len() && es[i].0@ == k by {
            if exists|i: int| 0 <= i < es.len() && es[i].0@ == k {
                let i = choose|i: int| 0 <= i < es.len() && es[i].0@ == k;
                if i < es.len() - 1 {
                    assert(init[i] == es[i]);
                }
            }
            if entries_map(init).contains_key(k) {
                let i = choose|i: int| 0 <= i < init.len() && init[i].0@ == k;
                assert(es[i] == init[i]);
            }
        }
    }
}

/// With distinct names, the map has one entry per entry.
proof fn lemma_entries_map_len(es: Seq<(Vec<u8>, Vec<u8>)>)
    requires
        names_unique(es),
    ensures
        entries_map(es).dom().len() == es.len(),
    decreases es.len(),
{
    if es.len() > 0 {
        let init = es.drop_last();
        lemma_entries_map_keys(init);
        lemma_entries_map_len(init);
        if entries_map(init).contains_key(es.last().0@) {
            let i = choose|i: int| 0 <= i < init.len() && init[i].0@ == es.last().0@;
            assert(es[i] == init[i]);
        }
    }
}

/// Replacing the entry of a name replaces that name's value.
proof fn lemma_entries_map_update(es: Seq<(Vec<u8>, Vec<u8>)>, i: int, p: (Vec<u8>, Vec<u8>))
    requires
        names_unique(es),
        0 <= i < es.len(),
        es[i].0@ == p.0@,
    ensures
        entries_map(es.update(i, p)) == entries_map(es).insert(p.0@, p.1@),
    decreases es.len(),
{
    let init = es.drop_last();
    if i == es.len() - 1 {
        assert(es.update(i, p).drop_last() =~= init);
        assert(entries_map(es.update(i, p)) =~= entries_map(es).insert(p.0@, p.1@));
    } else {
        assert(es.update(i, p).drop_last() =~= init.update(i, p));
        lemma_entries_map_update(init, i, p);
        assert(es.last().0@ != p.0@);
        assert(entries_map(es.update(i, p)) =~= entries_map(es).insert(p.0@, p.1@));
    }
}

/// Header names and values, compared byte for byte (names are case-sensitive).
pub struct Headers {
    entries: Vec<(Vec<u8>, Vec<u8>)>,
}

impl View for Headers {
    type V = Map<Seq<u8>, Seq<u8>>;

    closed spec fn view(&self) -> Map<Seq<u8>, Seq<u8>> {
        entries_map(self.entries@)
    }
}

impl Headers {
    #[verifier::type_invariant]
    spec fn inv(self) -> bool {
        names_unique(self.entries@)
    }

    /// No headers.
    pub fn new() -> (r: Headers)
        ensures
            r@ == Map::<Seq<u8>, Seq<u8>>::empty(),
    {
        Headers { entries: Vec::new() }
    }

    /// The number of distinct names.
    pub fn len(&self) -> (r: usize)
        ensures
            r == self@.dom().len(),
    {
        proof {
            use_type_invariant(self);
            lemma_entries_map_len(self.entries@);
        }
        self.entries.len()
    }

    /// Sets `name` to `value`, replacing any earlier value for `name`.
    pub fn insert(&mut self, name: Vec<u8>, value: Vec<u8>)
        ensures
            final(self)@ == old(self)@.insert(name@, value@),
    {
        proof {
            use_type_invariant(&*self);
        }
        let mut taken = Headers::new();
        std::mem::swap(self, &mut taken);
        let mut entries = taken.entries;
        let ghost es = entries@;
        let mut i: usize = 0;
        while i < entries.len()
            invariant
                entries@ == es,
                entries_map(es) == old(self)@,
                i <= es.len(),
                names_unique(es),
                forall|t: int| 0 <= t < i ==> es[t].0@ != name@,
            decreases entries.len() - i,
        {
            if bytes_eq(entries[i].0.as_slice(), name.as_slice()) {
                let ghost p = (name, value);
                proof {
                    lemma_entries_map_update(es, i as int, p);
                }
                entries.set(i, (name, value));
                assert(entries@ == es.update(i as int, p));
                assert(names_unique(entries@)) by {
                    assert forall|a: int, b: int|
                        0 <= a < b < entries@.len() implies entries@[a].0@ != entries@[b].0@ by {
                        assert(entries@[a].0@ == es[a].0@);
                        assert(entries@[b].0@ == es[b].0@);
                    }
                }
                *self = Headers { entries };
                return;
            }
            i = i + 1;
        }
        entries.push((name, value));
        assert(entries@.drop_last() =~= es);
        *self = Headers { entries };
    }

    /// The value recorded for `name`, if any.
    pub fn get(&self, name: &[u8]) -> (r: Option<&Vec<u8>>)
        ensures
            self@.contains_key(name@) ==> (r matches Some(v) && v@ == self@[name@]),
            !self@.contains_key(name@) ==> r is None,
    {
        proof {
            use_type_invariant(self);
        }
        let mut found: Option<&Vec<u8>> = None;
        let mut i: usize = 0;
        while i < self.entries.len()
            invariant
                i <= self.entries@.len(),
                entries_map(self.entries@.subrange(0, i as int)).contains_key(name@) ==> (found matches Some(v)
                    && v@ == entries_map(self.entries@.subrange(0, i as int))[name@]),
                !entries_map(self.entries@.subrange(0, i as int)).contains_key(name@) ==> found is None,
            decreases self.entries.len() - i,
        {
            let ghost before = self.entries@.subrange(0, i as int);
            if bytes_eq(self.entries[i].0.as_slice(), name) {
                found = Some(&self.entries[i].1);
            }
            i = i + 1;
            assert(self.entries@.subrange(0, i as int).drop_last() =~= before);
        }
        assert(self.entries@.subrange(0, i as int) =~= self.entries@);
        found
    }
}

} // verus!
