//! The aggregate mapping from family name to statistics record: an
//! association list with unique keys, viewed as a `Map<Seq<u8>, StatModel>`.

use vstd::prelude::*;

use crate::stat::{Stat, StatModel, stat_zero};
use crate::text::{bytes_eq, copy_bytes};
use vstd::pervasive::VecAdditionalExecFns;

verus! {

/// The family a key maps to when the key is absent, or its record when it
/// is present.
pub open spec fn stat_or_zero(m: Map<Seq<u8>, StatModel>, fam: Seq<u8>) -> StatModel {
    if m.contains_key(fam) {
        m[fam]
    } else {
        stat_zero()
    }
}

pub struct StatMap {
    entries: Vec<(Vec<u8>, Stat)>,
}

/// The map an entry list denotes, later entries taking precedence (the
/// well-formedness invariant makes keys unique, so precedence never
/// actually decides).
pub open spec fn map_of(es: Seq<(Vec<u8>, Stat)>) -> Map<Seq<u8>, StatModel>
    decreases es.len(),
{
    if es.len() == 0 {
        Map::empty()
    } else {
        map_of(es.drop_last()).insert(es.last().0@, es.last().1@)
    }
}

proof fn lemma_map_of_contains(es: Seq<(Vec<u8>, Stat)>, k: Seq<u8>)
    ensures
        map_of(es).contains_key(k) <==> exists|i: int| 0 <= i < es.len() && es[i].0@ == k,
    decreases es.len(),
{
    if es.len() > 0 {
        lemma_map_of_contains(es.drop_last(), k);
        if es.last().0@ == k {
            assert(es[es.len() - 1].0@ == k);
        } else if map_of(es).contains_key(k) {
            let i = choose|i: int| 0 <= i < es.drop_last().len() && es.drop_last()[i].0@ == k;
            assert(es[i].0@ == k);
        } else if exists|i: int| 0 <= i < es.len() && es[i].0@ == k {
            let i = choose|i: int| 0 <= i < es.len() && es[i].0@ == k;
            assert(es.drop_last()[i].0@ == k);
        }
    }
}

proof fn lemma_map_of_index(es: Seq<(Vec<u8>, Stat)>, i: int)
    requires
        0 <= i < es.len(),
        forall|a: int, b: int| 0 <= a < b < es.len() ==> es[a].0@ != es[b].0@,
    ensures
        map_of(es).contains_key(es[i].0@),
        map_of(es)[es[i].0@] == es[i].1@,
    decreases es.len(),
{
    if i == es.len() - 1 {
    } else {
        lemma_map_of_index(es.drop_last(), i);
        assert(es.drop_last()[i] == es[i]);
        assert(es[i].0@ != es[es.len() - 1].0@);
    }
}

proof fn lemma_map_of_update(es: Seq<(Vec<u8>, Stat)>, i: int, e: (Vec<u8>, Stat))
    requires
        0 <= i < es.len(),
        forall|a: int, b: int| 0 <= a < b < es.len() ==> es[a].0@ != es[b].0@,
        e.0@ == es[i].0@,
    ensures
        map_of(es.update(i, e)) == map_of(es).insert(e.0@, e.1@),
    decreases es.len(),
{
    let up = es.update(i, e);
    if i == es.len() - 1 {
        assert(up.drop_last() =~= es.drop_last());
        assert(map_of(up) == map_of(es.drop_last()).insert(e.0@, e.1@));
        assert(map_of(es.drop_last()).insert(es.last().0@, es.last().1@).insert(e.0@, e.1@)
            =~= map_of(es.drop_last()).insert(e.0@, e.1@));
    } else {
        lemma_map_of_update(es.drop_last(), i, e);
        assert(up.drop_last() =~= es.drop_last().update(i, e));
        assert(up.last() == es.last());
        assert(es[i].0@ != es[es.len() - 1].0@);
        assert(map_of(up) == map_of(es.drop_last()).insert(e.0@, e.1@).insert(
            es.last().0@,
            es.last().1@,
        ));
        assert(map_of(es.drop_last()).insert(e.0@, e.1@).insert(es.last().0@, es.last().1@)
            =~= map_of(es.drop_last()).insert(es.last().0@, es.last().1@).insert(e.0@, e.1@));
    }
}

impl View for StatMap {
    type V = Map<Seq<u8>, StatModel>;

    closed spec fn view(&self) -> Map<Seq<u8>, StatModel> {
        map_of(self.entries@)
    }
}

impl StatMap {
    /// The family names in the order the backing list holds them, the
    /// order reports walk the map in.
    pub closed spec fn key_seq(&self) -> Seq<Seq<u8>> {
        self.entries@.map(|i: int, e: (Vec<u8>, Stat)| e.0@)
    }

    /// Keys occur at most once in the entry list.
    pub closed spec fn wf(&self) -> bool {
        forall|a: int, b: int|
            0 <= a < b < self.entries@.len() ==> self.entries@[a].0@ != self.entries@[b].0@
    }

    pub fn new() -> (r: StatMap)
        ensures
            r.wf(),
            r@ == Map::<Seq<u8>, StatModel>::empty(),
    {
        StatMap { entries: Vec::new() }
    }

    fn index_of(&self, name: &Vec<u8>) -> (r: Option<usize>)
        ensures
            match r {
                Some(i) => i < self.entries@.len() && self.entries@[i as int].0@ == name@,
                None => forall|i: int|
                    0 <= i < self.entries@.len() ==> self.entries@[i].0@ != name@,
            },
    {
        let mut i: usize = 0;
        while i < self.entries.len()
            invariant
                i <= self.entries@.len(),
                forall|j: int| 0 <= j < i ==> self.entries@[j].0@ != name@,
            decreases self.entries@.len() - i,
        {
            if bytes_eq(&self.entries[i].0, name) {
                return Some(i);
            }
            i = i + 1;
        }
        None
    }

    /// The family's record, or the all-zero record when the family has not
    /// been seen yet.
    pub fn get_or_default(&self, name: &Vec<u8>) -> (r: Stat)
        requires
            self.wf(),
        ensures
            r@ == stat_or_zero(self@, name@),
    {
        proof {
            lemma_map_of_contains(self.entries@, name@);
        }
        match self.index_of(name) {
            Some(i) => {
                proof {
                    lemma_map_of_index(self.entries@, i as int);
                }
                self.entries[i].1
            },
            None => Stat::default(),
        }
    }

    /// Binds the family to the given record, replacing any earlier one.
    pub fn set(&mut self, name: &Vec<u8>, st: Stat)
        requires
            old(self).wf(),
        ensures
            final(self).wf(),
            final(self)@ == old(self)@.insert(name@, st@),
    {
        proof {
            lemma_map_of_contains(self.entries@, name@);
        }
        match self.index_of(name) {
            Some(i) => {
                let ghost es = self.entries@;
                let key = copy_bytes(name);
                self.entries.set(i, (key, st));
                proof {
                    lemma_map_of_update(es, i as int, self.entries@[i as int]);
                    assert forall|a: int, b: int|
                        0 <= a < b < self.entries@.len() implies self.entries@[a].0@
                        != self.entries@[b].0@ by {
                        assert(es[a].0@ != es[b].0@);
                    }
                }
            },
            None => {
                let ghost es = self.entries@;
                let key = copy_bytes(name);
                self.entries.push((key, st));
                proof {
                    assert(self.entries@.drop_last() =~= es);
                    assert forall|a: int, b: int|
                        0 <= a < b < self.entries@.len() implies self.entries@[a].0@
                        != self.entries@[b].0@ by {
                        if b < es.len() {
                            assert(es[a].0@ != es[b].0@);
                        } else {
                            assert(es[a].0@ != name@);
                        }
                    }
                }
            },
        }
    }

    /// How many families have been seen.
    pub fn len(&self) -> (r: usize)
        requires
            self.wf(),
        ensures
            r == self@.dom().len(),
    {
        proof {
            lemma_map_of_len(self.entries@);
        }
        self.entries.len()
    }

    /// The family name at one position of the backing list, for reporting.
    pub fn key_at(&self, i: usize) -> (r: &Vec<u8>)
        requires
            self.wf(),
            i < self@.dom().len(),
        ensures
            r@ == self.key_seq()[i as int],
            self@.contains_key(r@),
    {
        proof {
            lemma_map_of_len(self.entries@);
            lemma_map_of_index(self.entries@, i as int);
        }
        &self.entries[i].0
    }

    /// The record at one position of the backing list, for reporting.
    pub fn stat_at(&self, i: usize) -> (r: Stat)
        requires
            self.wf(),
            i < self@.dom().len(),
        ensures
            self@.contains_key(self.key_seq()[i as int]),
            r@ == self@[self.key_seq()[i as int]],
    {
        proof {
            lemma_map_of_len(self.entries@);
            lemma_map_of_index(self.entries@, i as int);
        }
        self.entries[i].1
    }
}

proof fn lemma_map_of_len(es: Seq<(Vec<u8>, Stat)>)
    requires
        forall|a: int, b: int| 0 <= a < b < es.len() ==> es[a].0@ != es[b].0@,
    ensures
        map_of(es).dom().len() == es.len(),
        map_of(es).dom().finite(),
    decreases es.len(),
{
    if es.len() > 0 {
        lemma_map_of_len(es.drop_last());
        lemma_map_of_contains(es.drop_last(), es.last().0@);
        assert(!map_of(es.drop_last()).contains_key(es.last().0@));
        assert(map_of(es).dom() =~= map_of(es.drop_last()).dom().insert(es.last().0@));
        vstd::set::axiom_set_insert_len(map_of(es.drop_last()).dom(), es.last().0@);
    }
}

} // verus!
