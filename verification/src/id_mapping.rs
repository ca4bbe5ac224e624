//! The identity mapping: a side table from tag identifier to a person's
//! name, independent of the attendance records.  Insertion is last-write
//! wins; lookup is by the case-insensitive identifier equality.

use vstd::prelude::*;

use crate::tally_id::TallyID;
use crate::text::canon;

verus! {

/// The name mapped to a tag.
#[derive(Debug, PartialEq, Eq)]
pub struct Name {
    pub first: String,
    pub last: String,
}

impl Clone for Name {
    fn clone(&self) -> (r: Self)
        ensures
            r@ == self@,
    {
        Name { first: self.first.clone(), last: self.last.clone() }
    }
}

/// Mathematical image of a [`Name`].
pub struct NameView {
    pub first: Seq<char>,
    pub last: Seq<char>,
}

impl View for Name {
    type V = NameView;

    open spec fn view(&self) -> NameView {
        NameView { first: self.first@, last: self.last@ }
    }
}

/// Whether the mapping holds an entry for the identifier, under the
/// case-insensitive key equality.
pub open spec fn map_has(m: Seq<(Seq<char>, NameView)>, id: Seq<char>) -> bool {
    exists|i: int| 0 <= i < m.len() && canon(#[trigger] m[i].0) == canon(id)
}

/// No two entries of a mapping view name the same tag.
pub open spec fn mapping_view_wf(m: Seq<(Seq<char>, NameView)>) -> bool {
    forall|i: int, j: int|
        0 <= i < j < m.len() ==> canon(#[trigger] m[i].0) != canon(#[trigger] m[j].0)
}

/// Maps tag identifiers to names.
pub struct IDMapping {
    entries: Vec<(TallyID, Name)>,
}

impl View for IDMapping {
    type V = Seq<(Seq<char>, NameView)>;

    closed spec fn view(&self) -> Seq<(Seq<char>, NameView)> {
        self.entries@.map_values(|e: (TallyID, Name)| (e.0@, e.1@))
    }
}

impl Clone for IDMapping {
    fn clone(&self) -> (r: Self)
        ensures
            r@ == self@,
    {
        let n: usize = self.entries.len();
        let mut entries: Vec<(TallyID, Name)> = Vec::new();
        let mut i: usize = 0;
        while i < n
            invariant
                0 <= i <= n,
                n == self.entries@.len(),
                entries@.len() == i,
                forall|j: int| #![all_triggers]
                    0 <= j < i ==> entries@[j].0@ == self.entries@[j].0@ && entries@[j].1@
                        == self.entries@[j].1@,
            decreases n - i,
        {
            let id: TallyID = self.entries[i].0.clone();
            let name: Name = self.entries[i].1.clone();
            entries.push((id, name));
            i = i + 1;
        }
        let r = IDMapping { entries };
        proof {
            assert(r@ =~= self@);
        }
        r
    }
}

impl IDMapping {
    /// No two entries name the same tag.
    pub open spec fn wf(&self) -> bool {
        mapping_view_wf(self@)
    }

    /// The empty mapping.
    pub fn new() -> (r: Self)
        ensures
            r@ == Seq::<(Seq<char>, NameView)>::empty(),
            r.wf(),
    {
        IDMapping { entries: Vec::new() }
    }

    /// The entries, in insertion order.
    pub fn entries(&self) -> (r: &Vec<(TallyID, Name)>)
        ensures
            r@.len() == self@.len(),
            forall|i: int|
                0 <= i < r@.len() ==> ((#[trigger] r@[i]).0@, r@[i].1@) == self@[i],
    {
        &self.entries
    }

    /// Looks the identifier up, by case-insensitive equality.
    pub fn map(&self, id: &TallyID) -> (r: Option<&Name>)
        requires
            self.wf(),
        ensures
            r is Some <==> map_has(self@, id@),
            r matches Some(n) ==> exists|i: int|
                0 <= i < self@.len() && canon(#[trigger] self@[i].0) == canon(id@) && n@
                    == self@[i].1,
    {
        let n: usize = self.entries.len();
        let mut i: usize = 0;
        while i < n
            invariant
                0 <= i <= n,
                n == self.entries@.len(),
                self@.len() == n,
                forall|j: int| 0 <= j < i ==> canon(#[trigger] self@[j].0) != canon(id@),
            decreases n - i,
        {
            proof {
                assert(self@[i as int].0 == self.entries@[i as int].0@);
            }
            if self.entries[i].0.eq_canon(id) {
                return Some(&self.entries[i].1);
            }
            i = i + 1;
        }
        None
    }

    /// Inserts or overwrites the entry for the identifier: last write wins,
    /// other entries are untouched.
    pub fn add_mapping(&mut self, id: TallyID, name: Name)
        requires
            old(self).wf(),
        ensures
            final(self).wf(),
            map_has(final(self)@, id@),
            !map_has(old(self)@, id@) ==> final(self)@ == old(self)@.push((id@, name@)),
            map_has(old(self)@, id@) ==> {
                &&& final(self)@.len() == old(self)@.len()
                &&& forall|i: int|
                    0 <= i < old(self)@.len() ==> #[trigger] final(self)@[i] == (
                    if canon(old(self)@[i].0) == canon(id@) {
                        (old(self)@[i].0, name@)
                    } else {
                        old(self)@[i]
                    })
            },
    {
        let n: usize = self.entries.len();
        let mut i: usize = 0;
        while i < n
            invariant
                0 <= i <= n,
                n == self.entries@.len(),
                self@.len() == n,
                old(self).wf(),
                self@ == old(self)@,
                self.entries@ == old(self).entries@,
                forall|j: int| 0 <= j < i ==> canon(#[trigger] self@[j].0) != canon(id@),
            decreases n - i,
        {
            proof {
                assert(self@[i as int].0 == self.entries@[i as int].0@);
            }
            if self.entries[i].0.eq_canon(&id) {
                let entry: (TallyID, Name) = self.entries.remove(i);
                self.entries.insert(i, (entry.0, name));
                proof {
                    assert(self@ =~= old(self)@.update(i as int, (old(self)@[i as int].0, name@)));
                    assert forall|k: int| 0 <= k < old(self)@.len() implies #[trigger] self@[k]
                        == (if canon(old(self)@[k].0) == canon(id@) {
                        (old(self)@[k].0, name@)
                    } else {
                        old(self)@[k]
                    }) by {
                        if k != i {
                            assert(self@[k] == old(self)@[k]);
                        } else {
                            assert(canon(old(self)@[i as int].0) == canon(id@));
                        }
                    }
                    assert(forall|k: int|
                        0 <= k < self@.len() ==> (#[trigger] self@[k]).0 == old(self)@[k].0);
                    assert(canon(self@[i as int].0) == canon(id@));
                }
                return;
            }
            i = i + 1;
        }
        self.entries.push((id, name));
        proof {
            assert(self@ =~= old(self)@.push((id@, name@)));
            assert(canon(self@[old(self)@.len() as int].0) == canon(id@));
        }
    }
}

} // verus!
