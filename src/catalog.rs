//! The catalog: one row per project, its name and its stored tag field.
use vstd::prelude::*;
use crate::errors::Errors;

verus! {

/// One stored row: a project's name and its comma-separated tags.
pub struct Record {
    pub name: String,
    pub tags: String,
}

/// A row as the contracts see it: the name and the tag field.
pub type Row = (Seq<char>, Seq<char>);

pub open spec fn row_of(r: Record) -> Row {
    (r.name@, r.tags@)
}

pub open spec fn rows_of(v: Seq<Record>) -> Seq<Row> {
    v.map_values(|r: Record| row_of(r))
}

/// Some row carries the name `n`.
pub open spec fn has_name(c: Seq<Row>, n: Seq<char>) -> bool {
    exists|i: int| 0 <= i < c.len() && #[trigger] c[i].0 == n
}

/// No two rows carry the same name.
pub open spec fn unique_names(c: Seq<Row>) -> bool {
    forall|i: int, j: int| 0 <= i < c.len() && 0 <= j < c.len() && i != j ==> c[i].0 != c[j].0
}

/// The position of the row named `n`.
pub open spec fn index_of(c: Seq<Row>, n: Seq<char>) -> int {
    choose|i: int| 0 <= i < c.len() && #[trigger] c[i].0 == n
}

/// The rows of the projects in one workspace, names unique.
pub struct Catalog {
    rows: Vec<Record>,
}

impl View for Catalog {
    type V = Seq<Row>;

    closed spec fn view(&self) -> Seq<Row> {
        rows_of(self.rows@)
    }
}

/// In a catalog with unique names, the row found for a name is the one that carries it.
pub proof fn lemma_index_of(c: Seq<Row>, i: int)
    requires
        unique_names(c),
        0 <= i < c.len(),
    ensures
        index_of(c, c[i].0) == i,
        has_name(c, c[i].0),
{
    assert(c[i].0 == c[i].0);
}

impl Catalog {
    pub open spec fn wf(&self) -> bool {
        unique_names(self@)
    }

    /// An empty catalog.
    pub fn new() -> (r: Catalog)
        ensures
            r@ == Seq::<Row>::empty(),
            r.wf(),
    {
        let r = Catalog { rows: Vec::new() };
        assert(r@ =~= Seq::<Row>::empty());
        r
    }

    /// The rows, in the order in which they were added.
    pub fn records(&self) -> (r: &Vec<Record>)
        ensures
            rows_of(r@) == self@,
    {
        &self.rows
    }

    /// Where the row named `name` stands, if there is one.
    pub fn find(&self, name: &String) -> (r: Option<usize>)
        requires
            self.wf(),
        ensures
            r is None <==> !has_name(self@, name@),
            r matches Some(i) ==> i < self@.len() && self@[i as int].0 == name@ && i == index_of(
                self@,
                name@,
            ),
    {
        let mut i: usize = 0;
        while i < self.rows.len()
            invariant
                i <= self.rows@.len(),
                self.wf(),
                forall|k: int| 0 <= k < i ==> self@[k].0 != name@,
            decreases self.rows@.len() - i,
        {
            if self.rows[i].name == *name {
                proof {
                    lemma_index_of(self@, i as int);
                }
                return Some(i);
            }
            i = i + 1;
        }
        None
    }

    /// Adds a row. A name that is already present breaks the store's
    /// uniqueness and is refused.
    pub fn insert_row(&mut self, name: String, tags: String) -> (r: Result<(), Errors>)
        requires
            old(self).wf(),
        ensures
            final(self).wf(),
            has_name(old(self)@, name@) ==> r == Err::<(), Errors>(Errors::DatabaseError),
            has_name(old(self)@, name@) ==> final(self)@ == old(self)@,
            !has_name(old(self)@, name@) ==> r is Ok && final(self)@ == old(self)@.push(
                (name@, tags@),
            ),
    {
        if self.find(&name).is_some() {
            return Err(Errors::DatabaseError);
        }
        let rec = Record { name, tags };
        self.rows.push(rec);
        assert(self@ =~= old(self)@.push((name@, tags@)));
        assert forall|i: int, j: int|
            0 <= i < self@.len() && 0 <= j < self@.len() && i != j implies self@[i].0
            != self@[j].0 by {
            if i == self@.len() - 1 {
                assert(old(self)@[j].0 == self@[j].0);
            }
            if j == self@.len() - 1 {
                assert(old(self)@[i].0 == self@[i].0);
            }
        }
        Ok(())
    }

    /// Deletes the row named `name`; nothing happens where there is none.
    pub fn delete_row(&mut self, name: &String)
        requires
            old(self).wf(),
        ensures
            final(self).wf(),
            has_name(old(self)@, name@) ==> final(self)@ == old(self)@.remove(
                index_of(old(self)@, name@),
            ),
            !has_name(old(self)@, name@) ==> final(self)@ == old(self)@,
    {
        match self.find(name) {
            None => {},
            Some(i) => {
                self.rows.remove(i);
                assert(self@ =~= old(self)@.remove(i as int));
                assert forall|a: int, b: int|
                    0 <= a < self@.len() && 0 <= b < self@.len() && a != b implies self@[a].0
                    != self@[b].0 by {
                    let oa = if a < i { a } else { a + 1 };
                    let ob = if b < i { b } else { b + 1 };
                    assert(self@[a] == old(self)@[oa]);
                    assert(self@[b] == old(self)@[ob]);
                }
            },
        }
    }

    /// Renames the row named `old_name` to `new_name`, keeping its tags. A
    /// new name that another row carries is refused; where no row carries
    /// the old name nothing changes.
    pub fn rename_row(&mut self, old_name: &String, new_name: String) -> (r: Result<(), Errors>)
        requires
            old(self).wf(),
        ensures
            final(self).wf(),
            r is Err ==> final(self)@ == old(self)@,
            r is Err <==> (has_name(old(self)@, new_name@) && new_name@ != old_name@),
            r is Err ==> r == Err::<(), Errors>(Errors::DatabaseError),
            r is Ok && has_name(old(self)@, old_name@) ==> final(self)@ == old(self)@.update(
                index_of(old(self)@, old_name@),
                (new_name@, old(self)@[index_of(old(self)@, old_name@)].1),
            ),
            r is Ok && !has_name(old(self)@, old_name@) ==> final(self)@ == old(self)@,
    {
        let taken = self.find(&new_name);
        if taken.is_some() && new_name != *old_name {
            return Err(Errors::DatabaseError);
        }
        match self.find(old_name) {
            None => Ok(()),
            Some(i) => {
                let tags = self.rows[i].tags.clone();
                let ghost t = tags@;
                self.rows.set(i, Record { name: new_name, tags });
                assert(self@ =~= old(self)@.update(i as int, (new_name@, t)));
                assert forall|a: int, b: int|
                    0 <= a < self@.len() && 0 <= b < self@.len() && a != b implies self@[a].0
                    != self@[b].0 by {
                    if a == i {
                        assert(old(self)@[b].0 == self@[b].0);
                        if new_name@ == old_name@ {
                        } else {
                            assert(!has_name(old(self)@, new_name@));
                        }
                    } else if b == i {
                        assert(old(self)@[a].0 == self@[a].0);
                        if new_name@ != old_name@ {
                            assert(!has_name(old(self)@, new_name@));
                        }
                    }
                }
                Ok(())
            },
        }
    }

    /// Replaces the tag field of the row named `name`; nothing happens where
    /// there is none.
    pub fn set_tags_field(&mut self, name: &String, tags: String)
        requires
            old(self).wf(),
        ensures
            final(self).wf(),
            has_name(old(self)@, name@) ==> final(self)@ == old(self)@.update(
                index_of(old(self)@, name@),
                (name@, tags@),
            ),
            !has_name(old(self)@, name@) ==> final(self)@ == old(self)@,
    {
        match self.find(name) {
            None => {},
            Some(i) => {
                let n = self.rows[i].name.clone();
                self.rows.set(i, Record { name: n, tags });
                assert(self@ =~= old(self)@.update(i as int, (name@, tags@)));
                assert forall|a: int, b: int|
                    0 <= a < self@.len() && 0 <= b < self@.len() && a != b implies self@[a].0
                    != self@[b].0 by {
                    assert(old(self)@[a].0 == self@[a].0);
                    assert(old(self)@[b].0 == self@[b].0);
                }
            },
        }
    }
}

} // verus!
