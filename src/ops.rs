//! Operations on one workspace: they tie the catalog to the project
//! directories. The file-system step of each is done by the caller, who
//! hands its outcome to the step that follows it.
use vstd::prelude::*;
use crate::catalog::{Catalog, Row, has_name, index_of, unique_names};
use crate::query::{contains_ci, matching, row_matches};
use crate::errors::Errors;
use crate::project::{Project, join_path};
use crate::tags::{join_tags, keep_nonempty, strs};
use crate::text::normalize;

verus! {

/// First step of adding a project: cleans the name and refuses one that the
/// catalog already holds. Only on success may the directory be created.
pub fn prepare_add(name: String, tags: Vec<String>, catalog: &Catalog) -> (r: Result<
    Project,
    Errors,
>)
    requires
        catalog.wf(),
    ensures
        r is Err <==> has_name(catalog@, normalize(name@)),
        r is Err ==> r == Err::<Project, Errors>(Errors::ProjectNameTaken),
        r matches Ok(p) ==> p.name@ == normalize(name@) && strs(p.tags@) == keep_nonempty(
            strs(tags@),
        ),
{
    let project = Project::new(name, tags);
    if Project::name_taken(&project.name, catalog) {
        return Err(Errors::ProjectNameTaken);
    }
    Ok(project)
}

/// Second step of adding a project, once its directory was created or
/// failed to be: the row, with the non-empty tags, is added only where the
/// directory was created, and the project's path is returned.
pub fn add_project(
    project: &Project,
    workspace: &String,
    created: Result<(), Errors>,
    catalog: &mut Catalog,
) -> (r: Result<String, Errors>)
    requires
        old(catalog).wf(),
    ensures
        final(catalog).wf(),
        created matches Err(e) ==> r == Err::<String, Errors>(e) && final(catalog)@ == old(
            catalog,
        )@,
        created is Ok && has_name(old(catalog)@, project.name@) ==> r == Err::<String, Errors>(
            Errors::DatabaseError,
        ) && final(catalog)@ == old(catalog)@,
        created is Ok && !has_name(old(catalog)@, project.name@) ==> final(catalog)@ == old(
            catalog,
        )@.push((project.name@, join_tags(keep_nonempty(strs(project.tags@))))),
        created is Ok && !has_name(old(catalog)@, project.name@) ==> (r matches Ok(path) && path@
            == join_path(workspace@, project.name@)),
{
    match created {
        Err(e) => Err(e),
        Ok(()) => match project.add_to_db(catalog) {
            Err(e) => Err(e),
            Ok(()) => Ok(project.get_path(workspace)),
        },
    }
}

/// Removes a project from the catalog. Its directory is left on disk.
pub fn remove_project(name: &String, catalog: &mut Catalog) -> (r: Result<(), Errors>)
    requires
        old(catalog).wf(),
    ensures
        final(catalog).wf(),
        !has_name(old(catalog)@, name@) ==> r == Err::<(), Errors>(Errors::ProjectDoesNotExist)
            && final(catalog)@ == old(catalog)@,
        has_name(old(catalog)@, name@) ==> r is Ok && final(catalog)@ == old(catalog)@.remove(
            index_of(old(catalog)@, name@),
        ),
{
    if !Project::name_taken(name, catalog) {
        return Err(Errors::ProjectDoesNotExist);
    }
    Project::remove_from_db_by_name(name, catalog);
    Ok(())
}

/// The directory of the project of that name under the workspace root.
pub fn get_project_path(name: String, workspace: &String, catalog: &Catalog) -> (r: Result<
    String,
    Errors,
>)
    requires
        catalog.wf(),
    ensures
        !has_name(catalog@, name@) ==> r == Err::<String, Errors>(Errors::CouldNotGetProject),
        has_name(catalog@, name@) ==> (r matches Ok(p) && p@ == join_path(workspace@, name@)),
{
    let project = Project::get_from_db_by_name(&name, catalog)?;
    Ok(project.get_path(workspace))
}

impl Project {
    /// Last step of a rename, once the directory was moved or failed to be:
    /// where the move failed, the catalog row and the project take back
    /// `old_name` and the failure is returned; else the new name is.
    pub fn settle_rename(
        &mut self,
        old_name: String,
        moved: Result<(), Errors>,
        catalog: &mut Catalog,
    ) -> (r: Result<String, Errors>)
        requires
            old(catalog).wf(),
        ensures
            final(catalog).wf(),
            final(self).tags == old(self).tags,
            moved is Ok ==> (r matches Ok(n) && n@ == old(self).name@) && *final(self) == *old(
                self,
            ) && final(catalog)@ == old(catalog)@,
            moved matches Err(e) ==> r == Err::<String, Errors>(e) && final(self).name@
                == old_name@,
            moved is Err && has_name(old(catalog)@, old(self).name@) && !has_name(
                old(catalog)@,
                old_name@,
            ) ==> final(catalog)@ == old(catalog)@.update(
                index_of(old(catalog)@, old(self).name@),
                (old_name@, old(catalog)@[index_of(old(catalog)@, old(self).name@)].1),
            ),
            moved is Err && old(self).name@ == old_name@ ==> final(catalog)@ == old(catalog)@,
    {
        match moved {
            Ok(()) => Ok(self.name.clone()),
            Err(e) => {
                let _ = catalog.rename_row(&self.name, old_name.clone());
                proof {
                    let c = old(catalog)@;
                    if self.name@ == old_name@ && has_name(c, old_name@) {
                        let k = index_of(c, old_name@);
                        assert(c[k].0 == old_name@);
                        assert(c.update(k, (old_name@, c[k].1)) =~= c);
                    }
                }
                self.name = old_name;
                Err(e)
            },
        }
    }
}

/// After a project is added, the catalog holds its row under its name.
pub proof fn lemma_added_is_found(c: Seq<Row>, n: Seq<char>, t: Seq<char>)
    requires
        unique_names(c),
        !has_name(c, n),
    ensures
        unique_names(c.push((n, t))),
        has_name(c.push((n, t)), n),
        c.push((n, t))[index_of(c.push((n, t)), n)] == (n, t),
        forall|q: Seq<char>|
            contains_ci(n, q) ==> #[trigger] matching(c.push((n, t)), Some(q), None).contains((n, t)),
{
    let d = c.push((n, t));
    assert(d[c.len() as int].0 == n);
    assert(unique_names(d)) by {
        assert forall|i: int, j: int|
            0 <= i < d.len() && 0 <= j < d.len() && i != j implies d[i].0 != d[j].0 by {
            if i == c.len() {
                assert(d[j] == c[j]);
            } else if j == c.len() {
                assert(d[i] == c[i]);
            } else {
                assert(d[i] == c[i] && d[j] == c[j]);
            }
        }
    }
    let k = index_of(d, n);
    assert(d[k].0 == n);
    assert(k == c.len()) by {
        if k != c.len() {
            assert(d[k] == c[k]);
        }
    }
    assert forall|q: Seq<char>| contains_ci(n, q) implies #[trigger] matching(d, Some(q), None).contains(
        (n, t),
    ) by {
        let pred = |r: Row| row_matches(r, Some(q), None);
        assert(pred((n, t)));
        assert(d.contains((n, t))) by {
            assert(d[c.len() as int] == (n, t));
        }
        d.lemma_filter_contains_rev(pred, (n, t));
    }
}

/// After a project is removed, no row carries its name and every other row
/// stays.
pub proof fn lemma_removed_is_gone(c: Seq<Row>, n: Seq<char>)
    requires
        unique_names(c),
        has_name(c, n),
    ensures
        !has_name(c.remove(index_of(c, n)), n),
        forall|m: Seq<char>| m != n ==> (has_name(c, m) <==> #[trigger] has_name(
            c.remove(index_of(c, n)),
            m,
        )),
{
    let k = index_of(c, n);
    let d = c.remove(k);
    assert(c[k].0 == n);
    if has_name(d, n) {
        let j = choose|j: int| 0 <= j < d.len() && #[trigger] d[j].0 == n;
        let oj = if j < k { j } else { j + 1 };
        assert(d[j] == c[oj]);
    }
    assert forall|m: Seq<char>| m != n implies (has_name(c, m) <==> #[trigger] has_name(d, m)) by {
        if has_name(c, m) {
            let i = choose|i: int| 0 <= i < c.len() && #[trigger] c[i].0 == m;
            let di = if i < k { i } else { i - 1 };
            assert(i != k);
            assert(d[di] == c[i]);
        }
        if has_name(d, m) {
            let j = choose|j: int| 0 <= j < d.len() && #[trigger] d[j].0 == m;
            let oj = if j < k { j } else { j + 1 };
            assert(d[j] == c[oj]);
        }
    }
}

/// A rename moves the row from the old name to the new one, keeping its
/// tags, and renaming it back gives the catalog that was there before.
pub proof fn lemma_rename_moves_row(c: Seq<Row>, a: Seq<char>, b: Seq<char>)
    requires
        unique_names(c),
        has_name(c, a),
        !has_name(c, b),
    ensures
        ({
            let k = index_of(c, a);
            let d = c.update(k, (b, c[k].1));
            &&& unique_names(d)
            &&& has_name(d, b)
            &&& !has_name(d, a)
            &&& index_of(d, b) == k
            &&& d[k].1 == c[k].1
            &&& d.update(index_of(d, b), (a, d[index_of(d, b)].1)) == c
        }),
{
    let k = index_of(c, a);
    let d = c.update(k, (b, c[k].1));
    assert(c[k].0 == a);
    assert(d[k].0 == b);
    assert(unique_names(d)) by {
        assert forall|i: int, j: int|
            0 <= i < d.len() && 0 <= j < d.len() && i != j implies d[i].0 != d[j].0 by {
            if i == k {
                assert(d[j] == c[j]);
            } else if j == k {
                assert(d[i] == c[i]);
            } else {
                assert(d[i] == c[i] && d[j] == c[j]);
            }
        }
    }
    if has_name(d, a) {
        let j = choose|j: int| 0 <= j < d.len() && #[trigger] d[j].0 == a;
        assert(j != k);
        assert(d[j] == c[j]);
    }
    let kb = index_of(d, b);
    assert(d[kb].0 == b);
    assert(kb == k) by {
        if kb != k {
            assert(d[kb] == c[kb]);
        }
    }
    assert(d.update(k, (a, d[k].1)) =~= c);
}

} // verus!
