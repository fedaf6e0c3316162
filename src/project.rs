//! A project as the catalog describes it, and its operations on the catalog.
use vstd::prelude::*;
use crate::catalog::{Catalog, Row, has_name, index_of};
use crate::errors::Errors;
use crate::query::{matching, opt_view, select_rows, sorted_by_name, ties_in_catalog_order};
use crate::tags::{join, join_tags, keep_nonempty, nonempty_tags, split, split_tags, strs};
use crate::text::{chars_of, normalize, normalize_name, string_of};

verus! {

/// A tracked project: its clean name and its tags.
pub struct Project {
    pub name: String,
    pub tags: Vec<String>,
}

/// A project as the contracts see it: its name and its tags.
pub open spec fn project_view(p: Project) -> (Seq<char>, Seq<Seq<char>>) {
    (p.name@, strs(p.tags@))
}

pub open spec fn project_views(v: Seq<Project>) -> Seq<(Seq<char>, Seq<Seq<char>>)> {
    v.map_values(|p: Project| project_view(p))
}

/// The project that a stored row describes.
pub open spec fn as_project(r: Row) -> (Seq<char>, Seq<Seq<char>>) {
    (r.0, split_tags(r.1))
}

/// A listing of the catalog `c`: the rows that pass the filters, each once,
/// ordered by name with ASCII case ignored, names equal that way in catalog
/// order.
pub open spec fn is_listing(
    s: Seq<Row>,
    c: Seq<Row>,
    name_q: Option<Seq<char>>,
    tag_q: Option<Seq<char>>,
) -> bool {
    sorted_by_name(s) && ties_in_catalog_order(s, c) && s.to_multiset() == matching(
        c,
        name_q,
        tag_q,
    ).to_multiset()
}

/// The directory of a project named `name` under the workspace root `ws`.
pub open spec fn join_path(ws: Seq<char>, name: Seq<char>) -> Seq<char> {
    if ws.len() == 0 || ws.last() == '/' {
        ws + name
    } else {
        ws + seq!['/'] + name
    }
}

/// The path of `name` under the directory `dir`; no file system is consulted.
pub fn derive_path(dir: &String, name: &String) -> (r: String)
    ensures
        r@ == join_path(dir@, name@),
{
    let mut out = chars_of(dir.as_str());
    let n = chars_of(name.as_str());
    if out.len() > 0 && out[out.len() - 1] != '/' {
        out.push('/');
    }
    let ghost base = out@;
    let mut k: usize = 0;
    while k < n.len()
        invariant
            k <= n@.len(),
            out@ == base + n@.subrange(0, k as int),
        decreases n@.len() - k,
    {
        out.push(n[k]);
        assert(base + n@.subrange(0, k + 1) =~= (base + n@.subrange(0, k as int)).push(
            n[k as int],
        ));
        k = k + 1;
    }
    assert(n@.subrange(0, n@.len() as int) =~= n@);
    assert(out@ =~= join_path(dir@, name@));
    string_of(&out)
}

/// The text of a generated readme: a heading with the project's name.
pub fn readme_text(name: &String) -> (r: String)
    ensures
        r@ == seq!['#', ' '] + name@,
{
    let mut out: Vec<char> = Vec::new();
    out.push('#');
    out.push(' ');
    let n = chars_of(name.as_str());
    let ghost base = out@;
    let mut k: usize = 0;
    while k < n.len()
        invariant
            k <= n@.len(),
            out@ == base + n@.subrange(0, k as int),
        decreases n@.len() - k,
    {
        out.push(n[k]);
        assert(base + n@.subrange(0, k + 1) =~= (base + n@.subrange(0, k as int)).push(
            n[k as int],
        ));
        k = k + 1;
    }
    assert(n@.subrange(0, n@.len() as int) =~= n@);
    assert(out@ =~= seq!['#', ' '] + name@);
    string_of(&out)
}

impl Project {
    /// A project with a cleaned name and its non-empty tags.
    pub fn new(name: String, tags: Vec<String>) -> (r: Project)
        ensures
            r.name@ == normalize(name@),
            strs(r.tags@) == keep_nonempty(strs(tags@)),
    {
        Project { name: normalize_name(name.as_str()), tags: nonempty_tags(&tags) }
    }

    /// The project's directory under the workspace root.
    pub fn get_path(&self, workspace: &String) -> (r: String)
        ensures
            r@ == join_path(workspace@, self.name@),
    {
        derive_path(workspace, &self.name)
    }

    /// Whether a project of that name is in the catalog.
    pub fn name_taken(name: &String, catalog: &Catalog) -> (r: bool)
        requires
            catalog.wf(),
        ensures
            r == has_name(catalog@, name@),
    {
        catalog.find(name).is_some()
    }

    /// The project of that name, its tags read from the stored field.
    pub fn get_from_db_by_name(name: &String, catalog: &Catalog) -> (r: Result<Project, Errors>)
        requires
            catalog.wf(),
        ensures
            !has_name(catalog@, name@) ==> r == Err::<Project, Errors>(Errors::CouldNotGetProject),
            has_name(catalog@, name@) ==> (r matches Ok(p) && project_view(p) == as_project(
                catalog@[index_of(catalog@, name@)],
            )),
    {
        match catalog.find(name) {
            None => Err(Errors::CouldNotGetProject),
            Some(i) => {
                let rec = &catalog.records()[i];
                Ok(Project { name: rec.name.clone(), tags: split(rec.tags.as_str()) })
            },
        }
    }

    /// Deletes the row of that name; the catalog is unchanged where there is none.
    pub fn remove_from_db_by_name(name: &String, catalog: &mut Catalog)
        requires
            old(catalog).wf(),
        ensures
            final(catalog).wf(),
            has_name(old(catalog)@, name@) ==> final(catalog)@ == old(catalog)@.remove(
                index_of(old(catalog)@, name@),
            ),
            !has_name(old(catalog)@, name@) ==> final(catalog)@ == old(catalog)@,
    {
        catalog.delete_row(name);
    }

    /// Renames the project in the catalog to the cleaned `new_name`, which
    /// is returned. A cleaned name that another project carries is refused,
    /// and then nothing changes.
    pub fn edit_name(&mut self, new_name: &str, catalog: &mut Catalog) -> (r: Result<
        String,
        Errors,
    >)
        requires
            old(catalog).wf(),
        ensures
            final(catalog).wf(),
            r is Err <==> (has_name(old(catalog)@, normalize(new_name@)) && normalize(new_name@)
                != old(self).name@),
            r is Err ==> r == Err::<String, Errors>(Errors::DatabaseError),
            r is Err ==> final(catalog)@ == old(catalog)@ && *final(self) == *old(self),
            r matches Ok(n) ==> n@ == normalize(new_name@) && final(self).name@ == n@,
            final(self).tags == old(self).tags,
            r is Ok && has_name(old(catalog)@, old(self).name@) ==> final(catalog)@ == old(
                catalog,
            )@.update(
                index_of(old(catalog)@, old(self).name@),
                (normalize(new_name@), old(catalog)@[index_of(old(catalog)@, old(self).name@)].1),
            ),
            r is Ok && !has_name(old(catalog)@, old(self).name@) ==> final(catalog)@ == old(
                catalog,
            )@,
    {
        let cleaned = normalize_name(new_name);
        match catalog.rename_row(&self.name, cleaned.clone()) {
            Err(e) => Err(e),
            Ok(()) => {
                self.name = cleaned.clone();
                Ok(cleaned)
            },
        }
    }

    /// Replaces the project's tags, in memory and in the catalog, by the
    /// non-empty ones among `new_tags`.
    pub fn edit_tags(&mut self, new_tags: &Vec<String>, catalog: &mut Catalog)
        requires
            old(catalog).wf(),
        ensures
            final(catalog).wf(),
            final(self).name == old(self).name,
            strs(final(self).tags@) == keep_nonempty(strs(new_tags@)),
            has_name(old(catalog)@, old(self).name@) ==> final(catalog)@ == old(catalog)@.update(
                index_of(old(catalog)@, old(self).name@),
                (old(self).name@, join_tags(keep_nonempty(strs(new_tags@)))),
            ),
            !has_name(old(catalog)@, old(self).name@) ==> final(catalog)@ == old(catalog)@,
    {
        let kept = nonempty_tags(new_tags);
        let field = join(&kept);
        catalog.set_tags_field(&self.name, field);
        self.tags = kept;
    }

    /// The projects that pass the optional name and tag filters (substrings,
    /// ASCII case ignored), ordered by name with ASCII case ignored.
    pub fn fetch_from_db(
        catalog: &Catalog,
        name_query: Option<String>,
        tag_query: Option<String>,
    ) -> (r: Vec<Project>)
        requires
            catalog.wf(),
        ensures
            r@.len() == matching(catalog@, opt_view(name_query), opt_view(tag_query)).len(),
            exists|s: Seq<Row>|
                is_listing(s, catalog@, opt_view(name_query), opt_view(tag_query))
                    && project_views(r@) == s.map_values(|x: Row| as_project(x)),
    {
        let rows = select_rows(catalog.records(), &name_query, &tag_query);
        let ghost s = crate::catalog::rows_of(rows@);
        let mut out: Vec<Project> = Vec::new();
        let mut i: usize = 0;
        while i < rows.len()
            invariant
                i <= rows@.len(),
                s == crate::catalog::rows_of(rows@),
                project_views(out@) == s.subrange(0, i as int).map_values(|x: Row| as_project(x)),
            decreases rows@.len() - i,
        {
            let rec = &rows[i];
            let p = Project { name: rec.name.clone(), tags: split(rec.tags.as_str()) };
            assert(project_view(p) == as_project(s[i as int]));
            let ghost prev = out@;
            out.push(p);
            assert(project_views(out@) =~= project_views(prev).push(project_view(p)));
            assert(project_views(out@) =~= s.subrange(0, i + 1).map_values(
                |x: Row| as_project(x),
            ));
            i = i + 1;
        }
        assert(s.subrange(0, s.len() as int) =~= s);
        proof {
            s.to_multiset_ensures();
            matching(catalog@, opt_view(name_query), opt_view(tag_query)).to_multiset_ensures();
        }
        assert(is_listing(s, catalog@, opt_view(name_query), opt_view(tag_query)));
        out
    }

    /// Adds the project's row to the catalog, its non-empty tags joined into
    /// one field. A name already present is refused and nothing changes.
    pub fn add_to_db(&self, catalog: &mut Catalog) -> (r: Result<(), Errors>)
        requires
            old(catalog).wf(),
        ensures
            final(catalog).wf(),
            has_name(old(catalog)@, self.name@) ==> r == Err::<(), Errors>(Errors::DatabaseError),
            has_name(old(catalog)@, self.name@) ==> final(catalog)@ == old(catalog)@,
            !has_name(old(catalog)@, self.name@) ==> r is Ok && final(catalog)@ == old(
                catalog,
            )@.push((self.name@, join_tags(keep_nonempty(strs(self.tags@))))),
    {
        catalog.insert_row(self.name.clone(), join(&nonempty_tags(&self.tags)))
    }
}

} // verus!
