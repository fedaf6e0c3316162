use pile::catalog::Catalog;
use pile::ops::{add_project, get_project_path, prepare_add, remove_project};
use pile::project::{derive_path, readme_text, Project};
use pile::query::{contains_folded, name_le};
use pile::tags::{join, nonempty_tags, split};
use pile::text::normalize_name;
use pile::Errors;

fn s(x: &str) -> String {
    x.to_string()
}

fn strings(xs: &[&str]) -> Vec<String> {
    xs.iter().map(|x| x.to_string()).collect()
}

fn ws() -> String {
    s("/w")
}

fn add(catalog: &mut Catalog, name: &str, tags: &[&str]) -> Result<String, Errors> {
    let project = prepare_add(s(name), strings(tags), catalog)?;
    add_project(&project, &ws(), Ok(()), catalog)
}

fn names(projects: &[Project]) -> Vec<String> {
    projects.iter().map(|p| p.name.clone()).collect()
}

#[test]
fn normalize_trims_and_hyphenates() {
    assert_eq!(normalize_name("  My Project  "), "My-Project");
    assert_eq!(normalize_name("a b  c"), "a-b--c");
    assert_eq!(normalize_name("\t x \n"), "x");
    assert_eq!(normalize_name(""), "");
    assert_eq!(normalize_name("   "), "");
}

#[test]
fn normalize_is_idempotent() {
    for raw in ["  My Project ", "a b c", "x", "", " - ", "tab\there"] {
        let once = normalize_name(raw);
        assert_eq!(normalize_name(&once), once);
        assert!(!once.contains(' '));
    }
}

#[test]
fn project_new_cleans_name_and_tags() {
    let p = Project::new(s(" My Project "), strings(&["a", "", "b"]));
    assert_eq!(p.name, "My-Project");
    assert_eq!(p.tags, strings(&["a", "b"]));
}

#[test]
fn project_path_under_workspace() {
    let p = Project::new(s("My Project"), vec![]);
    assert_eq!(p.get_path(&s("/w")), "/w/My-Project");
    assert_eq!(p.get_path(&s("/w/")), "/w/My-Project");
    assert_eq!(derive_path(&s(""), &s("x")), "x");
}

#[test]
fn readme_heading() {
    assert_eq!(readme_text(&s("My-Project")), "# My-Project");
}

#[test]
fn add_taken_name_fails_and_changes_nothing() {
    let mut catalog = Catalog::new();
    add(&mut catalog, "foo", &["a"]).ok().unwrap();
    let r = prepare_add(s(" foo "), vec![], &catalog);
    assert!(matches!(r, Err(Errors::ProjectNameTaken)));
    assert_eq!(catalog.records().len(), 1);
    assert_eq!(catalog.records()[0].tags, "a");
}

#[test]
fn add_with_existing_directory_fails() {
    let mut catalog = Catalog::new();
    let project = prepare_add(s("bar"), vec![], &catalog).ok().unwrap();
    let r = add_project(&project, &ws(), Err(Errors::from_io_kind(true)), &mut catalog);
    assert!(matches!(r, Err(Errors::DirAlreadyExists)));
    assert_eq!(catalog.records().len(), 0);
    let r = add_project(&project, &ws(), Err(Errors::from_io_kind(false)), &mut catalog);
    assert!(matches!(r, Err(Errors::IOError)));
    assert_eq!(catalog.records().len(), 0);
}

#[test]
fn add_then_resolve_and_list() {
    let mut catalog = Catalog::new();
    let path = add(&mut catalog, "My Project", &["a", "b"]).ok().unwrap();
    assert_eq!(path, "/w/My-Project");
    let resolved = get_project_path(s("My-Project"), &ws(), &catalog).ok().unwrap();
    assert_eq!(resolved, "/w/My-Project");
    let listed = Project::fetch_from_db(&catalog, Some(s("my")), None);
    assert_eq!(names(&listed), strings(&["My-Project"]));
    assert_eq!(listed[0].tags, strings(&["a", "b"]));
}

#[test]
fn insert_of_present_name_is_a_database_error() {
    let mut catalog = Catalog::new();
    add(&mut catalog, "foo", &[]).ok().unwrap();
    let project = Project::new(s("foo"), vec![]);
    let r = add_project(&project, &ws(), Ok(()), &mut catalog);
    assert!(matches!(r, Err(Errors::DatabaseError)));
    assert_eq!(catalog.records().len(), 1);
}

#[test]
fn remove_unknown_and_known() {
    let mut catalog = Catalog::new();
    add(&mut catalog, "foo", &[]).ok().unwrap();
    add(&mut catalog, "bar", &[]).ok().unwrap();
    assert!(matches!(remove_project(&s("nope"), &mut catalog), Err(Errors::ProjectDoesNotExist)));
    assert_eq!(catalog.records().len(), 2);
    assert!(remove_project(&s("foo"), &mut catalog).is_ok());
    assert!(matches!(
        get_project_path(s("foo"), &ws(), &catalog),
        Err(Errors::CouldNotGetProject)
    ));
    assert_eq!(get_project_path(s("bar"), &ws(), &catalog).ok().unwrap(), "/w/bar");
}

#[test]
fn list_orders_by_name_ignoring_case() {
    let mut catalog = Catalog::new();
    add(&mut catalog, "banana", &[]).ok().unwrap();
    add(&mut catalog, "Apple", &[]).ok().unwrap();
    add(&mut catalog, "cherry", &[]).ok().unwrap();
    let listed = Project::fetch_from_db(&catalog, None, None);
    assert_eq!(names(&listed), strings(&["Apple", "banana", "cherry"]));
}

#[test]
fn list_filters_by_name_and_tag() {
    let mut catalog = Catalog::new();
    add(&mut catalog, "rust-cli", &["rust", "cli"]).ok().unwrap();
    add(&mut catalog, "py-tool", &["python"]).ok().unwrap();
    add(&mut catalog, "Rusty", &["game"]).ok().unwrap();
    let by_name = Project::fetch_from_db(&catalog, Some(s("RUST")), None);
    assert_eq!(names(&by_name), strings(&["rust-cli", "Rusty"]));
    let by_tag = Project::fetch_from_db(&catalog, None, Some(s("py")));
    assert_eq!(names(&by_tag), strings(&["py-tool"]));
    let both = Project::fetch_from_db(&catalog, Some(s("rust")), Some(s("cli")));
    assert_eq!(names(&both), strings(&["rust-cli"]));
    let none = Project::fetch_from_db(&catalog, Some(s("zzz")), None);
    assert!(none.is_empty());
    let across = Project::fetch_from_db(&catalog, None, Some(s("t,c")));
    assert_eq!(names(&across), strings(&["rust-cli"]));
}

#[test]
fn tags_round_trip() {
    let tags = strings(&["x", "y", "z"]);
    let field = join(&tags);
    assert_eq!(field, "x,y,z");
    assert_eq!(split(&field), tags);
    assert_eq!(split("x,,y,"), strings(&["x", "y"]));
    assert_eq!(split(""), Vec::<String>::new());
    assert_eq!(join(&vec![]), "");
    assert_eq!(nonempty_tags(&strings(&["", "a", ""])), strings(&["a"]));
}

#[test]
fn stored_tags_read_back() {
    let mut catalog = Catalog::new();
    add(&mut catalog, "p", &["x", "", "y", "z"]).ok().unwrap();
    assert_eq!(catalog.records()[0].tags, "x,y,z");
    let p = Project::get_from_db_by_name(&s("p"), &catalog).ok().unwrap();
    assert_eq!(p.tags, strings(&["x", "y", "z"]));
}

#[test]
fn edit_tags_replaces_stored_field() {
    let mut catalog = Catalog::new();
    add(&mut catalog, "p", &["old"]).ok().unwrap();
    let mut p = Project::get_from_db_by_name(&s("p"), &catalog).ok().unwrap();
    p.edit_tags(&strings(&["n1", "", "n2"]), &mut catalog);
    assert_eq!(p.tags, strings(&["n1", "n2"]));
    assert_eq!(catalog.records()[0].tags, "n1,n2");
}

#[test]
fn rename_moves_project() {
    let mut catalog = Catalog::new();
    add(&mut catalog, "foo", &["t"]).ok().unwrap();
    let mut p = Project::get_from_db_by_name(&s("foo"), &catalog).ok().unwrap();
    let old = p.name.clone();
    let new = p.edit_name("bar baz", &mut catalog).ok().unwrap();
    assert_eq!(new, "bar-baz");
    assert_eq!(derive_path(&ws(), &old), "/w/foo");
    assert_eq!(p.get_path(&ws()), "/w/bar-baz");
    let settled = p.settle_rename(old, Ok(()), &mut catalog).ok().unwrap();
    assert_eq!(settled, "bar-baz");
    assert_eq!(get_project_path(s("bar-baz"), &ws(), &catalog).ok().unwrap(), "/w/bar-baz");
    assert!(matches!(
        get_project_path(s("foo"), &ws(), &catalog),
        Err(Errors::CouldNotGetProject)
    ));
    assert_eq!(catalog.records()[0].tags, "t");
}

#[test]
fn rename_rolls_back_when_directory_move_fails() {
    let mut catalog = Catalog::new();
    add(&mut catalog, "foo", &[]).ok().unwrap();
    let mut p = Project::get_from_db_by_name(&s("foo"), &catalog).ok().unwrap();
    let old = p.name.clone();
    p.edit_name("bar", &mut catalog).ok().unwrap();
    let r = p.settle_rename(old, Err(Errors::IOError), &mut catalog);
    assert!(matches!(r, Err(Errors::IOError)));
    assert_eq!(p.name, "foo");
    assert_eq!(catalog.records()[0].name, "foo");
    assert!(get_project_path(s("bar"), &ws(), &catalog).is_err());
}

#[test]
fn rename_to_taken_name_is_refused() {
    let mut catalog = Catalog::new();
    add(&mut catalog, "foo", &[]).ok().unwrap();
    add(&mut catalog, "bar", &[]).ok().unwrap();
    let mut p = Project::get_from_db_by_name(&s("foo"), &catalog).ok().unwrap();
    assert!(matches!(p.edit_name(" bar ", &mut catalog), Err(Errors::DatabaseError)));
    assert_eq!(p.name, "foo");
    assert!(p.edit_name("foo", &mut catalog).is_ok());
}

#[test]
fn name_taken_and_lookup() {
    let mut catalog = Catalog::new();
    add(&mut catalog, "foo", &[]).ok().unwrap();
    assert!(Project::name_taken(&s("foo"), &catalog));
    assert!(!Project::name_taken(&s("Foo"), &catalog));
    assert!(matches!(
        Project::get_from_db_by_name(&s("x"), &catalog),
        Err(Errors::CouldNotGetProject)
    ));
    Project::remove_from_db_by_name(&s("x"), &mut catalog);
    assert_eq!(catalog.records().len(), 1);
    Project::remove_from_db_by_name(&s("foo"), &mut catalog);
    assert_eq!(catalog.records().len(), 0);
}

#[test]
fn folded_comparisons() {
    assert!(name_le(&s("Apple"), &s("banana")));
    assert!(!name_le(&s("banana"), &s("Apple")));
    assert!(name_le(&s("ab"), &s("AB")));
    assert!(name_le(&s("a"), &s("ab")));
    assert!(contains_folded(&s("My-Project"), &s("my")));
    assert!(contains_folded(&s("abc"), &s("")));
    assert!(!contains_folded(&s("ab"), &s("abc")));
}

#[test]
fn normalize_agrees_with_trim_and_replace() {
    for raw in [
        "  My Project  ",
        "\u{3000}wide\u{a0}",
        "\u{85}x y\u{2028}",
        "\t\n",
        "inner\ttab",
        "a\u{200b}b",
    ] {
        assert_eq!(normalize_name(raw), raw.trim().replace(" ", "-"));
    }
}

#[test]
fn add_to_db_drops_empty_tags() {
    let mut catalog = Catalog::new();
    let p = Project { name: s("p"), tags: strings(&["", ""]) };
    assert!(p.add_to_db(&mut catalog).is_ok());
    assert_eq!(catalog.records()[0].tags, "");
    let q = Project { name: s("q"), tags: strings(&["a", "", "b"]) };
    let r = add_project(&q, &ws(), Ok(()), &mut catalog);
    assert_eq!(r.ok().unwrap(), "/w/q");
    assert_eq!(catalog.records()[1].tags, "a,b");
}

#[test]
fn names_equal_up_to_case_keep_catalog_order() {
    let mut catalog = Catalog::new();
    add(&mut catalog, "b", &["t"]).ok().unwrap();
    add(&mut catalog, "Ab", &["t"]).ok().unwrap();
    add(&mut catalog, "aB", &[]).ok().unwrap();
    add(&mut catalog, "AB", &["t"]).ok().unwrap();
    let all = Project::fetch_from_db(&catalog, None, None);
    assert_eq!(names(&all), strings(&["Ab", "aB", "AB", "b"]));
    let both = Project::fetch_from_db(&catalog, Some(s("a")), Some(s("t")));
    assert_eq!(names(&both), strings(&["Ab", "AB"]));
}

#[test]
fn rename_to_same_name_rolls_back_to_unchanged_catalog() {
    let mut catalog = Catalog::new();
    add(&mut catalog, "foo", &["t"]).ok().unwrap();
    let mut p = Project::get_from_db_by_name(&s("foo"), &catalog).ok().unwrap();
    let old = p.name.clone();
    assert_eq!(p.edit_name(" foo ", &mut catalog).ok().unwrap(), "foo");
    let r = p.settle_rename(old, Err(Errors::IOError), &mut catalog);
    assert!(matches!(r, Err(Errors::IOError)));
    assert_eq!(p.name, "foo");
    assert_eq!(catalog.records().len(), 1);
    assert_eq!(catalog.records()[0].name, "foo");
    assert_eq!(catalog.records()[0].tags, "t");
}
