//! The page of one project.
use vstd::prelude::*;
use vstd::string::StringExecFns;

verus! {

/// The title of the page of project `name`.
pub open spec fn project_title(name: Seq<char>) -> Seq<char> {
    "Project "@ + name
}

/// The page of one project: its title, and the name that its source form and its delete
/// button act on.
pub struct Page {
    pub title: String,
    pub project_name: String,
}

/// The page of project `name`.
pub fn instance(name: String) -> (r: Page)
    ensures
        r.title@ == project_title(name@),
        r.project_name@ == name@,
{
    let mut title = String::new();
    title.append("Project ");
    title.append(name.as_str());
    Page { title, project_name: name }
}

/// The page that the address shows: the page of the project that it names, and none
/// when it names no project.
pub fn view(project_name: Option<String>) -> (r: Option<Page>)
    ensures
        match project_name {
            Some(name) => r matches Some(p) && p.title@ == project_title(name@)
                && p.project_name@ == name@,
            None => r is None,
        },
{
    match project_name {
        Some(name) => Some(instance(name)),
        None => None,
    }
}

} // verus!
