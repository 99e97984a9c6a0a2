//! The home page: the projects, one line each.
use vstd::prelude::*;
use super::components::{project_href, project_line, Link};

verus! {

/// The home page: its title and one link per project, in the order given.
pub struct Home {
    pub title: String,
    pub lines: Vec<Link>,
}

/// The home page for the projects `projects`: under the title "Projects", the line of
/// each project in turn.
pub fn view(projects: Vec<String>) -> (r: Home)
    ensures
        r.title@ == "Projects"@,
        r.lines@.len() == projects@.len(),
        forall|i: int| 0 <= i < projects@.len() ==> {
            &&& (#[trigger] r.lines@[i]).href@ == project_href(projects@[i]@)
            &&& r.lines@[i].text@ == projects@[i]@
        },
{
    let mut lines: Vec<Link> = Vec::new();
    let mut i: usize = 0;
    while i < projects.len()
        invariant
            i <= projects@.len(),
            lines@.len() == i,
            forall|j: int| 0 <= j < i ==> {
                &&& (#[trigger] lines@[j]).href@ == project_href(projects@[j]@)
                &&& lines@[j].text@ == projects@[j]@
            },
        decreases projects@.len() - i,
    {
        let line = project_line(projects[i].clone());
        lines.push(line);
        i = i + 1;
    }
    Home { title: String::from_str("Projects"), lines }
}

} // verus!
