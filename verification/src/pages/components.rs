//! Pieces shared by the pages.
use vstd::prelude::*;
use vstd::string::{StrSliceExecFns, StringExecFns};
use crate::nix::Source;

verus! {

/// The address of the page of project `name`.
pub open spec fn project_href(name: Seq<char>) -> Seq<char> {
    "/projects/"@ + name
}

/// The address of a project's page is `/projects/` followed by the whole name.
pub proof fn lemma_project_href_holds_name(name: Seq<char>)
    ensures
        project_href(name).len() == "/projects/"@.len() + name.len(),
        project_href(name).subrange(0, "/projects/"@.len() as int) == "/projects/"@,
        project_href(name).subrange("/projects/"@.len() as int, project_href(name).len() as int) == name,
{
    let h = project_href(name);
    let pre = "/projects/"@;
    assert(h.subrange(0, pre.len() as int) =~= pre);
    assert(h.subrange(pre.len() as int, h.len() as int) =~= name);
}

/// Distinct projects have distinct pages: a link leads back to the one name it was made
/// for.
pub proof fn lemma_project_hrefs_distinct(a: Seq<char>, b: Seq<char>)
    requires
        project_href(a) == project_href(b),
    ensures
        a == b,
{
    lemma_project_href_holds_name(a);
    lemma_project_href_holds_name(b);
}

/// A link: where it leads and the text it shows.
pub struct Link {
    pub href: String,
    pub text: String,
}

/// The line that lists project `name`: a link to its page, labelled with its name.
pub fn project_line(name: String) -> (r: Link)
    ensures
        r.href@ == project_href(name@),
        r.href@ == "/projects/"@ + name@,
        r.text@ == name@,
{
    let mut href = String::new();
    href.append("/projects/");
    href.append(name.as_str());
    Link { href, text: name }
}

/// A form field left empty stands for no value.
pub open spec fn optional_field(field: Seq<char>) -> Option<Seq<char>> {
    if field.len() == 0 { None } else { Some(field) }
}

/// An optional form field: `None` when it was left empty.
pub fn optional(field: String) -> (r: Option<String>)
    ensures
        match r {
            Some(s) => optional_field(field@) == Some(s@),
            None => optional_field(field@) is None,
        },
{
    if field.as_str().unicode_len() == 0 {
        None
    } else {
        Some(field)
    }
}

/// The source that the GitHub form describes: an empty branch follows the repository's
/// default branch, an empty revision follows the branch's head.
pub fn github_source(owner: String, repo: String, branch: String, revision: String) -> (r: Source)
    ensures
        match r {
            Source::GitHub { owner: o, repo: p, branch: b, revision: v } => {
                &&& o@ == owner@
                &&& p@ == repo@
                &&& match b {
                    Some(b) => optional_field(branch@) == Some(b@),
                    None => optional_field(branch@) is None,
                }
                &&& match v {
                    Some(v) => optional_field(revision@) == Some(v@),
                    None => optional_field(revision@) is None,
                }
            },
            _ => false,
        },
{
    let branch = optional(branch);
    let revision = optional(revision);
    Source::GitHub { owner, repo, branch, revision }
}

} // verus!
