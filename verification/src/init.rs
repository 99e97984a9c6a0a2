//! The registry of projects: which names are taken, which project each name leads to,
//! and which projects are being deleted.
use vstd::prelude::*;
use vstd::utf8::encode_utf8;

use crate::order::{key, lemma_lists_distinct, lemma_lists_unique, lex_lt, lists};
use crate::strmap::StrMap;

verus! {

/// The handle of a running project; the caller keeps what each handle stands for.
pub type Handle = u64;

/// Why a request on the registry was refused.
#[derive(Debug)]
pub enum Error {
    IllegalProjectName(String),
    ProjectAlreadyExists(String),
    ProjectIsBeingDeleted(String),
    ProjectNotFound(String),
}

pub enum ErrorView {
    IllegalProjectName(Seq<char>),
    ProjectAlreadyExists(Seq<char>),
    ProjectIsBeingDeleted(Seq<char>),
    ProjectNotFound(Seq<char>),
}

impl View for Error {
    type V = ErrorView;

    open spec fn view(&self) -> ErrorView {
        match self {
            Error::IllegalProjectName(n) => ErrorView::IllegalProjectName(n@),
            Error::ProjectAlreadyExists(n) => ErrorView::ProjectAlreadyExists(n@),
            Error::ProjectIsBeingDeleted(n) => ErrorView::ProjectIsBeingDeleted(n@),
            Error::ProjectNotFound(n) => ErrorView::ProjectNotFound(n@),
        }
    }
}

/// A result of the registry seen as values.
pub open spec fn result_view<T>(r: Result<T, Error>) -> Result<T, ErrorView> {
    match r {
        Ok(t) => Ok(t),
        Err(e) => Err(e@),
    }
}

/// A project name is acceptable when it is between 1 and 64 bytes long.
pub open spec fn valid_name(name: Seq<char>) -> bool {
    0 < encode_utf8(name).len() <= 64
}

/// A name is accepted exactly when its UTF-8 encoding is 1 to 64 bytes long.
pub proof fn lemma_name_accepted_by_length(name: Seq<char>)
    ensures
        valid_name(name) <==> 0 < encode_utf8(name).len() <= 64,
        encode_utf8(name).len() == 0 ==> !valid_name(name),
        encode_utf8(name).len() > 64 ==> !valid_name(name),
{
}

/// Whether a name is accepted depends on its length in bytes alone, not on the
/// characters it holds: two names of the same byte length are both accepted or both
/// refused.
pub proof fn lemma_name_characters_do_not_matter(a: Seq<char>, b: Seq<char>)
    requires
        encode_utf8(a).len() == encode_utf8(b).len(),
    ensures
        valid_name(a) == valid_name(b),
{
}

/// Whether a project name is acceptable: between 1 and 64 bytes long.
pub fn validate_name(name: &String) -> (ok: bool)
    ensures
        ok == valid_name(name@),
        ok == (0 < encode_utf8(name@).len() <= 64),
{
    let n = name.as_str().as_bytes().len();
    n > 0 && n <= 64
}

/// What looking up `name` gives: its handle, or why there is none.
pub open spec fn project_spec(m: Map<Seq<char>, Option<Handle>>, name: Seq<char>) -> Result<Handle, ErrorView> {
    if !m.contains_key(name) {
        Err(ErrorView::ProjectNotFound(name))
    } else {
        match m[name] {
            Some(h) => Ok(h),
            None => Err(ErrorView::ProjectIsBeingDeleted(name)),
        }
    }
}

/// A project that was just created is found under its name, with the handle it got.
pub proof fn lemma_created_is_found(m: Map<Seq<char>, Option<Handle>>, name: Seq<char>, h: Handle)
    ensures
        project_spec(m.insert(name, Some(h)), name) == Ok::<Handle, ErrorView>(h),
{
}

/// A project whose deletion has started is refused under its name as being deleted.
pub proof fn lemma_deleting_is_refused(m: Map<Seq<char>, Option<Handle>>, name: Seq<char>)
    ensures
        project_spec(m.insert(name, None), name) == Err::<Handle, ErrorView>(
            ErrorView::ProjectIsBeingDeleted(name),
        ),
{
}

/// A project that was removed is not found any more.
pub proof fn lemma_removed_is_not_found(m: Map<Seq<char>, Option<Handle>>, name: Seq<char>)
    ensures
        project_spec(m.remove(name), name) == Err::<Handle, ErrorView>(ErrorView::ProjectNotFound(name)),
{
}

/// Creating, deleting, renaming to or removing one name leaves what every other name
/// leads to as it was.
pub proof fn lemma_other_names_unchanged(
    m: Map<Seq<char>, Option<Handle>>,
    name: Seq<char>,
    v: Option<Handle>,
    other: Seq<char>,
)
    requires
        other != name,
    ensures
        project_spec(m.insert(name, v), other) == project_spec(m, other),
        project_spec(m.remove(name), other) == project_spec(m, other),
{
}

/// The distinct names among `names`.
pub open spec fn loaded_names(names: Seq<String>) -> Set<Seq<char>> {
    Set::new(|k: Seq<char>| exists|i: int| 0 <= i < names.len() && #[trigger] names[i]@ == k)
}

/// Listing the projects of a registry loaded from `names` gives each distinct name of
/// `names` once, in byte order, and nothing else; no other sequence does so.
pub proof fn lemma_listing_after_load(names: Seq<String>, listed: Seq<String>)
    requires
        lists(loaded_names(names), listed),
    ensures
        listed.map_values(|x: String| x@).to_set() == loaded_names(names),
        listed.map_values(|x: String| x@).no_duplicates(),
        forall|i: int, j: int| 0 <= i < j < listed.len() ==> lex_lt(key(#[trigger] listed[i]@), key(#[trigger] listed[j]@)),
        forall|other: Seq<String>| #[trigger] lists(loaded_names(names), other)
            ==> other.map_values(|x: String| x@) == listed.map_values(|x: String| x@),
{
    let n = loaded_names(names);
    let v = listed.map_values(|x: String| x@);
    assert forall|k: Seq<char>| v.to_set().contains(k) <==> n.contains(k) by {
        if v.contains(k) {
            let j = choose|j: int| 0 <= j < v.len() && v[j] == k;
            assert(listed[j]@ == k);
        }
        if n.contains(k) {
            let j = choose|j: int| 0 <= j < listed.len() && #[trigger] listed[j]@ == k;
            assert(v[j] == k);
        }
    }
    assert(v.to_set() =~= n);
    lemma_lists_distinct(n, listed);
    assert forall|i: int, j: int| 0 <= i < v.len() && 0 <= j < v.len() && i != j implies v[i] != v[j] by {
        if i < j {
            assert(listed[i]@ != listed[j]@);
        } else {
            assert(listed[j]@ != listed[i]@);
        }
    }
    assert forall|other: Seq<String>| #[trigger] lists(n, other) implies other.map_values(|x: String| x@) == v by {
        lemma_lists_unique(n, other, listed);
    }
}

/// The registry: the projects by name, each with its handle, or with none while it is
/// being deleted.
pub struct Registry {
    projects: StrMap<Option<Handle>>,
    next_handle: Handle,
}

impl View for Registry {
    type V = Map<Seq<char>, Option<Handle>>;

    closed spec fn view(&self) -> Map<Seq<char>, Option<Handle>> {
        self.projects@
    }
}

impl Registry {
    /// Every handle given out is below the next one.
    pub closed spec fn wf(&self) -> bool {
        &&& self.projects.wf()
        &&& forall|k: Seq<char>| #[trigger] self.projects@.contains_key(k) ==> match self.projects@[k] {
            Some(h) => h < self.next_handle,
            None => true,
        }
    }

    /// The handle that the next new project gets.
    pub closed spec fn next_handle(&self) -> Handle {
        self.next_handle
    }

    /// An empty registry.
    pub fn new() -> (r: Self)
        ensures
            r.wf(),
            r@ == Map::<Seq<char>, Option<Handle>>::empty(),
            r.next_handle() == 0,
    {
        Registry { projects: StrMap::new(), next_handle: 0 }
    }

    /// Whether every handle has been given out, so that no project can be created.
    pub fn is_full(&self) -> (r: bool)
        ensures
            r == (self.next_handle() == u64::MAX),
    {
        self.next_handle == u64::MAX
    }

    /// The handle of the project `name`.
    pub fn project(&self, name: String) -> (r: Result<Handle, Error>)
        requires
            self.wf(),
        ensures
            result_view(r) == project_spec(self@, name@),
    {
        match self.projects.get(&name) {
            Some(Some(h)) => Ok(*h),
            Some(None) => Err(Error::ProjectIsBeingDeleted(name)),
            None => Err(Error::ProjectNotFound(name)),
        }
    }

    /// Creates the project `name`: the name must be valid and free; the project gets the
    /// next handle.
    pub fn new_project(&mut self, name: String) -> (r: Result<Handle, Error>)
        requires
            old(self).wf(),
            old(self).next_handle() < u64::MAX,
        ensures
            final(self).wf(),
            result_view(r) == if !valid_name(name@) {
                Err(ErrorView::IllegalProjectName(name@))
            } else if old(self)@.contains_key(name@) {
                Err(ErrorView::ProjectAlreadyExists(name@))
            } else {
                Ok(old(self).next_handle())
            },
            r is Ok ==> final(self)@ == old(self)@.insert(name@, Some(old(self).next_handle()))
                && final(self).next_handle() == old(self).next_handle() + 1,
            r is Err ==> final(self)@ == old(self)@ && final(self).next_handle() == old(self).next_handle(),
    {
        if !validate_name(&name) {
            return Err(Error::IllegalProjectName(name));
        }
        if self.projects.get(&name).is_some() {
            return Err(Error::ProjectAlreadyExists(name));
        }
        let h = self.next_handle;
        self.next_handle = self.next_handle + 1;
        self.projects.insert(name, Some(h));
        Ok(h)
    }

    /// Starts deleting the project `name`: it keeps its name, without a handle, until
    /// [`Registry::remove_project`]; the handle is returned so that the caller can stop
    /// the project.
    pub fn delete_project(&mut self, name: String) -> (r: Result<Handle, Error>)
        requires
            old(self).wf(),
        ensures
            final(self).wf(),
            final(self).next_handle() == old(self).next_handle(),
            result_view(r) == project_spec(old(self)@, name@),
            r is Ok ==> final(self)@ == old(self)@.insert(name@, None),
            r is Err ==> final(self)@ == old(self)@,
    {
        match self.projects.get(&name) {
            Some(Some(h)) => {
                let h = *h;
                self.projects.insert(name, None);
                Ok(h)
            },
            Some(None) => Err(Error::ProjectIsBeingDeleted(name)),
            None => Err(Error::ProjectNotFound(name)),
        }
    }

    /// Gives the project `from` the further name `to`, which must be valid and free; the
    /// name `from` keeps leading to the project until [`Registry::remove_project`].
    pub fn rename_project(&mut self, from: String, to: String) -> (r: Result<Handle, Error>)
        requires
            old(self).wf(),
        ensures
            final(self).wf(),
            final(self).next_handle() == old(self).next_handle(),
            result_view(r) == match project_spec(old(self)@, from@) {
                Err(e) => Err(e),
                Ok(h) => if !valid_name(to@) {
                    Err(ErrorView::IllegalProjectName(to@))
                } else if old(self)@.contains_key(to@) {
                    Err(ErrorView::ProjectAlreadyExists(to@))
                } else {
                    Ok(h)
                },
            },
            r matches Ok(h) ==> final(self)@ == old(self)@.insert(to@, Some(h)),
            r is Err ==> final(self)@ == old(self)@,
    {
        let h = match self.project(from) {
            Ok(h) => h,
            Err(e) => {
                return Err(e);
            },
        };
        if !validate_name(&to) {
            return Err(Error::IllegalProjectName(to));
        }
        if self.projects.get(&to).is_some() {
            return Err(Error::ProjectAlreadyExists(to));
        }
        self.projects.insert(to, Some(h));
        Ok(h)
    }

    /// Forgets the project `name` (a deleted project's name, or the former name of a
    /// renamed project).
    pub fn remove_project(&mut self, name: String)
        requires
            old(self).wf(),
        ensures
            final(self).wf(),
            final(self).next_handle() == old(self).next_handle(),
            final(self)@ == old(self)@.remove(name@),
    {
        self.projects.remove(&name);
    }

    /// The names of all projects, in byte order, each once.
    pub fn projects(&self) -> (r: Vec<String>)
        requires
            self.wf(),
        ensures
            r@.len() == self@.dom().len(),
            forall|k: Seq<char>| self@.contains_key(k) <==> exists|i: int| 0 <= i < r@.len() && #[trigger] r@[i]@ == k,
            forall|i: int, j: int| 0 <= i < j < r@.len() ==> lex_lt(key(#[trigger] r@[i]@), key(#[trigger] r@[j]@)),
            forall|i: int, j: int| 0 <= i < j < r@.len() ==> #[trigger] r@[i]@ != #[trigger] r@[j]@,
            lists(self@.dom(), r@),
    {
        let r = self.projects.keys();
        proof {
            lemma_lists_distinct(self@.dom(), r@);
        }
        r
    }

    /// A registry of the projects `names`, as found in the database: the `i`-th name gets
    /// handle `i`, and a name given twice keeps the later handle.
    pub fn load(names: Vec<String>) -> (r: Self)
        requires
            names@.len() < u64::MAX,
        ensures
            r.wf(),
            r.next_handle() == names@.len(),
            forall|k: Seq<char>| r@.contains_key(k) <==> exists|i: int| 0 <= i < names@.len() && #[trigger] names@[i]@ == k,
            forall|i: int|
                0 <= i < names@.len() && (forall|j: int| i < j < names@.len() ==> #[trigger] names@[j]@ != names@[i]@)
                    ==> r@[#[trigger] names@[i]@] == Some(i as Handle),
            forall|k: Seq<char>| #[trigger] r@.contains_key(k) ==> r@[k] is Some,
            r@.dom() == loaded_names(names@),
    {
        let mut r = Registry::new();
        let mut i: usize = 0;
        while i < names.len()
            invariant
                r.wf(),
                i <= names@.len(),
                names@.len() < u64::MAX,
                r.next_handle == i,
                forall|k: Seq<char>| r@.contains_key(k) <==> exists|j: int| 0 <= j < i && #[trigger] names@[j]@ == k,
                forall|a: int|
                    0 <= a < i && (forall|j: int| a < j < i ==> #[trigger] names@[j]@ != names@[a]@)
                        ==> r@[#[trigger] names@[a]@] == Some(a as Handle),
                forall|k: Seq<char>| #[trigger] r@.contains_key(k) ==> r@[k] is Some,
            decreases names@.len() - i,
        {
            let name = names[i].clone();
            let ghost m0 = r@;
            let h = r.next_handle;
            r.next_handle = r.next_handle + 1;
            r.projects.insert(name, Some(h));
            proof {
                assert(r@ == m0.insert(names@[i as int]@, Some(i as Handle)));
                assert forall|k: Seq<char>| #[trigger] r.projects@.contains_key(k) implies match r.projects@[k] {
                    Some(x) => x < r.next_handle,
                    None => true,
                } by {
                    if k != names@[i as int]@ {
                        assert(m0.contains_key(k));
                    }
                }
                assert forall|k: Seq<char>| r@.contains_key(k) <==> exists|j: int| 0 <= j < i + 1 && #[trigger] names@[j]@ == k by {
                    if m0.contains_key(k) {
                        let j = choose|j: int| 0 <= j < i && #[trigger] names@[j]@ == k;
                    }
                    if exists|j: int| 0 <= j < i + 1 && #[trigger] names@[j]@ == k {
                        let j = choose|j: int| 0 <= j < i + 1 && #[trigger] names@[j]@ == k;
                        if j < i {
                            assert(m0.contains_key(k));
                        }
                    }
                }
                assert forall|a: int|
                    0 <= a < i + 1 && (forall|j: int| a < j < i + 1 ==> #[trigger] names@[j]@ != names@[a]@)
                        implies r@[#[trigger] names@[a]@] == Some(a as Handle) by {
                    if a < i {
                        assert(names@[i as int]@ != names@[a]@);
                        assert forall|j: int| a < j < i implies #[trigger] names@[j]@ != names@[a]@ by {}
                    }
                }
            }
            i = i + 1;
        }
        r
    }
}

} // verus!
