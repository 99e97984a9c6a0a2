//! The state of one project: whether it is enabled, and where the locking of its source
//! stands.
use vstd::prelude::*;
use vstd::string::StringExecFns;

verus! {

/// Why a request on a project was refused.
#[derive(Debug)]
pub enum Error {
    JobsetNotFound(String),
    LockInProgress,
    NoLockInProgress,
    ProjectIsNotDisabled,
    ProjectIsNotEnabled,
    SourceNotSet,
}

/// What an enabled project runs.
pub struct StInner {}

/// The state of a project.
pub struct ProjectState {
    id: i32,
    inner: Option<StInner>,
    disabled: bool,
    lock_running: bool,
    lock_err: Option<String>,
}

/// A project's state seen as values.
pub struct ProjectView {
    pub id: i32,
    /// The project runs.
    pub enabled: bool,
    /// The project is disabled and may be enabled.
    pub disabled: bool,
    /// A lock of the source is under way.
    pub lock_running: bool,
    /// How the last lock failed, if it did.
    pub lock_err: Option<Seq<char>>,
}

/// A project is never both running and disabled: every transition below ends in such a
/// state, so `enable` and `disable` never both succeed from one state.
pub open spec fn on_off_ok(v: ProjectView) -> bool {
    !(v.enabled && v.disabled)
}

impl View for ProjectState {
    type V = ProjectView;

    closed spec fn view(&self) -> ProjectView {
        ProjectView {
            id: self.id,
            enabled: self.inner is Some,
            disabled: self.disabled,
            lock_running: self.lock_running,
            lock_err: self.lock_err.deep_view(),
        }
    }
}

impl ProjectState {
    /// A project as loaded: disabled, not running, with no lock under way.
    pub fn new(id: i32) -> (s: Self)
        ensures
            s@ == (ProjectView {
                id,
                enabled: false,
                disabled: true,
                lock_running: false,
                lock_err: None,
            }),
            on_off_ok(s@),
    {
        ProjectState { id, inner: None, disabled: true, lock_running: false, lock_err: None }
    }

    /// The project's database identifier.
    pub fn id(&self) -> (r: i32)
        ensures
            r == self@.id,
    {
        self.id
    }

    /// Stops a running project; refused unless it runs. On success the caller reports
    /// back with [`ProjectState::disabled`] once the project has stopped.
    pub fn disable(&mut self) -> (r: Result<(), Error>)
        ensures
            r is Ok <==> old(self)@.enabled,
            r matches Err(e) ==> e is ProjectIsNotEnabled,
            final(self)@ == (ProjectView { enabled: false, ..old(self)@ }),
            on_off_ok(final(self)@),
    {
        if self.inner.is_none() {
            Err(Error::ProjectIsNotEnabled)
        } else {
            self.inner = None;
            Ok(())
        }
    }

    /// Starts a disabled project; refused unless it is disabled. On success the caller
    /// reports back with [`ProjectState::enabled`] once the project runs.
    pub fn enable(&mut self) -> (r: Result<(), Error>)
        ensures
            r is Ok <==> old(self)@.disabled,
            r matches Err(e) ==> e is ProjectIsNotDisabled,
            final(self)@ == (ProjectView { disabled: false, ..old(self)@ }),
            on_off_ok(final(self)@),
    {
        if !self.disabled {
            Err(Error::ProjectIsNotDisabled)
        } else {
            self.disabled = false;
            Ok(())
        }
    }

    /// Whether the project runs.
    pub fn is_enabled(&self) -> (r: bool)
        ensures
            r == self@.enabled,
    {
        self.inner.is_some()
    }

    /// The project has stopped.
    pub fn disabled(&mut self)
        requires
            !old(self)@.enabled,
        ensures
            final(self)@ == (ProjectView { disabled: true, ..old(self)@ }),
            on_off_ok(final(self)@),
    {
        self.disabled = true;
    }

    /// The project runs `inner`.
    pub fn enabled(&mut self, inner: StInner)
        ensures
            final(self)@ == (ProjectView { enabled: true, disabled: false, ..old(self)@ }),
            on_off_ok(final(self)@),
    {
        self.inner = Some(inner);
        self.disabled = false;
    }

    /// A new lock of the source starts; returns whether a lock under way must be aborted
    /// first.
    pub fn lock(&mut self) -> (abort: bool)
        ensures
            abort == old(self)@.lock_running,
            final(self)@ == (ProjectView { lock_running: true, ..old(self)@ }),
    {
        let abort = self.lock_running;
        self.lock_running = true;
        abort
    }

    /// The lock under way ended with `res`; a failure is recorded with its description,
    /// a success clears the last failure and hands the result back to be stored.
    pub fn lock_result<T>(&mut self, res: Result<T, String>) -> (stored: Option<T>)
        ensures
            match res {
                Ok(x) => stored == Some(x) && final(self)@ == (ProjectView {
                    lock_running: false,
                    lock_err: None,
                    ..old(self)@
                }),
                Err(e) => stored is None && final(self)@ == (ProjectView {
                    lock_running: false,
                    lock_err: Some(e@),
                    ..old(self)@
                }),
            },
    {
        self.lock_running = false;
        match res {
            Ok(x) => {
                self.lock_err = None;
                Some(x)
            },
            Err(e) => {
                self.lock_err = Some(e);
                None
            },
        }
    }

    /// How the last lock failed, if it did.
    pub fn lock_error(&self) -> (r: Option<String>)
        ensures
            r.deep_view() == self@.lock_err,
    {
        match &self.lock_err {
            Some(e) => Some(e.clone()),
            None => None,
        }
    }
}

/// What locking reads from the project's row: the source is required, the path defaults
/// to the empty string.
pub fn lock_inputs(source: Option<String>, path: Option<String>) -> (r: Result<(String, String), Error>)
    ensures
        match source {
            None => r matches Err(e) && e is SourceNotSet,
            Some(s) => r matches Ok((s2, p2)) && s2 == s && p2@ == match path {
                Some(p) => p@,
                None => Seq::<char>::empty(),
            },
        },
{
    match source {
        None => Err(Error::SourceNotSet),
        Some(s) => {
            let p = match path {
                Some(p) => p,
                None => String::new(),
            };
            Ok((s, p))
        },
    }
}

/// The expression that imports the file at `path` in the locked source `expr`.
pub open spec fn import_expr(expr: Seq<char>, path: Seq<char>) -> Seq<char> {
    "let x = "@ + expr + "; in import \"${x}/"@ + path + "\""@
}

/// The expression that imports the file at `path` in the locked source `expr`.
pub fn import_expression(expr: &String, path: &String) -> (r: String)
    ensures
        r@ == import_expr(expr@, path@),
{
    let mut r = String::new();
    r.append("let x = ");
    r.append(expr.as_str());
    r.append("; in import \"${x}/");
    r.append(path.as_str());
    r.append("\"");
    r
}

/// The store path of the file at `path` in the source locked at `out_path`.
pub fn locked_path(out_path: String, path: &String) -> (r: String)
    ensures
        r@ == out_path@ + path@,
{
    let mut out_path = out_path;
    out_path.append(path.as_str());
    out_path
}

/// A change to a project's secrets.
pub enum SecretEdit {
    /// Set `key` to `value`, replacing any former value.
    Upsert { key: String, value: String },
    /// Remove `key`.
    Delete { key: String },
}

/// The change that editing secret `key` to `value` makes: a value sets it, none removes
/// it.
pub fn secret_edit(key: String, value: Option<String>) -> (r: SecretEdit)
    ensures
        match value {
            Some(v) => r matches SecretEdit::Upsert { key: k, value: v2 } && k == key && v2 == v,
            None => r matches SecretEdit::Delete { key: k } && k == key,
        },
{
    match value {
        Some(value) => SecretEdit::Upsert { key, value },
        None => SecretEdit::Delete { key },
    }
}

} // verus!
