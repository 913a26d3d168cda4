//! The daemon that owns a store: what it is asked, what it answers, and which mounts it keeps.

use vstd::prelude::*;
use vstd::string::*;

use crate::branch::StoredState;
use crate::errors::{message_of, BranchError, ErrorView};
use crate::manager::{create_fault, forked, BranchManager, ManagerView};
use crate::records::{BranchStatus, CommitOutcome, InheritanceMode};
use crate::table::{lemma_row_count, lemma_rows, Table};
use crate::text::{concat, opt_text, texts, trim_space, without_space, Text};

verus! {

/// What the daemon is asked.
#[derive(Debug)]
pub enum Request {
    Mount { branch: String, mountpoint: String, passthrough: bool, control: bool, allow_other: bool },
    Unmount { mountpoint: String },
    Create {
        name: String,
        parent: String,
        lazy: bool,
        /// Inherited paths to mask from this branch's view (secret hiding).
        hide: Vec<String>,
    },
    Freeze { branch: String },
    Thaw { branch: String },
    Status { branch: String },
    CommitBranch { branch: String },
    AbortBranch { branch: String },
    /// Drop what a branch did to one path.
    RevertPath { branch: String, path: String },
    GetMountBranch { mountpoint: String },
    List,
    Shutdown,
}

/// What an answer holds besides whether the request was granted.
#[derive(Debug)]
pub enum ResponseData {
    /// The parent of a branch that was ended.
    Parent(String),
    /// The branch that a mount shows.
    Branch(String),
    Status(BranchStatus),
    Statuses(Vec<BranchStatus>),
    Outcome(CommitOutcome),
}

/// What the daemon answers.
#[derive(Debug)]
pub struct Response {
    pub ok: bool,
    pub error: Option<String>,
    pub data: Option<ResponseData>,
}

impl Response {
    pub fn success() -> (r: Response)
        ensures
            r.ok,
            r.error is None,
            r.data is None,
    {
        Response { ok: true, error: None, data: None }
    }

    pub fn success_with_data(data: ResponseData) -> (r: Response)
        ensures
            r.ok,
            r.error is None,
            r.data == Some(data),
    {
        Response { ok: true, error: None, data: Some(data) }
    }

    pub fn error(msg: &str) -> (r: Response)
        ensures
            !r.ok,
            opt_text(r.error) == Some(msg@),
            r.data is None,
    {
        Response { ok: false, error: Some(msg.to_owned()), data: None }
    }

    /// The answer to a request that returns nothing.
    pub fn of(result: Result<(), BranchError>) -> (r: Response)
        ensures
            r.ok == (result is Ok),
            r.data is None,
            opt_text(r.error) == (match result {
                Ok(()) => None,
                Err(e) => Some(message_of(e@)),
            }),
    {
        match result {
            Ok(()) => Response::success(),
            Err(e) => Response::error(e.message().as_str()),
        }
    }

    /// The answer to a request that returns something.
    pub fn with(result: Result<ResponseData, BranchError>) -> (r: Response)
        ensures
            r.ok == (result is Ok),
            match result {
                Ok(data) => r.data == Some(data) && r.error is None,
                Err(e) => r.data is None && opt_text(r.error) == Some(message_of(e@)),
            },
    {
        match result {
            Ok(data) => Response::success_with_data(data),
            Err(e) => Response::error(e.message().as_str()),
        }
    }
}

/// The answer to a request for a commit: the whole outcome, or why there is none.
pub fn commit_answer(result: Result<CommitOutcome, BranchError>) -> (r: Response)
    ensures
        r.ok == (result is Ok),
        match result {
            Ok(o) => r.data == Some(ResponseData::Outcome(o)) && r.error is None,
            Err(e) => r.data is None && opt_text(r.error) == Some(message_of(e@)),
        },
{
    match result {
        Ok(o) => Response::success_with_data(ResponseData::Outcome(o)),
        Err(e) => Response::error(e.message().as_str()),
    }
}

/// A path in quotes, with the characters escaped that do not print.
pub uninterp spec fn quoted(path: Text) -> Text;

/// The `Debug` format of a `std::path::Path`. How each character is escaped takes the tables of
/// the standard library to say, so the result is only named.
#[verifier::external_body]
fn quote(path: &str) -> (r: String)
    ensures
        r@ == quoted(path@),
{
    format!("{:?}", std::path::Path::new(path))
}

/// The owner of a store, of its mounts and of their sessions.
pub struct Daemon {
    pub manager: BranchManager,
    /// The sessions of the mounts, by mountpoint, each known by a number.
    pub mounts: Table<u64>,
    pub shutdown: bool,
}

pub struct DaemonView {
    pub manager: ManagerView,
    pub mounts: Map<Text, u64>,
    pub shutdown: bool,
}

impl View for Daemon {
    type V = DaemonView;

    open spec fn view(&self) -> DaemonView {
        DaemonView { manager: self.manager@, mounts: self.mounts@, shutdown: self.shutdown }
    }
}

/// What is left to do for a request.
#[derive(Debug)]
pub enum Job {
    /// Nothing; this is the answer.
    Answer(Response),
    Mount { branch: String, mountpoint: String, passthrough: bool, control: bool, allow_other: bool },
    Create { name: String, parent: String, inheritance: InheritanceMode, hide: Vec<String> },
    Freeze(String),
    Thaw(String),
    Status(String),
    Commit(String),
    Abort(String),
    Revert(String, String),
    /// The status of each of these branches.
    List(Vec<String>),
}

/// The state after the session of a mount ended.
pub open spec fn after_unmount(d: DaemonView, mountpoint: Text) -> DaemonView {
    let left = d.mounts.remove(mountpoint);
    DaemonView {
        manager: d.manager.unmounted(mountpoint),
        mounts: left,
        shutdown: d.shutdown || left.dom() =~= Set::empty(),
    }
}

/// Whether a notifier belongs to one of the mounts that the daemon keeps.
pub open spec fn kept_notifier(d: DaemonView, key: (Text, Text)) -> bool {
    &&& d.mounts.dom().contains(key.1)
    &&& d.manager.mounts.dom().contains(key.1)
    &&& d.manager.mounts[key.1] == key.0
}

/// The state of the store after all mounts that the daemon keeps are gone.
pub open spec fn all_unmounted(d: DaemonView) -> ManagerView {
    ManagerView {
        mounts: d.manager.mounts.restrict(
            Set::new(|p: Text| !d.mounts.dom().contains(p)),
        ),
        notifiers: d.manager.notifiers.restrict(
            Set::new(|k: (Text, Text)| !kept_notifier(d, k)),
        ),
        ..d.manager
    }
}

/// What a request comes to, beside what it changes at once.
pub open spec fn job_of(d: DaemonView, request: Request, job: Job) -> bool {
    match request {
        Request::Mount { branch, mountpoint, passthrough, control, allow_other } => job
            == (Job::Mount { branch, mountpoint, passthrough, control, allow_other }),
        Request::Unmount { mountpoint } => job matches Job::Answer(r) && r.data is None && r.ok
            == d.mounts.dom().contains(mountpoint@) && opt_text(r.error) == if r.ok {
            None
        } else {
            Some(message_of(ErrorView::MountNotFound(quoted(mountpoint@))))
        },
        Request::Create { name, parent, lazy, hide } => job == (Job::Create {
            name,
            parent,
            inheritance: if lazy {
                InheritanceMode::Lazy
            } else {
                InheritanceMode::Snapshot
            },
            hide,
        }),
        Request::Freeze { branch } => job == Job::Freeze(branch),
        Request::Thaw { branch } => job == Job::Thaw(branch),
        Request::Status { branch } => job == Job::Status(branch),
        Request::CommitBranch { branch } => job == Job::Commit(branch),
        Request::AbortBranch { branch } => job == Job::Abort(branch),
        Request::RevertPath { branch, path } => job == Job::Revert(branch, path),
        Request::GetMountBranch { mountpoint } => if d.manager.mounts.dom().contains(mountpoint@) {
            job matches Job::Answer(r) && r.ok && r.error is None && (r.data matches Some(
                ResponseData::Branch(b),
            ) && b@ == d.manager.mounts[mountpoint@])
        } else {
            job matches Job::Answer(r) && !r.ok && r.data is None && opt_text(r.error) == Some(
                "Mount not found: "@ + quoted(mountpoint@),
            )
        },
        Request::List => job matches Job::List(names) && texts(names@).no_duplicates() && texts(
            names@,
        ).to_set() == d.manager.branches.dom(),
        Request::Shutdown => job matches Job::Answer(r) && r.ok && r.error is None && r.data is None,
    }
}

/// The state right after a request was taken.
pub open spec fn after_request(d: DaemonView, request: Request) -> DaemonView {
    match request {
        Request::Unmount { mountpoint } => if d.mounts.dom().contains(mountpoint@) {
            after_unmount(d, mountpoint@)
        } else {
            d
        },
        Request::Shutdown => DaemonView {
            manager: all_unmounted(d),
            mounts: Map::empty(),
            shutdown: true,
        },
        _ => d,
    }
}

impl Daemon {
    pub open spec fn wf(self) -> bool {
        self.manager.wf() && self.mounts.wf()
    }

    pub fn new(manager: BranchManager) -> (r: Daemon)
        requires
            manager.wf(),
        ensures
            r.wf(),
            r@ == (DaemonView { manager: manager@, mounts: Map::empty(), shutdown: false }),
    {
        Daemon { manager, mounts: Table::new(), shutdown: false }
    }

    /// Registers a mount before its session is started, so that it knows which branch it shows.
    pub fn spawn_mount(&mut self, branch_name: &str, mountpoint: &str) -> (r: Result<(), BranchError>)
        requires
            old(self).wf(),
        ensures
            final(self).wf(),
            r is Ok <==> old(self)@.manager.branches.dom().contains(branch_name@),
            r matches Err(e) ==> e@ == ErrorView::NotFound(branch_name@) && final(self)@ == old(
                self,
            )@,
            r is Ok ==> final(self)@ == (DaemonView {
                manager: ManagerView {
                    mounts: old(self)@.manager.mounts.insert(mountpoint@, branch_name@),
                    ..old(self)@.manager
                },
                ..old(self)@
            }),
    {
        if !self.manager.is_branch_valid(branch_name) {
            return Err(BranchError::NotFound(branch_name.to_owned()));
        }
        self.manager.set_mount_branch(mountpoint, branch_name);
        Ok(())
    }

    /// Takes back the registration of a mount whose session did not start.
    pub fn mount_failed(&mut self, mountpoint: &str)
        requires
            old(self).wf(),
        ensures
            final(self).wf(),
            final(self)@ == (DaemonView {
                manager: old(self)@.manager.unmounted(mountpoint@),
                ..old(self)@
            }),
    {
        self.manager.unregister_mount(mountpoint);
    }

    /// Keeps the session of a mount that has started, with its notifier.
    pub fn mount_started(&mut self, branch_name: &str, mountpoint: &str, session: u64)
        requires
            old(self).wf(),
        ensures
            final(self).wf(),
            final(self)@ == (DaemonView {
                manager: ManagerView {
                    notifiers: old(self)@.manager.notifiers.insert(
                        (branch_name@, mountpoint@),
                        session,
                    ),
                    ..old(self)@.manager
                },
                mounts: old(self)@.mounts.insert(mountpoint@, session),
                ..old(self)@
            }),
    {
        self.manager.register_notifier(branch_name, mountpoint, session);
        let _ = self.mounts.put(mountpoint, session);
    }

    /// Ends the session of a mount. The daemon exits when the last mount is removed.
    pub fn unmount(&mut self, mountpoint: &str) -> (r: Result<(), BranchError>)
        requires
            old(self).wf(),
        ensures
            final(self).wf(),
            r is Ok <==> old(self)@.mounts.dom().contains(mountpoint@),
            r matches Err(e) ==> e@ == ErrorView::MountNotFound(quoted(mountpoint@)) && final(
                self
            )@ == old(self)@,
            r is Ok ==> final(self)@ == after_unmount(old(self)@, mountpoint@),
    {
        let ghost before = self.mounts@;
        if self.mounts.take(mountpoint).is_none() {
            proof {
                assert(self.mounts@ =~= before);
            }
            return Err(BranchError::MountNotFound(quote(mountpoint)));
        }
        let last = self.mounts.len() == 0;
        proof {
            lemma_rows(self.mounts);
            let left = self.mounts@;
            if last {
                assert(left.dom() =~= Set::empty());
            } else {
                assert(left.dom().contains(self.mounts.rows@[0].0@));
            }
        }
        self.manager.unregister_mount(mountpoint);
        if last {
            self.shutdown = true;
        }
        Ok(())
    }

    /// Ends the sessions of all mounts.
    pub fn cleanup_all_mounts(&mut self)
        requires
            old(self).wf(),
        ensures
            final(self).wf(),
            final(self)@ == (DaemonView {
                manager: all_unmounted(old(self)@),
                mounts: Map::empty(),
                ..old(self)@
            }),
    {
        let ghost was = self@;
        let ghost rows = self.mounts.rows@;
        proof {
            lemma_rows(self.mounts);
            assert(was.manager.mounts =~= was.manager.mounts.restrict(
                Set::new(|p: Text| !gone(rows, 0, p)),
            ));
            assert(was.manager.notifiers =~= was.manager.notifiers.restrict(
                Set::new(|k: (Text, Text)| !gone_notifier(was.manager, rows, 0, k)),
            ));
        }
        let mut i: usize = 0;
        while i < self.mounts.rows.len()
            invariant
                i <= self.mounts.rows@.len(),
                self.wf(),
                rows == self.mounts.rows@,
                self.shutdown == was.shutdown,
                self.manager@ == (ManagerView {
                    mounts: was.manager.mounts.restrict(
                        Set::new(|p: Text| !gone(rows, i as int, p)),
                    ),
                    notifiers: was.manager.notifiers.restrict(
                        Set::new(
                            |k: (Text, Text)| !gone_notifier(was.manager, rows, i as int, k),
                        ),
                    ),
                    ..was.manager
                }),
            decreases self.mounts.rows@.len() - i,
        {
            let ghost mid = self.manager@;
            let mountpoint = self.mounts.rows[i].0.clone();
            self.manager.unregister_mount(mountpoint.as_str());
            proof {
                let p = mountpoint@;
                assert(rows[i as int].0@ == p);
                assert forall|q: Text| #[trigger] gone(rows, i + 1, q) == (gone(rows, i as int, q)
                    || q == p) by {
                    if gone(rows, i + 1, q) && q != p {
                        let j = choose|j: int| 0 <= j < i + 1 && (#[trigger] rows[j]).0@ == q;
                        assert(rows[j].0@ == q);
                    }
                    if gone(rows, i as int, q) {
                        let j = choose|j: int| 0 <= j < i && (#[trigger] rows[j]).0@ == q;
                        assert(rows[j].0@ == q);
                    }
                }
                assert(self.manager@.mounts =~= was.manager.mounts.restrict(
                    Set::new(|q: Text| !gone(rows, i + 1, q)),
                ));
                assert(self.manager@.notifiers =~= was.manager.notifiers.restrict(
                    Set::new(|k: (Text, Text)| !gone_notifier(was.manager, rows, i + 1, k)),
                ));
            }
            i = i + 1;
        }
        proof {
            let n = rows.len() as int;
            assert forall|p: Text| #[trigger] gone(rows, n, p) == was.mounts.dom().contains(p) by {
                if gone(rows, n, p) {
                    let j = choose|j: int| 0 <= j < n && (#[trigger] rows[j]).0@ == p;
                    assert(was.mounts.dom().contains(rows[j].0@));
                }
                if was.mounts.dom().contains(p) {
                    let j = choose|j: int| 0 <= j < n && (#[trigger] rows[j]).0@ == p;
                    assert(rows[j].0@ == p);
                }
            }
            assert(self.manager@.mounts =~= all_unmounted(was).mounts);
            assert(self.manager@.notifiers =~= all_unmounted(was).notifiers);
        }
        self.mounts.clear();
    }

    pub fn mount_count(&self) -> (r: usize)
        requires
            self.wf(),
        ensures
            r == self@.mounts.dom().len(),
    {
        proof {
            lemma_row_count(self.mounts);
        }
        self.mounts.len()
    }

    /// Creates a branch, lazily or not, whose directory in the store holds `stored`.
    pub fn create_branch(
        &mut self,
        name: &str,
        parent: &str,
        lazy: bool,
        hide: Vec<String>,
        stored: StoredState,
    ) -> (r: Result<(), BranchError>)
        requires
            old(self).wf(),
            stored.touches.wf(),
        ensures
            final(self).wf(),
            r is Ok <==> create_fault(old(self)@.manager.branches, name@, parent@) is None,
            r matches Err(e) ==> {
                &&& Some(e@) == create_fault(old(self)@.manager.branches, name@, parent@)
                &&& final(self)@ == old(self)@
            },
            r is Ok ==> final(self)@ == (DaemonView {
                manager: old(self)@.manager.grown(
                    forked(
                        old(self)@.manager.branches,
                        name@,
                        parent@,
                        if lazy {
                            InheritanceMode::Lazy
                        } else {
                            InheritanceMode::Snapshot
                        },
                        texts(hide@),
                        stored.tombs(),
                        stored.first_touches(),
                    ),
                ),
                ..old(self)@
            }),
    {
        let mode = inheritance_of(lazy);
        self.manager.create_branch_with_options(name, parent, mode, hide, stored)
    }

    /// Every branch with its parent, each once.
    pub fn list_branches(&self) -> (r: Vec<(String, Option<String>)>)
        requires
            self.wf(),
        ensures
            forall|i: int|
                0 <= i < r@.len() ==> self@.manager.branches.dom().contains((#[trigger] r@[i]).0@)
                    && opt_text(r@[i].1) == self@.manager.branches[r@[i].0@].parent,
            forall|k: Text| #[trigger]
                self@.manager.branches.dom().contains(k) ==> exists|i: int|
                    0 <= i < r@.len() && (#[trigger] r@[i]).0@ == k,
            forall|i: int, j: int|
                0 <= i < j < r@.len() ==> (#[trigger] r@[i]).0@ != (#[trigger] r@[j]).0@,
    {
        self.manager.list_branches()
    }

    pub fn get_manager(&self) -> (r: &BranchManager)
        ensures
            *r == self.manager,
    {
        &self.manager
    }

    fn branch_names(&self) -> (r: Vec<String>)
        requires
            self.wf(),
        ensures
            texts(r@).no_duplicates(),
            texts(r@).to_set() == self@.manager.branches.dom(),
    {
        let all = self.list_branches();
        let mut names: Vec<String> = Vec::new();
        let mut i: usize = 0;
        while i < all.len()
            invariant
                i <= all@.len(),
                names@.len() == i,
                forall|j: int| 0 <= j < i ==> (#[trigger] names@[j])@ == all@[j].0@,
            decreases all@.len() - i,
        {
            names.push(all[i].0.clone());
            i = i + 1;
        }
        proof {
            let t = texts(names@);
            assert forall|a: int, b: int| 0 <= a < t.len() && 0 <= b < t.len() && a != b implies t[a]
                != t[b] by {
                assert(t[a] == all@[a].0@);
                assert(t[b] == all@[b].0@);
            }
            assert forall|k: Text| #[trigger] t.to_set().contains(k)
                == self@.manager.branches.dom().contains(k) by {
                if t.contains(k) {
                    let j = choose|j: int| 0 <= j < t.len() && t[j] == k;
                    assert(all@[j].0@ == k);
                }
                if self@.manager.branches.dom().contains(k) {
                    let j = choose|j: int| 0 <= j < all@.len() && (#[trigger] all@[j]).0@ == k;
                    assert(t[j] == k);
                }
            }
            assert(t.to_set() =~= self@.manager.branches.dom());
        }
        names
    }

    /// Takes a request: what needs nothing but the daemon's own state is done and answered, the
    /// rest is left to do.
    pub fn handle_request(&mut self, request: Request) -> (r: Job)
        requires
            old(self).wf(),
        ensures
            final(self).wf(),
            job_of(old(self)@, request, r),
            final(self)@ == after_request(old(self)@, request),
    {
        match request {
            Request::Mount { branch, mountpoint, passthrough, control, allow_other } => {
                Job::Mount { branch, mountpoint, passthrough, control, allow_other }
            },
            Request::Unmount { mountpoint } => {
                Job::Answer(Response::of(self.unmount(mountpoint.as_str())))
            },
            Request::Create { name, parent, lazy, hide } => {
                Job::Create { name, parent, inheritance: inheritance_of(lazy), hide }
            },
            Request::Freeze { branch } => Job::Freeze(branch),
            Request::Thaw { branch } => Job::Thaw(branch),
            Request::Status { branch } => Job::Status(branch),
            Request::CommitBranch { branch } => Job::Commit(branch),
            Request::AbortBranch { branch } => Job::Abort(branch),
            Request::RevertPath { branch, path } => Job::Revert(branch, path),
            Request::GetMountBranch { mountpoint } => {
                match self.manager.get_mount_branch(mountpoint.as_str()) {
                    Some(b) => Job::Answer(Response::success_with_data(ResponseData::Branch(b))),
                    None => {
                        let message = concat(
                            "Mount not found: ",
                            quote(mountpoint.as_str()).as_str(),
                        );
                        Job::Answer(Response::error(message.as_str()))
                    },
                }
            },
            Request::List => Job::List(self.branch_names()),
            Request::Shutdown => {
                self.cleanup_all_mounts();
                self.shutdown = true;
                Job::Answer(Response::success())
            },
        }
    }

    /// Whether the daemon is to stop.
    pub fn stopping(&self) -> (r: bool)
        ensures
            r == self@.shutdown,
    {
        self.shutdown
    }
}

/// Whether a path is one of the first `n` keys.
spec fn gone(rows: Seq<(String, u64)>, n: int, p: Text) -> bool {
    exists|j: int| 0 <= j < n && (#[trigger] rows[j]).0@ == p
}

/// Whether a notifier belongs to one of the first `n` mounts.
spec fn gone_notifier(m: ManagerView, rows: Seq<(String, u64)>, n: int, k: (Text, Text)) -> bool {
    gone(rows, n, k.1) && m.mounts.dom().contains(k.1) && m.mounts[k.1] == k.0
}

fn inheritance_of(lazy: bool) -> (r: InheritanceMode)
    ensures
        r == if lazy {
            InheritanceMode::Lazy
        } else {
            InheritanceMode::Snapshot
        },
{
    if lazy {
        InheritanceMode::Lazy
    } else {
        InheritanceMode::Snapshot
    }
}

/// Why a daemon cannot be started.
pub open spec fn no_base_message() -> Text {
    "No daemon running and --base not specified. Use --base on first mount."@
}

/// The base directory for a daemon that is to be started: the one that is given, else the one
/// that the store has on record. `Ok(None)` if a daemon runs already.
pub fn ensure_daemon(running: bool, given: Option<&str>, recorded: Option<&str>) -> (r: Result<
    Option<String>,
    String,
>)
    ensures
        running ==> r == Ok::<Option<String>, String>(None),
        !running ==> (match (given, recorded) {
            (Some(p), _) => r matches Ok(Some(b)) && b@ == p@,
            (None, Some(p)) => r matches Ok(Some(b)) && b@ == trim_space(p@),
            (None, None) => r matches Err(m) && m@ == no_base_message(),
        }),
{
    if running {
        return Ok(None);
    }
    match (given, recorded) {
        (Some(p), _) => Ok(Some(p.to_owned())),
        (None, Some(p)) => Ok(Some(without_space(p).to_owned())),
        (None, None) => Err(
            "No daemon running and --base not specified. Use --base on first mount.".to_owned(),
        ),
    }
}

/// Whether a mount shows its controls, given the two ways to ask that it does not.
pub fn control_shown(no_control: bool, agent: bool) -> (r: bool)
    ensures
        r == !(no_control || agent),
{
    !(no_control || agent)
}

/// When a mount ends, the daemon forgets it and no other, and stops exactly if that was the last
/// one or it was to stop already.
pub proof fn law_daemon_stops_with_its_last_mount(d: DaemonView, mountpoint: Text)
    requires
        d.mounts.dom().contains(mountpoint),
    ensures
        ({
            let after = after_unmount(d, mountpoint);
            &&& after.mounts == d.mounts.remove(mountpoint)
            &&& !after.manager.mounts.dom().contains(mountpoint)
            &&& after.manager.branches == d.manager.branches
            &&& !d.shutdown ==> (after.shutdown <==> forall|p: Text| #[trigger]
                d.mounts.dom().contains(p) ==> p == mountpoint)
            &&& d.shutdown ==> after.shutdown
        }),
{
    let left = d.mounts.remove(mountpoint);
    if left.dom() =~= Set::empty() {
        assert forall|p: Text| #[trigger] d.mounts.dom().contains(p) implies p == mountpoint by {
            if p != mountpoint {
                assert(left.dom().contains(p));
            }
        }
    }
}

/// Stopping the daemon ends every mount that it keeps, and changes no branch.
pub proof fn law_shutdown_ends_all_mounts(d: DaemonView)
    ensures
        ({
            let after = after_request(d, Request::Shutdown);
            &&& after.shutdown
            &&& after.mounts.dom() =~= Set::<Text>::empty()
            &&& forall|p: Text| #[trigger]
                d.mounts.dom().contains(p) ==> !after.manager.mounts.dom().contains(p)
            &&& forall|p: Text|
                d.manager.mounts.dom().contains(p) && !d.mounts.dom().contains(p) ==> #[trigger]
                after.manager.mounts.dom().contains(p)
            &&& after.manager.branches == d.manager.branches
            &&& after.manager.quota == d.manager.quota
        }),
{
}

/// A request about a branch is carried out on that branch, as what it asks for, and taking it
/// changes nothing yet.
pub proof fn law_requests_become_their_jobs(d: DaemonView, branch: String, path: String, job: Job)
    ensures
        job_of(d, Request::Freeze { branch }, job) ==> job == Job::Freeze(branch),
        job_of(d, Request::Thaw { branch }, job) ==> job == Job::Thaw(branch),
        job_of(d, Request::Status { branch }, job) ==> job == Job::Status(branch),
        job_of(d, Request::CommitBranch { branch }, job) ==> job == Job::Commit(branch),
        job_of(d, Request::AbortBranch { branch }, job) ==> job == Job::Abort(branch),
        job_of(d, Request::RevertPath { branch, path }, job) ==> job == Job::Revert(branch, path),
        after_request(d, Request::Freeze { branch }) == d,
        after_request(d, Request::Thaw { branch }) == d,
        after_request(d, Request::Status { branch }) == d,
        after_request(d, Request::CommitBranch { branch }) == d,
        after_request(d, Request::AbortBranch { branch }) == d,
        after_request(d, Request::RevertPath { branch, path }) == d,
        after_request(d, Request::List) == d,
{
}

/// A mount is answered with the branch that it shows, and a list names every branch once.
pub proof fn law_questions_are_answered(d: DaemonView, mountpoint: String, job: Job)
    ensures
        job_of(d, Request::GetMountBranch { mountpoint }, job) ==> (job matches Job::Answer(r) && (
        r.ok <==> d.manager.mounts.dom().contains(mountpoint@)) && (r.ok ==> (r.data matches Some(
            ResponseData::Branch(b),
        ) && b@ == d.manager.mounts[mountpoint@]))),
        job_of(d, Request::List, job) ==> (job matches Job::List(names) && texts(
            names@,
        ).no_duplicates() && forall|b: Text| #[trigger]
            texts(names@).to_set().contains(b) <==> d.manager.branches.dom().contains(b)),
{
}

/// A branch is created with the name, the parent and the hide rules that are asked for, looking
/// through its parent exactly if that is asked for, and a mount shows the branch that is asked
/// for, where and as it is asked for.
pub proof fn law_new_branches_and_mounts_are_as_asked(
    d: DaemonView,
    name: String,
    other: String,
    hide: Vec<String>,
    a: bool,
    b: bool,
    c: bool,
    job: Job,
)
    ensures
        job_of(d, Request::Create { name, parent: other, lazy: a, hide }, job) ==> {
            &&& job is Create
            &&& job->name == name && job->parent == other && job->hide == hide
            &&& job->inheritance == InheritanceMode::Lazy <==> a
        },
        job_of(
            d,
            Request::Mount {
                branch: name,
                mountpoint: other,
                passthrough: a,
                control: b,
                allow_other: c,
            },
            job,
        ) ==> {
            &&& job is Mount
            &&& job->branch == name && job->mountpoint == other
            &&& job->passthrough == a && job->control == b && job->allow_other == c
        },
        job_of(d, Request::Unmount { mountpoint: other }, job) ==> (job matches Job::Answer(r) && (
        r.ok <==> d.mounts.dom().contains(other@)) && (r.ok <==> r.error is None)),
{
}

} // verus!
