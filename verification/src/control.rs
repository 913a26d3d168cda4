//! The control files of a mount: the commands that are written to them, the requests that are
//! made through them, and what a mount does afterwards.

use vstd::prelude::*;
use vstd::string::*;
use vstd::utf8::encode_utf8;

use crate::context::{branch_path, branch_path_of};
use crate::errors::{BranchError, Errno};
use crate::fs::{current, stale, valid, BranchFs, FsView, CTL_INO};
use crate::inode::path_of;
use crate::manager::{BranchManager, ManagerView, ROOT_INO};
use crate::paths::under;
use crate::quota::StorageQuota;
use crate::text::{begins_with, drop_chars, same, trim_space, without_space, Text};

verus! {

/// Asks for a new branch on top of the one that the control file stands for; the answer is the
/// name of the branch.
pub const FS_IOC_BRANCH_CREATE: u32 = 0x8080_6200;

/// Asks for a commit of the branch that the control file stands for.
pub const FS_IOC_BRANCH_COMMIT: u32 = 0x6201;

/// Asks to abort the branch that the control file stands for.
pub const FS_IOC_BRANCH_ABORT: u32 = 0x6202;

/// The size of the answer to a request for a new branch.
pub const NAME_BUFFER: usize = 128;

/// The size of the blocks in which the storage is reported.
pub const STAT_BLOCK: u64 = 4096;

/// What is asked through a control file.
pub enum CtlCommand {
    /// A new branch of this name, on top of the branch that the file stands for.
    Create(String),
    Commit,
    Abort,
    /// Show another branch.
    Switch(String),
    Unknown,
}

pub enum CommandView {
    Create(Text),
    Commit,
    Abort,
    Switch(Text),
    Unknown,
}

impl View for CtlCommand {
    type V = CommandView;

    open spec fn view(&self) -> CommandView {
        match self {
            CtlCommand::Create(n) => CommandView::Create(n@),
            CtlCommand::Commit => CommandView::Commit,
            CtlCommand::Abort => CommandView::Abort,
            CtlCommand::Switch(n) => CommandView::Switch(n@),
            CtlCommand::Unknown => CommandView::Unknown,
        }
    }
}

/// The command that a text is; white space around it does not count.
pub open spec fn ctl_command(text: Text) -> CommandView {
    let t = trim_space(text);
    if t == "commit"@ {
        CommandView::Commit
    } else if t == "abort"@ {
        CommandView::Abort
    } else if "create:"@.is_prefix_of(t) {
        CommandView::Create(t.skip(7))
    } else if "switch:"@.is_prefix_of(t) {
        CommandView::Switch(t.skip(7))
    } else {
        CommandView::Unknown
    }
}

/// Reads a command that was written to a control file.
pub fn parse_ctl(text: &str) -> (r: CtlCommand)
    ensures
        r@ == ctl_command(text@),
{
    proof {
        reveal_strlit("create:");
        reveal_strlit("switch:");
    }
    let t = without_space(text);
    if same(t, "commit") {
        CtlCommand::Commit
    } else if same(t, "abort") {
        CtlCommand::Abort
    } else if begins_with(t, "create:") {
        CtlCommand::Create(drop_chars(t, 7).to_owned())
    } else if begins_with(t, "switch:") {
        CtlCommand::Switch(drop_chars(t, 7).to_owned())
    } else {
        CtlCommand::Unknown
    }
}

/// What a request through a control file asks for.
#[derive(Clone, Copy, Debug, PartialEq, Eq, Structural)]
pub enum CtlRequest {
    Create,
    Commit,
    Abort,
}

/// The request with this number; others are not known to control files.
pub fn ctl_request(cmd: u32) -> (r: Result<CtlRequest, Errno>)
    ensures
        r is Ok <==> cmd == FS_IOC_BRANCH_CREATE || cmd == FS_IOC_BRANCH_COMMIT || cmd
            == FS_IOC_BRANCH_ABORT,
        r matches Ok(q) ==> q == if cmd == FS_IOC_BRANCH_CREATE {
            CtlRequest::Create
        } else if cmd == FS_IOC_BRANCH_COMMIT {
            CtlRequest::Commit
        } else {
            CtlRequest::Abort
        },
        r matches Err(e) ==> e == Errno::Enotty,
{
    if cmd == FS_IOC_BRANCH_CREATE {
        Ok(CtlRequest::Create)
    } else if cmd == FS_IOC_BRANCH_COMMIT {
        Ok(CtlRequest::Commit)
    } else if cmd == FS_IOC_BRANCH_ABORT {
        Ok(CtlRequest::Abort)
    } else {
        Err(Errno::Enotty)
    }
}

/// What a request is answered with when the branch operation fails: a commit that lost to
/// another one makes the file stale.
pub fn request_errno(request: CtlRequest, e: &BranchError) -> (r: Errno)
    ensures
        r == if request == CtlRequest::Commit && e@ is Conflict {
            Errno::Estale
        } else {
            Errno::Eio
        },
{
    match e {
        BranchError::Conflict(_) if request == CtlRequest::Commit => Errno::Estale,
        _ => Errno::Eio,
    }
}

/// Whether a buffer holds the name of a branch, cut to leave room for the zero that ends it, and
/// zeros from there on.
pub open spec fn holds_name(buffer: Seq<u8>, name: Seq<u8>) -> bool {
    &&& buffer.len() == NAME_BUFFER
    &&& forall|i: int|
        0 <= i < NAME_BUFFER ==> #[trigger] buffer[i] == if i < name.len() && i < NAME_BUFFER - 1 {
            name[i]
        } else {
            0u8
        }
}

/// The answer to a request for a new branch.
pub fn name_buffer(name: &str) -> (r: Vec<u8>)
    ensures
        holds_name(r@, encode_utf8(name@)),
{
    let bytes = name.as_bytes();
    let mut out: Vec<u8> = Vec::new();
    let mut i: usize = 0;
    while i < NAME_BUFFER
        invariant
            i <= NAME_BUFFER,
            out@.len() == i,
            forall|j: int|
                0 <= j < i ==> #[trigger] out@[j] == if j < bytes@.len() && j < NAME_BUFFER - 1 {
                    bytes@[j]
                } else {
                    0u8
                },
        decreases NAME_BUFFER - i,
    {
        if i < bytes.len() && i < NAME_BUFFER - 1 {
            out.push(bytes[i]);
        } else {
            out.push(0);
        }
        i = i + 1;
    }
    out
}

/// The storage as a limit makes it look: all blocks, and those that are left.
pub struct Blocks {
    pub total: u64,
    pub available: u64,
}

/// The blocks of a storage with a limit; `None` without one.
pub fn quota_blocks(quota: &StorageQuota) -> (r: Option<Blocks>)
    ensures
        r is Some <==> quota@.max is Some,
        r matches Some(b) ==> {
            let max = quota@.max->0 as int;
            let used = if quota@.used < 0 {
                0
            } else if quota@.used > max {
                max
            } else {
                quota@.used
            };
            b.total == max / 4096 && b.available == max / 4096 - used / 4096
        },
{
    match quota.max() {
        None => None,
        Some(max) => {
            let mut used = quota.used();
            if used > max {
                used = max;
            }
            let total: u64 = max / STAT_BLOCK;
            let taken: u64 = used / STAT_BLOCK;
            Some(Blocks { total, available: total - taken })
        },
    }
}

/// The bits of the flags of an open call that tell how the file is to be used.
#[derive(Clone, Copy, Debug, PartialEq, Eq, Structural)]
pub struct OpenBits {
    pub access: i32,
    pub read_only: i32,
    pub truncate: i32,
    pub append: i32,
}

impl OpenBits {
    /// Whether these are the bits of Linux, a BSD or macOS. The two lowest bits tell the access
    /// mode, which is zero for reading; with musl one more bit belongs to it. The bits that
    /// truncate and append depend on the system and, on Linux, on the processor.
    pub open spec fn usual(self) -> bool {
        &&& self.read_only == 0
        &&& self.access == 3 || self.access == 0x20_0003
        &&& {
            ||| self.truncate == 0x200 && self.append == 0x400
            ||| self.truncate == 0x200 && self.append == 8
            ||| self.truncate == 0x400 && self.append == 8
        }
    }
}

/// The constants `O_ACCMODE`, `O_RDONLY`, `O_TRUNC` and `O_APPEND` of the `libc` crate, on Linux,
/// the BSDs and macOS: one of the sets of bits that these systems have. Which one it is depends on
/// the target, so that is left unsaid.
#[verifier::external_body]
fn open_bits() -> (r: OpenBits)
    ensures
        r.usual(),
{
    OpenBits {
        access: libc::O_ACCMODE,
        read_only: libc::O_RDONLY,
        truncate: libc::O_TRUNC,
        append: libc::O_APPEND,
    }
}

proof fn lemma_access(flags: i32)
    ensures
        flags & 3 != 0 ==> flags & 0x20_0003 != 0,
        flags & 0x20_0003 == 0 ==> flags & 3 == 0,
{
    assert(flags & 3 != 0 ==> flags & 0x20_0003 != 0) by (bit_vector);
}

/// The bits that may truncate or append, alone and together.
proof fn lemma_more_than_reading(flags: i32)
    ensures
        flags & 0x608 == 0 ==> flags & 0x200 == 0 && flags & 0x400 == 0 && flags & 8 == 0,
        flags & 0x600 == 0x600 ==> flags & 0x200 != 0 && flags & 0x400 != 0,
        flags & 0x208 == 0x208 ==> flags & 0x200 != 0 && flags & 8 != 0,
        flags & 0x408 == 0x408 ==> flags & 0x400 != 0 && flags & 8 != 0,
{
    assert(flags & 0x608 == 0 ==> flags & 0x200 == 0 && flags & 0x400 == 0 && flags & 8 == 0)
        by (bit_vector);
    assert(flags & 0x600 == 0x600 ==> flags & 0x200 != 0 && flags & 0x400 != 0) by (bit_vector);
    assert(flags & 0x208 == 0x208 ==> flags & 0x200 != 0 && flags & 8 != 0) by (bit_vector);
    assert(flags & 0x408 == 0x408 ==> flags & 0x400 != 0 && flags & 8 != 0) by (bit_vector);
}

/// Whether these flags ask for more than reading.
pub open spec fn asks_to_write(flags: i32, bits: OpenBits) -> bool {
    flags & bits.access != bits.read_only || flags & bits.truncate != 0 || flags & bits.append != 0
}

/// Whether these flags ask for more than reading, on a system with these bits.
pub fn wants_write(flags: i32, bits: OpenBits) -> (r: bool)
    ensures
        r == asks_to_write(flags, bits),
{
    flags & bits.access != bits.read_only || flags & bits.truncate != 0 || flags & bits.append != 0
}

/// Whether the access mode alone asks for more than reading.
pub open spec fn mode_asks_to_write(flags: i32, bits: OpenBits) -> bool {
    flags & bits.access != bits.read_only
}

/// Whether the access mode alone asks for more than reading, on a system with these bits.
pub fn write_access(flags: i32, bits: OpenBits) -> (r: bool)
    ensures
        r == mode_asks_to_write(flags, bits),
{
    flags & bits.access != bits.read_only
}

/// The branch that is meant by a request through a file, or why the file takes none: it is no
/// control file, or the mount hides its controls.
pub open spec fn request_branch(f: FsView, mv: ManagerView, ino: u64) -> Result<Text, Errno> {
    let branch = if ino == CTL_INO {
        Some(current(f, mv))
    } else {
        path_of(f.ctl, ino)
    };
    match branch {
        Some(b) => if f.expose {
            Ok(b)
        } else {
            Err(Errno::Eperm)
        },
        None => Err(Errno::Enotty),
    }
}

impl BranchFs {
    /// Whether these flags of an open call ask for more than reading: by their access mode, or to
    /// truncate or append. Which bits ask for the latter is up to the system; flags that truncate
    /// or append on every system ask for more, and flags without any such bit do not.
    pub fn flags_want_write(flags: i32) -> (r: bool)
        ensures
            flags & 3 != 0 ==> r,
            flags & 0x600 == 0x600 ==> r,
            flags & 0x208 == 0x208 ==> r,
            flags & 0x408 == 0x408 ==> r,
            flags & 0x20_0003 == 0 && flags & 0x608 == 0 ==> !r,
            exists|bits: OpenBits| bits.usual() && r == #[trigger] asks_to_write(flags, bits),
    {
        let bits = open_bits();
        proof {
            lemma_access(flags);
            lemma_more_than_reading(flags);
        }
        wants_write(flags, bits)
    }

    /// Whether the access mode in these flags of an open call asks for more than reading.
    pub fn mode_wants_write(flags: i32) -> (r: bool)
        ensures
            flags & 3 != 0 ==> r,
            flags & 0x20_0003 == 0 ==> !r,
            exists|bits: OpenBits| bits.usual() && r == #[trigger] mode_asks_to_write(flags, bits),
    {
        let bits = open_bits();
        proof {
            lemma_access(flags);
        }
        write_access(flags, bits)
    }

    /// Takes the owner of the mounted files from a request. The first request may come from the
    /// kernel rather than from the mounting user, so a root owner is not taken.
    pub fn adopt_owner(&mut self, uid: u32, gid: u32)
        requires
            old(self).wf(),
        ensures
            final(self).wf(),
            final(self)@ == (if uid != 0 {
                FsView { uid, gid, ..old(self)@ }
            } else {
                old(self)@
            }),
            final(self).inodes == old(self).inodes,
            final(self).next_ctl_ino == old(self).next_ctl_ino,
    {
        if uid != 0 {
            self.uid = uid;
            self.gid = gid;
        }
    }

    /// The branch that a control file stands for. A mount that hides its controls takes no
    /// requests through them.
    pub fn ctl_branch(&self, manager: &BranchManager, ino: u64) -> (r: Result<String, Errno>)
        requires
            self.wf(),
            manager.wf(),
        ensures
            (match r {
                Ok(b) => Ok(b@),
                Err(e) => Err(e),
            }) == request_branch(self@, manager@, ino),
    {
        let branch = if ino == CTL_INO {
            Some(self.get_branch_name(manager))
        } else {
            self.branch_for_ctl_ino(ino)
        };
        match branch {
            Some(b) => if self.expose_control {
                Ok(b)
            } else {
                Err(Errno::Eperm)
            },
            None => Err(Errno::Enotty),
        }
    }

    /// Shows another branch, if there is one of that name.
    pub fn switch(&mut self, manager: &mut BranchManager, name: &str) -> (r: Result<(), Errno>)
        requires
            old(self).wf(),
            old(manager).wf(),
        ensures
            final(self).wf(),
            final(manager).wf(),
            final(self).inodes.next_ino == old(self).inodes.next_ino,
            final(self).next_ctl_ino == old(self).next_ctl_ino,
            r is Ok <==> valid(old(manager)@, name@),
            r matches Err(e) ==> {
                &&& e == Errno::Enoent
                &&& final(self)@ == old(self)@
                &&& final(manager)@ == old(manager)@
            },
            r is Ok ==> {
                &&& final(manager)@ == old(manager)@.switched(old(self)@.mountpoint, name@)
                &&& final(self)@ == (FsView {
                    epoch: old(manager)@.epoch,
                    inodes: Map::<Text, u64>::empty().insert(seq!['/'], ROOT_INO),
                    open: old(self)@.open.emptied(),
                    write: old(self)@.write.emptied(),
                    ..old(self)@
                })
                &&& current(final(self)@, final(manager)@) == name@
                &&& !stale(final(self)@, final(manager)@)
            },
    {
        if !manager.is_branch_valid(name) {
            return Err(Errno::Enoent);
        }
        self.switch_to_branch(manager, name);
        Ok(())
    }

    /// Carries on after a branch was committed or aborted through this mount: a mount that showed
    /// the branch shows its parent now, any other forgets the paths of the branch. Either way it
    /// is up to date, and the files that were kept open are let go.
    pub fn after_end(&mut self, manager: &mut BranchManager, branch: &str, parent: &str)
        requires
            old(self).wf(),
            old(manager).wf(),
        ensures
            final(self).wf(),
            final(manager).wf(),
            final(self).inodes.next_ino == old(self).inodes.next_ino,
            final(self).next_ctl_ino == old(self).next_ctl_ino,
            current(old(self)@, old(manager)@) == branch@ ==> {
                &&& final(manager)@ == old(manager)@.switched(old(self)@.mountpoint, parent@)
                &&& final(self)@ == (FsView {
                    epoch: old(manager)@.epoch,
                    inodes: Map::<Text, u64>::empty().insert(seq!['/'], ROOT_INO),
                    open: old(self)@.open.emptied(),
                    write: old(self)@.write.emptied(),
                    ..old(self)@
                })
                &&& current(final(self)@, final(manager)@) == parent@
                &&& stale(final(self)@, final(manager)@) == !valid(old(manager)@, parent@)
            },
            current(old(self)@, old(manager)@) != branch@ ==> {
                &&& final(manager)@ == old(manager)@
                &&& final(self)@ == (FsView {
                    epoch: old(manager)@.epoch,
                    inodes: old(self)@.inodes.restrict(
                        Set::new(
                            |p: Text|
                                p == seq!['/'] || !under(branch_path(branch@, seq![]), p),
                        ),
                    ),
                    open: old(self)@.open.emptied(),
                    write: old(self)@.write.emptied(),
                    ..old(self)@
                })
            },
    {
        let shown = self.get_branch_name(manager);
        if same(shown.as_str(), branch) {
            self.switch_to_branch(manager, parent);
        } else {
            proof {
                reveal_strlit("");
                assert(""@ =~= seq![]);
            }
            let dir = branch_path_of(branch, "");
            self.inodes.clear_prefix(dir.as_str());
            self.open_cache.clear();
            self.write_cache.clear();
            self.catch_up(manager);
        }
    }
}

/// A name that leaves room for the zero is read back whole from the answer.
pub proof fn law_short_names_fit(buffer: Seq<u8>, name: Seq<u8>)
    requires
        holds_name(buffer, name),
        name.len() < NAME_BUFFER,
    ensures
        buffer.take(name.len() as int) == name,
        buffer[name.len() as int] == 0,
{
    assert(buffer.take(name.len() as int) =~= name);
}

/// A command is read as what it says, whatever white space stands around it: `commit` and `abort`
/// by themselves, and `create:` and `switch:` with the name that follows.
pub proof fn law_commands_are_read(text: Text, name: Text)
    ensures
        trim_space(text) == "commit"@ ==> ctl_command(text) == CommandView::Commit,
        trim_space(text) == "abort"@ ==> ctl_command(text) == CommandView::Abort,
        trim_space(text) == "create:"@ + name ==> ctl_command(text) == CommandView::Create(name),
        trim_space(text) == "switch:"@ + name ==> ctl_command(text) == CommandView::Switch(name),
        ctl_command(text) is Commit ==> trim_space(text) == "commit"@,
        ctl_command(text) is Abort ==> trim_space(text) == "abort"@,
        ctl_command(text) matches CommandView::Create(n) ==> trim_space(text) == "create:"@ + n,
        ctl_command(text) matches CommandView::Switch(n) ==> trim_space(text) == "switch:"@ + n,
{
    reveal_strlit("commit");
    reveal_strlit("abort");
    reveal_strlit("create:");
    reveal_strlit("switch:");
    let t = trim_space(text);
    assert("abort"@[0] != "commit"@[0]);
    if t == "create:"@ + name {
        assert(t[1] == "create:"@[1]);
        assert("commit"@[1] != 'r');
        assert(t[0] == "create:"@[0]);
        assert("abort"@[0] != 'c');
        assert("create:"@ =~= t.take(7));
        assert(t.skip(7) =~= name);
    }
    if t == "switch:"@ + name {
        assert(t[0] == "switch:"@[0]);
        assert("commit"@[0] != 's' && "abort"@[0] != 's' && "create:"@[0] != 's');
        assert(!"create:"@.is_prefix_of(t));
        assert("switch:"@ =~= t.take(7));
        assert(t.skip(7) =~= name);
    }
    if "create:"@.is_prefix_of(t) {
        assert(t =~= "create:"@ + t.skip(7));
    }
    if "switch:"@.is_prefix_of(t) {
        assert(t =~= "switch:"@ + t.skip(7));
    }
}

/// A request through the control file of a mount is about the branch that the mount shows, and one
/// through that of a branch about that branch. A mount that hides its controls takes none.
pub proof fn law_requests_are_about_their_branch(f: FsView, mv: ManagerView, ino: u64, branch: Text)
    requires
        f.expose,
        !f.ctl.dom().contains(branch) || f.ctl[branch] != CTL_INO,
        crate::inode::injective(f.ctl),
    ensures
        mv.mounts.dom().contains(f.mountpoint) ==> request_branch(f, mv, CTL_INO) == Ok::<
            Text,
            Errno,
        >(mv.mounts[f.mountpoint]),
        f.ctl.dom().contains(branch) && f.ctl[branch] == ino ==> request_branch(f, mv, ino) == Ok::<
            Text,
            Errno,
        >(branch),
        ino != CTL_INO && (forall|b: Text| #[trigger] f.ctl.dom().contains(b) ==> f.ctl[b] != ino)
            ==> request_branch(f, mv, ino) == Err::<Text, Errno>(Errno::Enotty),
{
}

} // verus!
