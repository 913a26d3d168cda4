//! Directory trees as they were read from disk.

use vstd::prelude::*;
use vstd::string::*;

use crate::records::{diff_views, DiffEntry, DiffView};
use crate::text::{concat, same, texts, Text};

verus! {

/// What stands at a path; the number is the length that the entry itself reports.
pub enum Node {
    Dir(Vec<DirEntry>),
    File(u64),
    Symlink(u64),
    Other(u64),
}

/// One name of a directory with what it stands for.
pub struct DirEntry {
    /// The name as text. Where the name is no text, this is the nearest text to it.
    pub name: String,
    /// The bytes of the name.
    pub raw: Vec<u8>,
    pub node: Node,
}

/// A file of a delta: the path that it has in the branch, and the bytes of its path on disk below
/// the directory of the delta.
pub struct DeltaFile {
    pub path: String,
    pub raw: Vec<u8>,
}

pub struct DeltaFileView {
    pub path: Text,
    pub raw: Seq<u8>,
}

impl View for DeltaFile {
    type V = DeltaFileView;

    open spec fn view(&self) -> DeltaFileView {
        DeltaFileView { path: self.path@, raw: self.raw@ }
    }
}

pub open spec fn file_views(files: Seq<DeltaFile>) -> Seq<DeltaFileView> {
    files.map_values(|f: DeltaFile| f@)
}

/// The paths of files in the branch.
pub open spec fn file_texts(files: Seq<DeltaFileView>) -> Seq<Text> {
    files.map_values(|f: DeltaFileView| f.path)
}

/// The bytes that an entry holds: its own length, or the sum over a directory.
pub open spec fn node_bytes(n: Node) -> nat
    decreases n,
{
    match n {
        Node::Dir(entries) => list_bytes(entries@),
        Node::File(len) => len as nat,
        Node::Symlink(len) => len as nat,
        Node::Other(len) => len as nat,
    }
}

/// The bytes that the entries of a directory hold together.
pub open spec fn list_bytes(entries: Seq<DirEntry>) -> nat
    decreases entries,
{
    if entries.len() == 0 {
        0
    } else {
        list_bytes(entries.drop_last()) + node_bytes(entries.last().node)
    }
}

/// The bytes below a directory with these entries.
pub fn dir_size(entries: &Vec<DirEntry>) -> (total: u64)
    requires
        list_bytes(entries@) <= u64::MAX,
    ensures
        total == list_bytes(entries@),
{
    match checked_dir_size(entries) {
        Some(total) => total,
        None => 0,
    }
}

/// The bytes below a directory with these entries, unless they are too many to count.
pub fn checked_dir_size(entries: &Vec<DirEntry>) -> (r: Option<u64>)
    ensures
        r is Some <==> list_bytes(entries@) <= u64::MAX,
        r is Some ==> r->0 == list_bytes(entries@),
    decreases entries@,
{
    let mut total: u64 = 0;
    let mut i: usize = 0;
    while i < entries.len()
        invariant
            i <= entries.len(),
            total == list_bytes(entries@.take(i as int)),
        decreases entries.len() - i,
    {
        proof {
            lemma_list_bytes_prefix(entries@, i + 1);
            assert(entries@.take(i + 1).drop_last() =~= entries@.take(i as int));
            assert(entries@.take(i + 1).last() == entries@[i as int]);
            reveal_with_fuel(list_bytes, 2);
            reveal_with_fuel(node_bytes, 2);
        }
        let size: Option<u64> = match &entries[i].node {
            Node::Dir(children) => checked_dir_size(children),
            Node::File(len) => Some(*len),
            Node::Symlink(len) => Some(*len),
            Node::Other(len) => Some(*len),
        };
        match checked_sum(total, size) {
            Some(sum) => total = sum,
            None => {
                return None;
            },
        }
        i = i + 1;
    }
    proof {
        assert(entries@.take(i as int) =~= entries@);
    }
    Some(total)
}

fn checked_sum(total: u64, size: Option<u64>) -> (r: Option<u64>)
    ensures
        r is Some <==> size is Some && total + size->0 <= u64::MAX,
        r is Some ==> r->0 == total + size->0,
{
    match size {
        Some(size) => total.checked_add(size),
        None => None,
    }
}

proof fn lemma_list_bytes_prefix(entries: Seq<DirEntry>, k: int)
    requires
        0 <= k <= entries.len(),
    ensures
        list_bytes(entries.take(k)) <= list_bytes(entries),
    decreases entries.len() - k,
{
    if k == entries.len() {
        assert(entries.take(k) =~= entries);
    } else {
        lemma_list_bytes_prefix(entries, k + 1);
        assert(entries.take(k + 1).drop_last() =~= entries.take(k));
    }
}

/// The bytes that the delta of a branch holds, whose directory has these entries: those of its
/// entry `files`.
pub open spec fn branch_bytes(entries: Seq<DirEntry>) -> nat
    decreases entries.len(),
{
    if entries.len() == 0 {
        0
    } else {
        branch_bytes(entries.drop_last()) + if entries.last().name@ == "files"@ {
            node_bytes(entries.last().node)
        } else {
            0
        }
    }
}

/// The bytes that the deltas of all branches hold, whose directories are these.
pub open spec fn delta_bytes(branches: Seq<DirEntry>) -> nat
    decreases branches.len(),
{
    if branches.len() == 0 {
        0
    } else {
        delta_bytes(branches.drop_last()) + match branches.last().node {
            Node::Dir(entries) => branch_bytes(entries@),
            _ => 0,
        }
    }
}

proof fn lemma_branch_bytes_prefix(entries: Seq<DirEntry>, k: int)
    requires
        0 <= k <= entries.len(),
    ensures
        branch_bytes(entries.take(k)) <= branch_bytes(entries),
    decreases entries.len() - k,
{
    if k == entries.len() {
        assert(entries.take(k) =~= entries);
    } else {
        lemma_branch_bytes_prefix(entries, k + 1);
        assert(entries.take(k + 1).drop_last() =~= entries.take(k));
    }
}

proof fn lemma_delta_bytes_prefix(branches: Seq<DirEntry>, k: int)
    requires
        0 <= k <= branches.len(),
    ensures
        delta_bytes(branches.take(k)) <= delta_bytes(branches),
    decreases branches.len() - k,
{
    if k == branches.len() {
        assert(branches.take(k) =~= branches);
    } else {
        lemma_delta_bytes_prefix(branches, k + 1);
        assert(branches.take(k + 1).drop_last() =~= branches.take(k));
    }
}

/// The bytes that an entry holds, which removing it frees.
pub fn node_size(node: &Node) -> (size: u64)
    requires
        node_bytes(*node) <= u64::MAX,
    ensures
        size == node_bytes(*node),
{
    match checked_node_size(node) {
        Some(size) => size,
        None => 0,
    }
}

/// The bytes that an entry holds, unless they are too many to count.
pub fn checked_node_size(node: &Node) -> (r: Option<u64>)
    ensures
        r is Some <==> node_bytes(*node) <= u64::MAX,
        r is Some ==> r->0 == node_bytes(*node),
{
    match node {
        Node::Dir(children) => checked_dir_size(children),
        Node::File(len) => Some(*len),
        Node::Symlink(len) => Some(*len),
        Node::Other(len) => Some(*len),
    }
}

/// Whether an entry is a directory with something in it. Removing such an entry by itself would
/// lose what it holds.
pub fn holds_entries(node: &Node) -> (r: bool)
    ensures
        r <==> (node matches Node::Dir(entries) && entries@.len() > 0),
{
    match node {
        Node::Dir(entries) => entries.len() > 0,
        _ => false,
    }
}

/// The bytes of the delta of one branch, unless they are too many to count.
fn branch_size(entries: &Vec<DirEntry>) -> (r: Option<u64>)
    ensures
        r is Some <==> branch_bytes(entries@) <= u64::MAX,
        r is Some ==> r->0 == branch_bytes(entries@),
{
    let mut total: u64 = 0;
    let mut i: usize = 0;
    while i < entries.len()
        invariant
            i <= entries.len(),
            total == branch_bytes(entries@.take(i as int)),
        decreases entries.len() - i,
    {
        proof {
            lemma_branch_bytes_prefix(entries@, i + 1);
            assert(entries@.take(i + 1).drop_last() =~= entries@.take(i as int));
            assert(entries@.take(i + 1).last() == entries@[i as int]);
        }
        if same(entries[i].name.as_str(), "files") {
            match checked_sum(total, checked_node_size(&entries[i].node)) {
                Some(sum) => total = sum,
                None => {
                    return None;
                },
            }
        }
        i = i + 1;
    }
    proof {
        assert(entries@.take(i as int) =~= entries@);
    }
    Some(total)
}

/// The bytes of the deltas of all branches, given the entries of the directory that holds them.
pub fn delta_size(branches: &Vec<DirEntry>) -> (total: u64)
    requires
        delta_bytes(branches@) <= u64::MAX,
    ensures
        total == delta_bytes(branches@),
{
    match checked_delta_size(branches) {
        Some(total) => total,
        None => 0,
    }
}

/// The bytes of the deltas of all branches, unless they are too many to count.
pub fn checked_delta_size(branches: &Vec<DirEntry>) -> (r: Option<u64>)
    ensures
        r is Some <==> delta_bytes(branches@) <= u64::MAX,
        r is Some ==> r->0 == delta_bytes(branches@),
{
    let mut total: u64 = 0;
    let mut i: usize = 0;
    while i < branches.len()
        invariant
            i <= branches.len(),
            total == delta_bytes(branches@.take(i as int)),
        decreases branches.len() - i,
    {
        proof {
            lemma_delta_bytes_prefix(branches@, i + 1);
            assert(branches@.take(i + 1).drop_last() =~= branches@.take(i as int));
            assert(branches@.take(i + 1).last() == branches@[i as int]);
        }
        if let Node::Dir(entries) = &branches[i].node {
            match checked_sum(total, branch_size(entries)) {
                Some(sum) => total = sum,
                None => {
                    return None;
                },
            }
        }
        i = i + 1;
    }
    proof {
        assert(branches@.take(i as int) =~= branches@);
    }
    Some(total)
}

/// The path of a name in a directory; the root is the empty path.
pub open spec fn child_path(prefix: Text, name: Text) -> Text {
    prefix + seq!['/'] + name
}

fn child_path_of(prefix: &str, name: &str) -> (r: String)
    ensures
        r@ == child_path(prefix@, name@),
{
    proof {
        reveal_strlit("/");
        assert("/"@ =~= seq!['/']);
    }
    let dir = concat(prefix, "/");
    concat(dir.as_str(), name)
}

/// The bytes of the path of a name in a directory; the root is the empty path.
pub open spec fn raw_child(prefix: Seq<u8>, name: Seq<u8>) -> Seq<u8> {
    if prefix.len() == 0 {
        name
    } else {
        prefix + seq![0x2fu8] + name
    }
}

fn raw_child_of(prefix: &Vec<u8>, name: &Vec<u8>) -> (r: Vec<u8>)
    ensures
        r@ == raw_child(prefix@, name@),
{
    let mut r: Vec<u8> = Vec::new();
    if prefix.len() > 0 {
        r.extend_from_slice(prefix.as_slice());
        r.push(0x2f);
    }
    r.extend_from_slice(name.as_slice());
    proof {
        assert(r@ =~= raw_child(prefix@, name@));
    }
    r
}

/// An entry of a directory as a file.
pub open spec fn child_file(prefix: DeltaFileView, entry: DirEntry) -> DeltaFileView {
    DeltaFileView {
        path: child_path(prefix.path, entry.name@),
        raw: raw_child(prefix.raw, entry.raw@),
    }
}

/// What is below one entry and is no directory.
pub open spec fn node_files(n: Node, at: DeltaFileView) -> Seq<DeltaFileView>
    decreases n,
{
    match n {
        Node::Dir(entries) => list_files(entries@, at),
        _ => seq![at],
    }
}

/// What is below a directory and is no directory, in the order in which it was read.
pub open spec fn list_files(entries: Seq<DirEntry>, at: DeltaFileView) -> Seq<DeltaFileView>
    decreases entries,
{
    if entries.len() == 0 {
        seq![]
    } else {
        list_files(entries.drop_last(), at) + node_files(
            entries.last().node,
            child_file(at, entries.last()),
        )
    }
}

/// Appends to `out` everything below a directory that is no directory itself.
pub fn walk_files(entries: &Vec<DirEntry>, at: &DeltaFile, out: &mut Vec<DeltaFile>)
    ensures
        file_views(final(out)@) == file_views(old(out)@) + list_files(entries@, at@),
    decreases entries@,
{
    let ghost before = file_views(out@);
    let mut i: usize = 0;
    proof {
        assert(list_files(entries@.take(0), at@) =~= seq![]);
        assert(file_views(out@) =~= before + list_files(entries@.take(0), at@));
    }
    while i < entries.len()
        invariant
            i <= entries.len(),
            file_views(out@) == before + list_files(entries@.take(i as int), at@),
        decreases entries.len() - i,
    {
        let file = DeltaFile {
            path: child_path_of(at.path.as_str(), entries[i].name.as_str()),
            raw: raw_child_of(&at.raw, &entries[i].raw),
        };
        let ghost done = file_views(out@);
        proof {
            assert(entries@.take(i + 1).drop_last() =~= entries@.take(i as int));
            assert(entries@.take(i + 1).last() == entries@[i as int]);
            reveal_with_fuel(list_files, 2);
            reveal_with_fuel(node_files, 2);
        }
        let ghost one = file@;
        match &entries[i].node {
            Node::Dir(children) => {
                walk_files(children, &file, out);
            },
            _ => {
                out.push(file);
                proof {
                    assert(file_views(out@) =~= done + seq![one]);
                }
            },
        }
        proof {
            assert(file_views(out@) =~= before + list_files(entries@.take(i + 1), at@));
        }
        i = i + 1;
    }
    proof {
        assert(entries@.take(i as int) =~= entries@);
    }
}

/// The root of a delta, below which its files are.
pub open spec fn delta_root() -> DeltaFileView {
    DeltaFileView { path: seq![], raw: seq![] }
}

/// The files of a delta whose directory has these entries.
pub fn delta_files(entries: &Vec<DirEntry>) -> (r: Vec<DeltaFile>)
    ensures
        file_views(r@) == list_files(entries@, delta_root()),
{
    let root = DeltaFile { path: String::new(), raw: Vec::new() };
    let mut r: Vec<DeltaFile> = Vec::new();
    proof {
        assert(root.path@ =~= seq![]);
        assert(root.raw@ =~= seq![]);
        assert(file_views(r@) =~= seq![]);
    }
    walk_files(entries, &root, &mut r);
    proof {
        assert(file_views(r@) =~= list_files(entries@, delta_root()));
    }
    r
}

/// The paths that files have in the branch.
pub fn file_paths(files: &Vec<DeltaFile>) -> (r: Vec<String>)
    ensures
        r@.len() == files@.len(),
        texts(r@) == file_texts(file_views(files@)),
{
    let ghost all = file_texts(file_views(files@));
    let mut r: Vec<String> = Vec::new();
    let mut i: usize = 0;
    proof {
        assert(texts(r@) =~= all.take(0));
    }
    while i < files.len()
        invariant
            i <= files@.len(),
            all == file_texts(file_views(files@)),
            r@.len() == i,
            texts(r@) == all.take(i as int),
        decreases files@.len() - i,
    {
        let ghost done = texts(r@);
        let path = files[i].path.clone();
        let ghost one = path@;
        r.push(path);
        proof {
            assert(texts(r@) =~= done.push(one));
            assert(all.take(i + 1) =~= all.take(i as int).push(one));
        }
        i = i + 1;
    }
    proof {
        assert(all.take(i as int) =~= all);
    }
    r
}

/// What a branch status says of one entry that is no directory.
pub open spec fn delta_entry(n: Node, path: Text) -> DiffView {
    DiffView {
        op: "delta"@,
        path,
        kind: if n is Symlink {
            "symlink"@
        } else {
            "file"@
        },
        bytes: match n {
            Node::File(len) => len,
            _ => 0,
        },
    }
}

pub open spec fn node_diff(n: Node, path: Text) -> Seq<DiffView>
    decreases n,
{
    match n {
        Node::Dir(entries) => list_diff(entries@, path),
        _ => seq![delta_entry(n, path)],
    }
}

/// What a branch status says of the entries of a delta directory: one line for each entry below
/// it that is no directory.
pub open spec fn list_diff(entries: Seq<DirEntry>, prefix: Text) -> Seq<DiffView>
    decreases entries,
{
    if entries.len() == 0 {
        seq![]
    } else {
        list_diff(entries.drop_last(), prefix) + node_diff(
            entries.last().node,
            child_path(prefix, entries.last().name@),
        )
    }
}

/// Appends to `out` one line for each entry below a delta directory that is no directory.
pub fn collect_delta_diff(entries: &Vec<DirEntry>, prefix: &str, out: &mut Vec<DiffEntry>)
    ensures
        diff_views(final(out)@) == diff_views(old(out)@) + list_diff(entries@, prefix@),
    decreases entries@,
{
    let ghost before = diff_views(out@);
    let mut i: usize = 0;
    proof {
        assert(list_diff(entries@.take(0), prefix@) =~= seq![]);
        assert(diff_views(out@) =~= before + list_diff(entries@.take(0), prefix@));
    }
    while i < entries.len()
        invariant
            i <= entries.len(),
            diff_views(out@) == before + list_diff(entries@.take(i as int), prefix@),
        decreases entries.len() - i,
    {
        let path = child_path_of(prefix, entries[i].name.as_str());
        let ghost done = diff_views(out@);
        proof {
            assert(entries@.take(i + 1).drop_last() =~= entries@.take(i as int));
            assert(entries@.take(i + 1).last() == entries@[i as int]);
            reveal_with_fuel(list_diff, 2);
            reveal_with_fuel(node_diff, 2);
        }
        let (kind, bytes) = match &entries[i].node {
            Node::Dir(_) => ("dir", 0),
            Node::Symlink(_) => ("symlink", 0),
            Node::File(len) => ("file", *len),
            Node::Other(_) => ("file", 0),
        };
        match &entries[i].node {
            Node::Dir(children) => {
                collect_delta_diff(children, path.as_str(), out);
            },
            _ => {
                let ghost line = delta_entry(entries@[i as int].node, path@);
                out.push(
                    DiffEntry { op: "delta".to_owned(), path, kind: kind.to_owned(), bytes },
                );
                proof {
                    assert(diff_views(out@) =~= done + seq![line]);
                }
            },
        }
        proof {
            assert(diff_views(out@) =~= before + list_diff(entries@.take(i + 1), prefix@));
        }
        i = i + 1;
    }
    proof {
        assert(entries@.take(i as int) =~= entries@);
    }
}

/// The status of a branch lists exactly the paths that a commit would walk.
pub proof fn law_diff_lists_the_walked_files(entries: Seq<DirEntry>, at: DeltaFileView)
    ensures
        list_diff(entries, at.path).map_values(|d: DiffView| d.path) == file_texts(
            list_files(entries, at),
        ),
    decreases entries,
{
    let f = |d: DiffView| d.path;
    if entries.len() > 0 {
        let rest = entries.drop_last();
        let child = child_file(at, entries.last());
        law_diff_lists_the_walked_files(rest, at);
        law_diff_lists_the_walked_files_of_node(entries.last().node, child);
        let a = list_diff(rest, at.path);
        let b = node_diff(entries.last().node, child.path);
        assert((a + b).map_values(f) =~= a.map_values(f) + b.map_values(f));
        let c = list_files(rest, at);
        let d = node_files(entries.last().node, child);
        assert(file_texts(c + d) =~= file_texts(c) + file_texts(d));
    } else {
        assert(list_diff(entries, at.path).map_values(f) =~= file_texts(list_files(entries, at)));
    }
}

proof fn law_diff_lists_the_walked_files_of_node(n: Node, at: DeltaFileView)
    ensures
        node_diff(n, at.path).map_values(|d: DiffView| d.path) == file_texts(node_files(n, at)),
    decreases n,
{
    match n {
        Node::Dir(entries) => law_diff_lists_the_walked_files(entries@, at),
        _ => {
            assert(node_diff(n, at.path).map_values(|d: DiffView| d.path) =~= file_texts(
                node_files(n, at),
            ));
        },
    }
}

/// What the entries of a directory hold together is the sum over any two parts of them, and an
/// entry that is no directory holds the length that it reports.
pub proof fn law_sizes_add_up(a: Seq<DirEntry>, b: Seq<DirEntry>, len: u64)
    ensures
        list_bytes(a + b) == list_bytes(a) + list_bytes(b),
        a.len() == 1 ==> list_bytes(a) == node_bytes(a[0].node),
        node_bytes(Node::File(len)) == len,
        node_bytes(Node::Symlink(len)) == len,
        node_bytes(Node::Other(len)) == len,
        forall|v: Vec<DirEntry>| #[trigger] node_bytes(Node::Dir(v)) == list_bytes(v@),
    decreases b.len(),
{
    reveal_with_fuel(list_bytes, 2);
    reveal_with_fuel(node_bytes, 2);
    if a.len() == 1 {
        assert(a.drop_last() =~= seq![]);
    }
    if b.len() == 0 {
        assert(a + b =~= a);
    } else {
        assert((a + b).drop_last() =~= a + b.drop_last());
        assert((a + b).last() == b.last());
        law_sizes_add_up(a, b.drop_last(), len);
    }
}

/// A file lies below the directory that it was found in, by its text and by its bytes: a delta
/// file's path begins with a slash, and its path on disk is made of the names of the entries.
pub proof fn law_files_are_found_by_their_names(
    entries: Seq<DirEntry>,
    i: int,
    at: DeltaFileView,
)
    requires
        0 <= i < entries.len(),
        !(entries[i].node is Dir),
    ensures
        list_files(entries, at).contains(
            DeltaFileView {
                path: at.path + seq!['/'] + entries[i].name@,
                raw: if at.raw.len() == 0 {
                    entries[i].raw@
                } else {
                    at.raw + seq![0x2fu8] + entries[i].raw@
                },
            },
        ),
    decreases entries.len(),
{
    let last = entries.last();
    let rest = list_files(entries.drop_last(), at);
    let more = node_files(last.node, child_file(at, last));
    let all = list_files(entries, at);
    assert(all == rest + more);
    if i == entries.len() - 1 {
        assert(more == seq![child_file(at, last)]);
        assert(all[rest.len() as int] == child_file(at, last));
    } else {
        law_files_are_found_by_their_names(entries.drop_last(), i, at);
        let f = child_file(at, entries[i]);
        let k = choose|k: int| 0 <= k < rest.len() && rest[k] == f;
        assert(all[k] == f);
    }
}

/// Every file of a directory in a delta is a file of the delta, under the path of the directory.
pub proof fn law_files_of_directories_are_found(
    entries: Seq<DirEntry>,
    i: int,
    at: DeltaFileView,
    f: DeltaFileView,
)
    requires
        0 <= i < entries.len(),
        entries[i].node matches Node::Dir(below) && list_files(
            below@,
            DeltaFileView {
                path: at.path + seq!['/'] + entries[i].name@,
                raw: if at.raw.len() == 0 {
                    entries[i].raw@
                } else {
                    at.raw + seq![0x2fu8] + entries[i].raw@
                },
            },
        ).contains(f),
    ensures
        list_files(entries, at).contains(f),
    decreases entries.len(),
{
    let last = entries.last();
    let rest = list_files(entries.drop_last(), at);
    let more = node_files(last.node, child_file(at, last));
    let all = list_files(entries, at);
    assert(all == rest + more);
    if i == entries.len() - 1 {
        reveal_with_fuel(node_files, 2);
        let k = choose|k: int| 0 <= k < more.len() && more[k] == f;
        assert(all[rest.len() + k] == f);
    } else {
        law_files_of_directories_are_found(entries.drop_last(), i, at, f);
        let k = choose|k: int| 0 <= k < rest.len() && rest[k] == f;
        assert(all[k] == f);
    }
}

/// The status of a branch calls every file of the delta a change with the length of the file, a
/// symbolic link by its kind, and anything else a file without a length.
pub proof fn law_status_tells_kinds(path: Text, len: u64)
    ensures
        delta_entry(Node::File(len), path) == (DiffView {
            op: "delta"@,
            path,
            kind: "file"@,
            bytes: len,
        }),
        delta_entry(Node::Symlink(len), path) == (DiffView {
            op: "delta"@,
            path,
            kind: "symlink"@,
            bytes: 0,
        }),
        delta_entry(Node::Other(len), path) == (DiffView {
            op: "delta"@,
            path,
            kind: "file"@,
            bytes: 0,
        }),
{
}

/// Of the directory of a branch only the entry `files` counts as usage, and usage is the sum over
/// the directories of all branches.
pub proof fn law_usage_is_that_of_the_deltas(entries: Seq<DirEntry>, e: DirEntry)
    ensures
        branch_bytes(entries.push(e)) == branch_bytes(entries) + if e.name@ == "files"@ {
            node_bytes(e.node)
        } else {
            0
        },
        branch_bytes(seq![]) == 0 && delta_bytes(seq![]) == 0,
        e.node matches Node::Dir(below) ==> delta_bytes(entries.push(e)) == delta_bytes(entries)
            + branch_bytes(below@),
        !(e.node is Dir) ==> delta_bytes(entries.push(e)) == delta_bytes(entries),
{
    assert(entries.push(e).drop_last() =~= entries);
}

} // verus!
