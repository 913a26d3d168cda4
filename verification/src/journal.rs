//! The text files in which a branch keeps its deletions: a snapshot with one path per line, and
//! a log of changes to it.

use vstd::prelude::*;
use vstd::string::*;

use crate::text::{
    begins_with, concat, drop_chars, is_space, list_has, same, space, texts, trim_back,
    trim_front, trim_space, without_space, Text,
};

verus! {

/// The place of the first line break, or the length of a text without one.
pub open spec fn first_break(t: Text) -> int
    decreases t.len(),
{
    if t.len() == 0 || t[0] == '\n' {
        0
    } else {
        1 + first_break(t.drop_first())
    }
}

proof fn lemma_first_break(t: Text, k: int)
    requires
        0 <= k <= t.len(),
        forall|i: int| 0 <= i < k ==> #[trigger] t[i] != '\n',
        k == t.len() || t[k] == '\n',
    ensures
        first_break(t) == k,
    decreases k,
{
    if k > 0 {
        assert(t[0] != '\n');
        let u = t.drop_first();
        assert forall|i: int| 0 <= i < k - 1 implies #[trigger] u[i] != '\n' by {
            assert(t[i + 1] != '\n');
        }
        lemma_first_break(u, k - 1);
    }
}

proof fn lemma_first_break_bound(t: Text)
    ensures
        0 <= first_break(t) <= t.len(),
        first_break(t) < t.len() ==> t[first_break(t)] == '\n',
        forall|i: int| 0 <= i < first_break(t) ==> #[trigger] t[i] != '\n',
    decreases t.len(),
{
    if t.len() > 0 && t[0] != '\n' {
        let u = t.drop_first();
        lemma_first_break_bound(u);
        assert forall|i: int| 0 <= i < first_break(t) implies #[trigger] t[i] != '\n' by {
            if i > 0 {
                assert(u[i - 1] != '\n');
            }
        }
    }
}

/// A line without the carriage return that may stand before its line break.
pub open spec fn bare(line: Text) -> Text {
    if line.len() > 0 && line.last() == '\r' {
        line.drop_last()
    } else {
        line
    }
}

/// The lines of a text. A last line without a line break counts as it stands, if it is not empty.
pub open spec fn text_lines(t: Text) -> Seq<Text>
    decreases t.len(),
{
    let k = first_break(t);
    if t.len() == 0 {
        seq![]
    } else if k < 0 || k >= t.len() {
        seq![t]
    } else {
        seq![bare(t.take(k))] + text_lines(t.skip(k + 1))
    }
}

/// Whether a line holds nothing but white space.
pub open spec fn blank(line: Text) -> bool {
    trim_space(line).len() == 0
}

/// The lines of a text that are not blank.
pub open spec fn entries(t: Text) -> Seq<Text> {
    text_lines(t).filter(|l: Text| !blank(l))
}

/// Splits a text into its lines, and leaves out those that are blank.
pub fn log_entries(t: &str) -> (r: Vec<String>)
    ensures
        texts(r@) == entries(t@),
{
    let keep = Ghost(|l: Text| !blank(l));
    let len = t.unicode_len();
    let mut out: Vec<String> = Vec::new();
    let mut start: usize = 0;
    let ghost mut seen: Seq<Text> = seq![];
    proof {
        assert(t@.skip(0) =~= t@);
        assert(seen + text_lines(t@.skip(0)) =~= text_lines(t@));
        assert(seen.filter(keep@) =~= seq![]) by {
            reveal(Seq::filter);
        }
        assert(texts(out@) =~= seen.filter(keep@));
    }
    while start < len
        invariant
            start <= len,
            len == t@.len(),
            keep@ == (|l: Text| !blank(l)),
            seen + text_lines(t@.skip(start as int)) == text_lines(t@),
            texts(out@) == seen.filter(keep@),
        decreases len - start,
    {
        let ghost rest = t@.skip(start as int);
        let mut i: usize = start;
        while i < len && t.get_char(i) != '\n'
            invariant
                start <= i <= len,
                len == t@.len(),
                rest == t@.skip(start as int),
                forall|j: int| 0 <= j < i - start ==> #[trigger] rest[j] != '\n',
            decreases len - i,
        {
            proof {
                assert(rest[i - start] == t@[i as int]);
            }
            i = i + 1;
        }
        proof {
            if i < len {
                assert(rest[i - start] == t@[i as int]);
            }
            lemma_first_break(rest, i - start);
        }
        let mut end: usize = i;
        if i < len && i > start && t.get_char(i - 1) == '\r' {
            end = i - 1;
        }
        let line = t.substring_char(start, end);
        let next: usize = if i < len {
            i + 1
        } else {
            i
        };
        let ghost was = seen;
        proof {
            let l = line@;
            if i < len {
                assert(rest.take(i - start) =~= t@.subrange(start as int, i as int));
                assert(bare(rest.take(i - start)) =~= l);
                assert(rest.skip(i - start + 1) =~= t@.skip(next as int));
                assert(text_lines(rest) =~= seq![l] + text_lines(t@.skip(next as int)));
            } else {
                assert(rest =~= l);
                assert(t@.skip(next as int) =~= seq![]);
                assert(text_lines(rest) =~= seq![l] + text_lines(t@.skip(next as int)));
            }
            seen = seen.push(l);
            assert(seen + text_lines(t@.skip(next as int)) =~= was + text_lines(rest));
            was.lemma_filter_push(l, keep@);
        }
        let ghost kept = texts(out@);
        if !without_space(line).is_empty() {
            out.push(line.to_owned());
            proof {
                assert(texts(out@) =~= kept.push(line@));
            }
        }
        start = next;
    }
    proof {
        assert(t@.skip(start as int) =~= seq![]);
        assert(seen =~= text_lines(t@));
    }
    out
}

/// Adds a string to a list that holds none twice.
pub fn insert_text(v: &mut Vec<String>, t: &str) -> (added: bool)
    requires
        texts(old(v)@).no_duplicates(),
    ensures
        texts(final(v)@).no_duplicates(),
        texts(final(v)@).to_set() == texts(old(v)@).to_set().insert(t@),
        added == !texts(old(v)@).contains(t@),
        !added ==> final(v)@ == old(v)@,
        added ==> texts(final(v)@) == texts(old(v)@).push(t@),
{
    let ghost before = texts(v@);
    if list_has(v, t) {
        proof {
            assert(before.to_set().insert(t@) =~= before.to_set());
        }
        return false;
    }
    v.push(t.to_owned());
    proof {
        assert(texts(v@) =~= before.push(t@));
        assert forall|x: Text| #[trigger]
            before.push(t@).to_set().contains(x) == before.to_set().insert(t@).contains(x) by {
            if before.contains(x) {
                let i = choose|i: int| 0 <= i < before.len() && before[i] == x;
                assert(before.push(t@)[i] == x);
            }
            if x == t@ {
                assert(before.push(t@)[before.len() as int] == x);
            }
        }
        assert(before.push(t@).to_set() =~= before.to_set().insert(t@));
        assert forall|i: int, j: int|
            0 <= i < before.push(t@).len() && 0 <= j < before.push(t@).len() && i != j implies before.push(t@)[i]
            != before.push(t@)[j] by {
            assert(i < before.len() ==> before.contains(before[i]));
            assert(j < before.len() ==> before.contains(before[j]));
        }
    }
    true
}

/// Takes a string out of a list that holds none twice.
pub fn remove_text(v: &mut Vec<String>, t: &str) -> (removed: bool)
    requires
        texts(old(v)@).no_duplicates(),
    ensures
        texts(final(v)@).no_duplicates(),
        texts(final(v)@).to_set() == texts(old(v)@).to_set().remove(t@),
        removed == texts(old(v)@).contains(t@),
        !removed ==> final(v)@ == old(v)@,
{
    let ghost before = texts(v@);
    let mut i: usize = 0;
    while i < v.len()
        invariant
            i <= v.len(),
            v@ == old(v)@,
            before == texts(v@),
            before.no_duplicates(),
            forall|j: int| 0 <= j < i ==> #[trigger] before[j] != t@,
        decreases v.len() - i,
    {
        if same(v[i].as_str(), t) {
            let ghost k = i as int;
            v.remove(i);
            proof {
                assert(before[k] == t@);
                let after = texts(v@);
                assert(after =~= before.remove(k));
                assert forall|x: Text| #[trigger]
                    after.to_set().contains(x) == before.to_set().remove(t@).contains(x) by {
                    if after.contains(x) {
                        let j = choose|j: int| 0 <= j < after.len() && after[j] == x;
                        let m = if j < k {
                            j
                        } else {
                            j + 1
                        };
                        assert(before[m] == x);
                    }
                    if before.contains(x) && x != t@ {
                        let m = choose|m: int| 0 <= m < before.len() && before[m] == x;
                        let j = if m < k {
                            m
                        } else {
                            m - 1
                        };
                        assert(after[j] == x);
                    }
                }
                assert(after.to_set() =~= before.to_set().remove(t@));
            }
            return true;
        }
        i = i + 1;
    }
    proof {
        assert(before.to_set().remove(t@) =~= before.to_set());
    }
    false
}

/// The set after one line of the log: `+ path` adds, `- path` removes, and a bare path adds.
pub open spec fn replay_one(set: Set<Text>, line: Text) -> Set<Text> {
    if "+ "@.is_prefix_of(line) {
        set.insert(line.skip(2))
    } else if "- "@.is_prefix_of(line) {
        set.remove(line.skip(2))
    } else {
        set.insert(line)
    }
}

pub open spec fn replay(set: Set<Text>, log: Seq<Text>) -> Set<Text>
    decreases log.len(),
{
    if log.len() == 0 {
        set
    } else {
        replay_one(replay(set, log.drop_last()), log.last())
    }
}

/// The deletions that a snapshot and a log record.
pub open spec fn stored_tombstones(snapshot: Text, log: Text) -> Set<Text> {
    replay(entries(snapshot).to_set(), entries(log))
}

/// The content of a file that may be missing.
pub open spec fn content(file: Option<String>) -> Text {
    match file {
        Some(s) => s@,
        None => seq![],
    }
}

/// Reads the deletions of a branch from its snapshot and its log.
pub fn load_tombstones(snapshot: &Option<String>, log: &Option<String>) -> (r: Vec<String>)
    ensures
        texts(r@).no_duplicates(),
        texts(r@).to_set() == stored_tombstones(content(*snapshot), content(*log)),
{
    let mut set: Vec<String> = Vec::new();
    let snapshot_lines = match snapshot {
        Some(s) => log_entries(s.as_str()),
        None => Vec::new(),
    };
    let log_lines = match log {
        Some(s) => log_entries(s.as_str()),
        None => Vec::new(),
    };
    let ghost from = entries(content(*snapshot));
    let ghost ops = entries(content(*log));
    proof {
        assert(texts(snapshot_lines@) =~= from) by {
            reveal(Seq::filter);
        }
        assert(texts(log_lines@) =~= ops) by {
            reveal(Seq::filter);
        }
        assert(texts(set@) =~= seq![]);
        assert(texts(set@).to_set() =~= from.take(0).to_set());
    }
    let mut i: usize = 0;
    while i < snapshot_lines.len()
        invariant
            i <= snapshot_lines.len(),
            texts(snapshot_lines@) == from,
            texts(set@).no_duplicates(),
            texts(set@).to_set() == from.take(i as int).to_set(),
        decreases snapshot_lines.len() - i,
    {
        let _ = insert_text(&mut set, snapshot_lines[i].as_str());
        proof {
            let line = from[i as int];
            assert(line == snapshot_lines@[i as int]@);
            assert(from.take(i + 1) =~= from.take(i as int).push(line));
            let (a, b) = (from.take(i as int), from.take(i + 1));
            assert forall|x: Text| #[trigger]
                b.to_set().contains(x) == a.to_set().insert(line).contains(x) by {
                if a.contains(x) {
                    let j = choose|j: int| 0 <= j < a.len() && a[j] == x;
                    assert(b[j] == x);
                }
                if x == line {
                    assert(b[i as int] == x);
                }
            }
            assert(b.to_set() =~= a.to_set().insert(line));
        }
        i = i + 1;
    }
    proof {
        assert(from.take(i as int) =~= from);
        assert(ops.take(0) =~= seq![]);
    }
    let mut k: usize = 0;
    while k < log_lines.len()
        invariant
            k <= log_lines.len(),
            texts(log_lines@) == ops,
            texts(set@).no_duplicates(),
            texts(set@).to_set() == replay(from.to_set(), ops.take(k as int)),
        decreases log_lines.len() - k,
    {
        let line = log_lines[k].as_str();
        proof {
            assert(ops[k as int] == line@);
            assert(ops.take(k + 1).drop_last() =~= ops.take(k as int));
            assert(ops.take(k + 1).last() == line@);
            reveal_strlit("+ ");
            reveal_strlit("- ");
        }
        if begins_with(line, "+ ") {
            let _ = insert_text(&mut set, drop_chars(line, 2));
        } else if begins_with(line, "- ") {
            let _ = remove_text(&mut set, drop_chars(line, 2));
        } else {
            let _ = insert_text(&mut set, line);
        }
        k = k + 1;
    }
    proof {
        assert(ops.take(k as int) =~= ops);
    }
    set
}

/// The line that the log gains when a path is deleted, or no longer deleted.
pub open spec fn log_line(added: bool, path: Text) -> Text {
    if added {
        "+ "@ + path + "\n"@
    } else {
        "- "@ + path + "\n"@
    }
}

pub fn tombstone_op(added: bool, path: &str) -> (r: String)
    ensures
        r@ == log_line(added, path@),
{
    let head = if added {
        concat("+ ", path)
    } else {
        concat("- ", path)
    };
    concat(head.as_str(), "\n")
}

/// A snapshot of deletions: one line for each path.
pub open spec fn snapshot_text(paths: Seq<Text>) -> Text
    decreases paths.len(),
{
    if paths.len() == 0 {
        seq![]
    } else {
        snapshot_text(paths.drop_last()) + paths.last() + "\n"@
    }
}

pub fn write_snapshot(paths: &Vec<String>) -> (r: String)
    ensures
        r@ == snapshot_text(texts(paths@)),
{
    let ghost all = texts(paths@);
    let mut out = String::new();
    let mut i: usize = 0;
    proof {
        assert(all.take(0) =~= seq![]);
        assert(out@ =~= snapshot_text(all.take(0)));
    }
    while i < paths.len()
        invariant
            i <= paths.len(),
            all == texts(paths@),
            out@ == snapshot_text(all.take(i as int)),
        decreases paths.len() - i,
    {
        proof {
            assert(all.take(i + 1).drop_last() =~= all.take(i as int));
            assert(all.take(i + 1).last() == paths@[i as int]@);
        }
        out.append(paths[i].as_str());
        out.append("\n");
        i = i + 1;
    }
    proof {
        assert(all.take(i as int) =~= all);
    }
    out
}

/// Whether a path can be written as one line and read back: it has no line break and does not
/// end in a carriage return.
pub open spec fn one_line(path: Text) -> bool {
    !path.contains('\n') && (path.len() > 0 ==> path.last() != '\r')
}

/// Whether a log ends where a line ends.
pub open spec fn whole_lines(log: Text) -> bool {
    log.len() > 0 ==> log.last() == '\n'
}

proof fn lemma_append_line(log: Text, line: Text)
    requires
        whole_lines(log),
        one_line(line),
    ensures
        text_lines(log + line + seq!['\n']) == text_lines(log).push(line),
    decreases log.len(),
{
    let all = log + line + seq!['\n'];
    if log.len() == 0 {
        assert(all =~= line.push('\n'));
        assert forall|i: int| 0 <= i < line.len() implies #[trigger] all[i] != '\n' by {
            assert(line.contains(line[i]));
        }
        assert(all[line.len() as int] == '\n');
        lemma_first_break(all, line.len() as int);
        assert(all.take(line.len() as int) =~= line);
        assert(all.skip(line.len() as int + 1) =~= seq![]);
        assert(text_lines(seq![]) =~= seq![]);
        assert(text_lines(all) =~= seq![line]);
        assert(text_lines(log) =~= seq![]);
        assert(text_lines(log).push(line) =~= seq![line]);
    } else {
        lemma_first_break_bound(log);
        let k = first_break(log);
        assert(k < log.len()) by {
            if k >= log.len() {
                assert(log[log.len() - 1] != '\n');
            }
        }
        assert forall|i: int| 0 <= i < k implies #[trigger] all[i] != '\n' by {
            assert(log[i] != '\n');
        }
        assert(all[k] == log[k]);
        lemma_first_break(all, k);
        let rest = log.skip(k + 1);
        assert(all.take(k) =~= log.take(k));
        assert(all.skip(k + 1) =~= rest + line + seq!['\n']);
        if rest.len() > 0 {
            assert(rest.last() == log.last());
        }
        lemma_append_line(rest, line);
        assert(text_lines(all) =~= text_lines(log).push(line));
    }
}

proof fn lemma_append_entry(log: Text, line: Text)
    requires
        whole_lines(log),
        one_line(line),
        !blank(line),
    ensures
        entries(log + line + seq!['\n']) == entries(log).push(line),
{
    lemma_append_line(log, line);
    text_lines(log).lemma_filter_push(line, |l: Text| !blank(l));
}

proof fn lemma_not_blank(line: Text)
    requires
        line.len() > 0,
        !is_space(line[0]),
    ensures
        !blank(line),
{
    assert(trim_front(line, space()) == line);
    lemma_trim_back_keeps(line);
}

proof fn lemma_trim_back_keeps(line: Text)
    requires
        line.len() > 0,
        !is_space(line[0]),
    ensures
        trim_back(line, space()).len() > 0,
    decreases line.len(),
{
    if is_space(line.last()) {
        if line.len() > 1 {
            assert(line.drop_last()[0] == line[0]);
            lemma_trim_back_keeps(line.drop_last());
        }
    }
}

/// A line appended to the log takes effect when the store is read again: what a branch deletes
/// or stops deleting survives a restart.
pub proof fn law_log_replays(snapshot: Text, log: Text, added: bool, path: Text)
    requires
        whole_lines(log),
        one_line(path),
    ensures
        stored_tombstones(snapshot, log + log_line(added, path)) == (if added {
            stored_tombstones(snapshot, log).insert(path)
        } else {
            stored_tombstones(snapshot, log).remove(path)
        }),
        whole_lines(log + log_line(added, path)),
{
    reveal_strlit("+ ");
    reveal_strlit("- ");
    reveal_strlit("\n");
    let head = if added {
        "+ "@
    } else {
        "- "@
    };
    let line = head + path;
    assert("\n"@ =~= seq!['\n']);
    assert(log + log_line(added, path) =~= log + line + seq!['\n']);
    assert(one_line(line)) by {
        if line.contains('\n') {
            let i = choose|i: int| 0 <= i < line.len() && line[i] == '\n';
            if i >= 2 {
                assert(path[i - 2] == '\n');
            }
        }
        if path.len() > 0 {
            assert(line.last() == path.last());
        }
    }
    lemma_not_blank(line);
    lemma_append_entry(log, line);
    let from = entries(snapshot).to_set();
    let more = entries(log).push(line);
    assert(more.drop_last() =~= entries(log));
    assert(head.is_prefix_of(line)) by {
        assert(line.take(2) =~= head);
    }
    assert(!added ==> !"+ "@.is_prefix_of(line)) by {
        if !added {
            assert("+ "@[0] != line[0]);
        }
    }
    assert(line.skip(2) =~= path);
}

/// A rewritten snapshot gives back the deletions that it was written from.
pub proof fn law_snapshot_reads_back(paths: Seq<Text>)
    requires
        forall|i: int| 0 <= i < paths.len() ==> one_line(#[trigger] paths[i]) && !blank(paths[i]),
    ensures
        stored_tombstones(snapshot_text(paths), seq![]) == paths.to_set(),
{
    lemma_snapshot_entries(paths);
    assert(entries(seq![]) =~= seq![]) by {
        reveal(Seq::filter);
    }
}

proof fn lemma_snapshot_entries(paths: Seq<Text>)
    requires
        forall|i: int| 0 <= i < paths.len() ==> one_line(#[trigger] paths[i]) && !blank(paths[i]),
    ensures
        entries(snapshot_text(paths)) == paths,
        whole_lines(snapshot_text(paths)),
    decreases paths.len(),
{
    reveal_strlit("\n");
    assert("\n"@ =~= seq!['\n']);
    if paths.len() == 0 {
        assert(entries(seq![]) =~= seq![]) by {
            reveal(Seq::filter);
        }
    } else {
        let rest = paths.drop_last();
        assert forall|i: int| 0 <= i < rest.len() implies one_line(#[trigger] rest[i]) && !blank(
            rest[i],
        ) by {
            assert(rest[i] == paths[i]);
        }
        lemma_snapshot_entries(rest);
        let last = paths[paths.len() - 1];
        assert(one_line(last));
        lemma_append_entry(snapshot_text(rest), last);
        assert(rest.push(last) =~= paths);
    }
}

/// A log after lines were appended to it, in order.
pub open spec fn appended(log: Text, lines: Seq<Text>) -> Text
    decreases lines.len(),
{
    if lines.len() == 0 {
        log
    } else {
        appended(log, lines.drop_last()) + lines.last()
    }
}

} // verus!
