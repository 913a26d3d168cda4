//! Inode numbers and the paths that they stand for.

use vstd::prelude::*;
use vstd::string::*;

use crate::manager::ROOT_INO;
use crate::paths::{lies_under, under};
use crate::table::{lemma_rows, Table};
use crate::text::{same, Text};

verus! {

/// Inode numbers from here on are not given to paths.
pub const RESERVED_INO: u64 = 0xffff_ffff_ffe0_0000;

/// Which path each inode number stands for. A number is never given out twice.
pub struct InodeManager {
    pub numbers: Table<u64>,
    pub next_ino: u64,
}

/// The paths and their numbers.
pub type Inodes = Map<Text, u64>;

/// Whether no two paths have the same number.
pub open spec fn injective(m: Inodes) -> bool {
    forall|p: Text, q: Text| #[trigger]
        m.dom().contains(p) && #[trigger] m.dom().contains(q) && m[p] == m[q] ==> p == q
}

/// The path that a number stands for.
pub open spec fn path_of(m: Inodes, ino: u64) -> Option<Text> {
    if exists|p: Text| #[trigger] m.dom().contains(p) && m[p] == ino {
        Some(choose|p: Text| #[trigger] m.dom().contains(p) && m[p] == ino)
    } else {
        None
    }
}

/// A numbering and the next number, after each of the paths that had no number got the next one,
/// in order.
pub open spec fn numbered(m: Inodes, next: int, paths: Seq<Text>) -> (Inodes, int)
    decreases paths.len(),
{
    if paths.len() == 0 {
        (m, next)
    } else {
        let (mid, n) = numbered(m, next, paths.drop_last());
        if mid.dom().contains(paths.last()) {
            (mid, n)
        } else {
            (mid.insert(paths.last(), n as u64), n + 1)
        }
    }
}

impl View for InodeManager {
    type V = Inodes;

    open spec fn view(&self) -> Inodes {
        self.numbers@
    }
}

impl InodeManager {
    pub open spec fn wf(self) -> bool {
        &&& self.numbers.wf()
        &&& injective(self@)
        &&& ROOT_INO < self.next_ino <= RESERVED_INO
        &&& forall|p: Text| #[trigger] self@.dom().contains(p) ==> 0 < self@[p] < self.next_ino
        &&& self@.dom().contains(seq!['/'])
        &&& self@[seq!['/']] == ROOT_INO
    }

    /// Whether `n` more numbers can be given out.
    pub open spec fn room(self, n: int) -> bool {
        self.next_ino + n <= RESERVED_INO
    }

    pub fn new() -> (r: InodeManager)
        ensures
            r.wf(),
            r@ == Map::<Text, u64>::empty().insert(seq!['/'], ROOT_INO),
            r.next_ino == 2,
    {
        let mut numbers: Table<u64> = Table::new();
        proof {
            reveal_strlit("/");
            assert("/"@ =~= seq!['/']);
        }
        let _ = numbers.put("/", ROOT_INO);
        InodeManager { numbers, next_ino: 2 }
    }

    pub fn has_room(&self, n: u64) -> (r: bool)
        requires
            self.wf(),
        ensures
            r == self.room(n as int),
    {
        n <= RESERVED_INO - self.next_ino
    }

    pub fn get_path(&self, ino: u64) -> (r: Option<String>)
        requires
            self.wf(),
        ensures
            (match r {
                Some(p) => Some(p@),
                None => None,
            }) == path_of(self@, ino),
    {
        proof {
            lemma_rows(self.numbers);
        }
        let ghost rows = self.numbers.rows@;
        let mut i: usize = 0;
        while i < self.numbers.rows.len()
            invariant
                i <= self.numbers.rows@.len(),
                rows == self.numbers.rows@,
                self.wf(),
                forall|j: int|
                    0 <= j < rows.len() ==> self@.dom().contains((#[trigger] rows[j]).0@)
                        && self@[rows[j].0@] == rows[j].1,
                forall|j: int| 0 <= j < i ==> (#[trigger] rows[j]).1 != ino,
            decreases self.numbers.rows@.len() - i,
        {
            if self.numbers.rows[i].1 == ino {
                proof {
                    assert(self@.dom().contains(rows[i as int].0@));
                }
                return Some(self.numbers.rows[i].0.clone());
            }
            i = i + 1;
        }
        proof {
            if exists|p: Text| #[trigger] self@.dom().contains(p) && self@[p] == ino {
                let p = choose|p: Text| #[trigger] self@.dom().contains(p) && self@[p] == ino;
                let j = choose|j: int| 0 <= j < rows.len() && (#[trigger] rows[j]).0@ == p;
                assert(rows[j].1 == ino);
            }
        }
        None
    }

    /// The number of a path, a new one if it has none.
    pub fn get_or_create(&mut self, path: &str) -> (r: u64)
        requires
            old(self).wf(),
            old(self).room(1),
        ensures
            final(self).wf(),
            final(self)@ == old(self)@.insert(path@, r),
            r == (if old(self)@.dom().contains(path@) {
                old(self)@[path@]
            } else {
                old(self).next_ino
            }),
            final(self).next_ino == old(self).next_ino + if old(self)@.dom().contains(path@) {
                0int
            } else {
                1int
            },
    {
        if let Some(ino) = self.numbers.get(path) {
            let found = *ino;
            proof {
                assert(self@.insert(path@, found) =~= self@);
            }
            return found;
        }
        let ino = self.next_ino;
        let _ = self.numbers.put(path, ino);
        self.next_ino = ino + 1;
        ino
    }

    /// Forgets a path. The root is never forgotten.
    pub fn remove(&mut self, path: &str)
        requires
            old(self).wf(),
        ensures
            final(self).wf(),
            final(self)@ == (if path@ == seq!['/'] {
                old(self)@
            } else {
                old(self)@.remove(path@)
            }),
            final(self).next_ino == old(self).next_ino,
    {
        proof {
            reveal_strlit("/");
            assert("/"@ =~= seq!['/']);
        }
        if !same(path, "/") {
            let _ = self.numbers.take(path);
        }
    }

    /// Forgets every path but the root.
    pub fn clear(&mut self)
        requires
            old(self).wf(),
        ensures
            final(self).wf(),
            final(self)@ == Map::<Text, u64>::empty().insert(seq!['/'], ROOT_INO),
            final(self).next_ino == old(self).next_ino,
    {
        proof {
            reveal_strlit("/");
            assert("/"@ =~= seq!['/']);
        }
        self.numbers.clear();
        let _ = self.numbers.put("/", ROOT_INO);
    }

    /// Forgets a path and all that is below it. The root is never forgotten.
    pub fn clear_prefix(&mut self, prefix: &str)
        requires
            old(self).wf(),
        ensures
            final(self).wf(),
            final(self)@ == old(self)@.restrict(
                Set::new(|p: Text| p == seq!['/'] || !under(prefix@, p)),
            ),
            final(self).next_ino == old(self).next_ino,
    {
        let ghost before = self@;
        let ghost kept = Set::new(|p: Text| p == seq!['/'] || !under(prefix@, p));
        let ghost rows = self.numbers.rows@;
        proof {
            reveal_strlit("/");
            assert("/"@ =~= seq!['/']);
            lemma_rows(self.numbers);
        }
        let mut numbers: Table<u64> = Table::new();
        let mut i: usize = 0;
        while i < self.numbers.rows.len()
            invariant
                i <= self.numbers.rows@.len(),
                rows == self.numbers.rows@,
                before == self.numbers@,
                "/"@ == seq!['/'],
                kept == Set::new(|p: Text| p == seq!['/'] || !under(prefix@, p)),
                numbers.wf(),
                forall|j: int|
                    0 <= j < rows.len() ==> before.dom().contains((#[trigger] rows[j]).0@)
                        && before[rows[j].0@] == rows[j].1,
                forall|p: Text| #[trigger]
                    numbers@.dom().contains(p) <==> kept.contains(p) && exists|j: int|
                        0 <= j < i && (#[trigger] rows[j]).0@ == p,
                forall|p: Text| #[trigger] numbers@.dom().contains(p) ==> numbers@[p] == before[p],
            decreases self.numbers.rows@.len() - i,
        {
            let path = self.numbers.rows[i].0.as_str();
            let ghost mid = numbers@;
            if same(path, "/") || !lies_under(prefix, path) {
                let _ = numbers.put(path, self.numbers.rows[i].1);
            }
            proof {
                assert(rows[i as int].0@ == path@);
                assert forall|p: Text| #[trigger] numbers@.dom().contains(p) <==> kept.contains(p)
                    && exists|j: int| 0 <= j < i + 1 && (#[trigger] rows[j]).0@ == p by {
                    if exists|j: int| 0 <= j < i + 1 && (#[trigger] rows[j]).0@ == p {
                        let j = choose|j: int| 0 <= j < i + 1 && (#[trigger] rows[j]).0@ == p;
                        if j < i {
                            assert(rows[j].0@ == p);
                        }
                    }
                    if mid.dom().contains(p) {
                        let j = choose|j: int| 0 <= j < i && (#[trigger] rows[j]).0@ == p;
                        assert(rows[j].0@ == p);
                    }
                }
            }
            i = i + 1;
        }
        proof {
            assert forall|p: Text| #[trigger] before.dom().contains(p) implies exists|j: int|
                0 <= j < i && (#[trigger] rows[j]).0@ == p by {
                let j = choose|j: int| 0 <= j < rows.len() && (#[trigger] rows[j]).0@ == p;
                assert(rows[j].0@ == p);
            }
            assert forall|p: Text| #[trigger] numbers@.dom().contains(p) implies before.dom().contains(
                p,
            ) by {
                let j = choose|j: int| 0 <= j < i && (#[trigger] rows[j]).0@ == p;
                assert(rows[j].0@ == p);
            }
            assert(numbers@ =~= before.restrict(kept));
        }
        self.numbers = numbers;
    }
}

/// A number that was given to a path leads back to the path.
pub proof fn law_numbers_lead_back(m: Inodes, p: Text)
    requires
        injective(m),
        m.dom().contains(p),
    ensures
        path_of(m, m[p]) == Some(p),
{
}

/// Numbering paths keeps every number that was given before, gives each of the paths one, and
/// gives no number twice.
pub proof fn law_numbering_keeps_numbers(m: Inodes, next: int, paths: Seq<Text>)
    requires
        injective(m),
        forall|p: Text| #[trigger] m.dom().contains(p) ==> 0 < m[p] < next,
        0 < next,
        next + paths.len() <= RESERVED_INO,
    ensures
        ({
            let (now, after) = numbered(m, next, paths);
            &&& injective(now)
            &&& next <= after <= next + paths.len()
            &&& forall|p: Text| #[trigger] m.dom().contains(p) ==> now.dom().contains(p) && now[p]
                == m[p]
            &&& forall|i: int| 0 <= i < paths.len() ==> now.dom().contains(#[trigger] paths[i])
            &&& forall|p: Text| #[trigger] now.dom().contains(p) ==> 0 < now[p] < after && (
            m.dom().contains(p) || paths.contains(p))
            &&& forall|p: Text| #[trigger]
                now.dom().contains(p) && !m.dom().contains(p) ==> now[p] >= next
        }),
    decreases paths.len(),
{
    if paths.len() > 0 {
        let rest = paths.drop_last();
        law_numbering_keeps_numbers(m, next, rest);
        let (mid, n) = numbered(m, next, rest);
        let (now, after) = numbered(m, next, paths);
        let last = paths.last();
        assert(paths[paths.len() - 1] == last);
        assert forall|i: int| 0 <= i < paths.len() implies now.dom().contains(#[trigger] paths[i]) by {
            if i < rest.len() {
                assert(rest[i] == paths[i]);
                assert(mid.dom().contains(rest[i]));
            }
        }
        assert forall|p: Text| #[trigger] now.dom().contains(p) implies 0 < now[p] < after && (
        m.dom().contains(p) || paths.contains(p)) by {
            if mid.dom().contains(p) {
                if rest.contains(p) {
                    let k = choose|k: int| 0 <= k < rest.len() && rest[k] == p;
                    assert(paths[k] == p);
                }
            }
        }
    }
}

} // verus!
