//! A small table with text keys.

use vstd::prelude::*;
use vstd::string::*;

use crate::text::{same, Text};

verus! {

/// A list of keys with their values that holds no key twice.
pub struct Table<V> {
    pub rows: Vec<(String, V)>,
}

/// The keys of rows, in order.
pub open spec fn keys_of<V>(rows: Seq<(String, V)>) -> Seq<Text> {
    rows.map_values(|e: (String, V)| e.0@)
}

/// The values of rows, by their keys.
pub open spec fn mapped<V>(rows: Seq<(String, V)>) -> Map<Text, V>
    decreases rows.len(),
{
    if rows.len() == 0 {
        Map::empty()
    } else {
        mapped(rows.drop_last()).insert(rows.last().0@, rows.last().1)
    }
}

impl<V> View for Table<V> {
    type V = Map<Text, V>;

    open spec fn view(&self) -> Map<Text, V> {
        mapped(self.rows@)
    }
}

proof fn lemma_mapped<V>(rows: Seq<(String, V)>, i: int)
    requires
        0 <= i < rows.len(),
        keys_of(rows).no_duplicates(),
    ensures
        mapped(rows).dom().contains(rows[i].0@),
        mapped(rows)[rows[i].0@] == rows[i].1,
    decreases rows.len(),
{
    let rest = rows.drop_last();
    if i < rest.len() {
        assert(keys_of(rest) =~= keys_of(rows).drop_last());
        assert(keys_of(rows)[i] != keys_of(rows)[rows.len() - 1]);
        lemma_mapped(rest, i);
    }
}

pub proof fn lemma_mapped_dom<V>(rows: Seq<(String, V)>, key: Text)
    ensures
        mapped(rows).dom().contains(key) == keys_of(rows).contains(key),
    decreases rows.len(),
{
    if rows.len() > 0 {
        let rest = rows.drop_last();
        lemma_mapped_dom(rest, key);
        let (a, b) = (keys_of(rest), keys_of(rows));
        assert(a =~= b.drop_last());
        if a.contains(key) {
            let i = choose|i: int| 0 <= i < a.len() && a[i] == key;
            assert(b[i] == key);
        }
        if b.contains(key) && !a.contains(key) {
            let i = choose|i: int| 0 <= i < b.len() && b[i] == key;
            if i < a.len() {
                assert(a[i] == key);
            }
        }
        if key == rows.last().0@ {
            assert(b[b.len() - 1] == key);
        }
    }
}

proof fn lemma_mapped_remove<V>(rows: Seq<(String, V)>, i: int)
    requires
        0 <= i < rows.len(),
        keys_of(rows).no_duplicates(),
    ensures
        mapped(rows.remove(i)) == mapped(rows).remove(rows[i].0@),
    decreases rows.len(),
{
    let rest = rows.drop_last();
    let key = rows[i].0@;
    if i == rest.len() {
        assert(rows.remove(i) =~= rest);
        lemma_mapped_dom(rest, key);
        assert(!keys_of(rest).contains(key)) by {
            if keys_of(rest).contains(key) {
                let j = choose|j: int| 0 <= j < rest.len() && keys_of(rest)[j] == key;
                assert(keys_of(rows)[j] == keys_of(rows)[i]);
            }
        }
        assert(mapped(rest) =~= mapped(rows).remove(key));
    } else {
        assert(keys_of(rest) =~= keys_of(rows).drop_last());
        lemma_mapped_remove(rest, i);
        assert(rows.remove(i).drop_last() =~= rest.remove(i));
        assert(rows.remove(i).last() == rows.last());
        assert(keys_of(rows)[i] != keys_of(rows)[rows.len() - 1]);
        assert(mapped(rows.remove(i)) =~= mapped(rows).remove(key));
    }
}

impl<V> Table<V> {
    pub open spec fn wf(self) -> bool {
        keys_of(self.rows@).no_duplicates()
    }

    pub fn new() -> (r: Table<V>)
        ensures
            r.wf(),
            r@ == Map::<Text, V>::empty(),
    {
        Table { rows: Vec::new() }
    }

    pub fn len(&self) -> (r: usize)
        ensures
            r == self.rows@.len(),
    {
        self.rows.len()
    }

    /// The row that holds `key`.
    pub fn find(&self, key: &str) -> (r: Option<usize>)
        requires
            self.wf(),
        ensures
            r is Some <==> self@.dom().contains(key@),
            r matches Some(i) ==> i < self.rows@.len() && self.rows@[i as int].0@ == key@
                && self@[key@] == self.rows@[i as int].1,
    {
        let mut i: usize = 0;
        while i < self.rows.len()
            invariant
                i <= self.rows@.len(),
                self.wf(),
                forall|j: int| 0 <= j < i ==> #[trigger] keys_of(self.rows@)[j] != key@,
            decreases self.rows@.len() - i,
        {
            if same(self.rows[i].0.as_str(), key) {
                proof {
                    lemma_mapped(self.rows@, i as int);
                }
                return Some(i);
            }
            i = i + 1;
        }
        proof {
            lemma_mapped_dom(self.rows@, key@);
        }
        None
    }

    pub fn has(&self, key: &str) -> (r: bool)
        requires
            self.wf(),
        ensures
            r == self@.dom().contains(key@),
    {
        self.find(key).is_some()
    }

    pub fn get(&self, key: &str) -> (r: Option<&V>)
        requires
            self.wf(),
        ensures
            r is Some <==> self@.dom().contains(key@),
            r matches Some(v) ==> *v == self@[key@],
    {
        match self.find(key) {
            Some(i) => Some(&self.rows[i].1),
            None => None,
        }
    }

    /// Takes the value of a key out of the table.
    pub fn take(&mut self, key: &str) -> (r: Option<V>)
        requires
            old(self).wf(),
        ensures
            final(self).wf(),
            final(self)@ == old(self)@.remove(key@),
            r is Some <==> old(self)@.dom().contains(key@),
            r matches Some(v) ==> v == old(self)@[key@],
    {
        let ghost before = self.rows@;
        match self.find(key) {
            Some(i) => {
                let row = self.rows.remove(i);
                proof {
                    lemma_mapped_remove(before, i as int);
                    assert(keys_of(self.rows@) =~= keys_of(before).remove(i as int));
                }
                Some(row.1)
            },
            None => {
                proof {
                    assert(mapped(before).remove(key@) =~= mapped(before));
                }
                None
            },
        }
    }

    /// Gives a key a value; the result is the value that it had.
    pub fn put(&mut self, key: &str, value: V) -> (r: Option<V>)
        requires
            old(self).wf(),
        ensures
            final(self).wf(),
            final(self)@ == old(self)@.insert(key@, value),
            r is Some <==> old(self)@.dom().contains(key@),
            r matches Some(v) ==> v == old(self)@[key@],
    {
        let ghost before = self@;
        let had = self.take(key);
        let ghost mid = self.rows@;
        proof {
            lemma_mapped_dom(mid, key@);
        }
        self.rows.push((key.to_owned(), value));
        proof {
            assert(self.rows@.drop_last() =~= mid);
            assert(keys_of(self.rows@) =~= keys_of(mid).push(key@));
            let all = keys_of(self.rows@);
            assert forall|i: int, j: int|
                0 <= i < all.len() && 0 <= j < all.len() && i != j implies all[i] != all[j] by {
                assert(i < mid.len() ==> keys_of(mid).contains(keys_of(mid)[i]));
                assert(j < mid.len() ==> keys_of(mid).contains(keys_of(mid)[j]));
            }
            assert(self@ =~= before.insert(key@, value));
        }
        had
    }

    pub fn clear(&mut self)
        ensures
            final(self).wf(),
            final(self)@ == Map::<Text, V>::empty(),
    {
        self.rows = Vec::new();
    }
}

/// Every key of a table stands in one of its rows, with its value.
pub proof fn lemma_rows<V>(t: Table<V>)
    requires
        t.wf(),
    ensures
        forall|i: int|
            0 <= i < t.rows@.len() ==> t@.dom().contains((#[trigger] t.rows@[i]).0@)
                && t@[t.rows@[i].0@] == t.rows@[i].1,
        forall|k: Text| #[trigger]
            t@.dom().contains(k) ==> exists|i: int|
                0 <= i < t.rows@.len() && (#[trigger] t.rows@[i]).0@ == k,
{
    assert forall|i: int| 0 <= i < t.rows@.len() implies t@.dom().contains(
        (#[trigger] t.rows@[i]).0@,
    ) && t@[t.rows@[i].0@] == t.rows@[i].1 by {
        lemma_mapped(t.rows@, i);
    }
    assert forall|k: Text| #[trigger] t@.dom().contains(k) implies exists|i: int|
        0 <= i < t.rows@.len() && (#[trigger] t.rows@[i]).0@ == k by {
        lemma_mapped_dom(t.rows@, k);
        let i = choose|i: int| 0 <= i < t.rows@.len() && keys_of(t.rows@)[i] == k;
        assert(t.rows@[i].0@ == k);
    }
}

/// A table has as many rows as keys.
pub proof fn lemma_row_count<V>(t: Table<V>)
    requires
        t.wf(),
    ensures
        t@.dom().finite(),
        t@.dom().len() == t.rows@.len(),
{
    let keys = keys_of(t.rows@);
    assert(t@.dom() =~= keys.to_set()) by {
        assert forall|k: Text| #[trigger] t@.dom().contains(k) == keys.to_set().contains(k) by {
            lemma_mapped_dom(t.rows@, k);
        }
    }
    keys.unique_seq_to_set();
    vstd::seq_lib::seq_to_set_is_finite(keys);
}

} // verus!
