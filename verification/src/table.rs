//! Rows found by their id, kept in the order in which they came.
use vstd::prelude::*;

verus! {

/// A row that carries its own id.
pub trait Keyed: Sized {
    spec fn key(&self) -> u32;

    fn id(&self) -> (r: u32)
        ensures
            r == self.key(),
    ;
}

/// The place of the first row with the id.
pub open spec fn find<T: Keyed>(s: Seq<T>, id: u32) -> Option<int>
    decreases s.len(),
{
    if s.len() == 0 {
        None
    } else {
        match find(s.drop_last(), id) {
            Some(i) => Some(i),
            None => if s.last().key() == id {
                Some(s.len() - 1)
            } else {
                None
            },
        }
    }
}

/// The rows with one put in the place of the row that had its id, or else at the end.
pub open spec fn put<T: Keyed>(s: Seq<T>, row: T) -> Seq<T> {
    match find(s, row.key()) {
        Some(i) => s.update(i, row),
        None => s.push(row),
    }
}

/// The rows without the one that has the id.
pub open spec fn without<T: Keyed>(s: Seq<T>, id: u32) -> Seq<T> {
    match find(s, id) {
        Some(i) => s.remove(i),
        None => s,
    }
}

/// No two rows share an id.
pub open spec fn distinct<T: Keyed>(s: Seq<T>) -> bool {
    forall|i: int, j: int|
        0 <= i < j < s.len() ==> (#[trigger] s[i]).key() != (#[trigger] s[j]).key()
}

/// What `find` finds.
pub proof fn lemma_find<T: Keyed>(s: Seq<T>, id: u32)
    ensures
        find(s, id) matches Some(i) ==> 0 <= i < s.len() && s[i].key() == id && forall|j: int|
            0 <= j < i ==> (#[trigger] s[j]).key() != id,
        find(s, id) is None ==> forall|j: int| 0 <= j < s.len() ==> (#[trigger] s[j]).key() != id,
    decreases s.len(),
{
    if s.len() > 0 {
        let t = s.drop_last();
        lemma_find(t, id);
        if find(s, id) is None {
            assert forall|j: int| 0 <= j < s.len() implies (#[trigger] s[j]).key() != id by {
                if j < t.len() {
                    assert(t[j].key() != id);
                }
            }
        } else {
            let i = find(s, id)->0;
            assert forall|j: int| 0 <= j < i implies (#[trigger] s[j]).key() != id by {
                assert(t[j].key() != id);
            }
        }
    }
}

/// A row with the id before which none has it is the one found.
pub proof fn lemma_found<T: Keyed>(s: Seq<T>, id: u32, i: int)
    requires
        0 <= i < s.len(),
        s[i].key() == id,
        forall|j: int| 0 <= j < i ==> (#[trigger] s[j]).key() != id,
    ensures
        find(s, id) == Some(i),
{
    lemma_find(s, id);
    if find(s, id) is None {
        assert(s[i].key() != id);
    } else {
        let k = find(s, id)->0;
        if k < i {
            assert(s[k].key() != id);
        }
    }
}

/// Where no row has the id, none is found.
pub proof fn lemma_not_found<T: Keyed>(s: Seq<T>, id: u32)
    requires
        forall|j: int| 0 <= j < s.len() ==> (#[trigger] s[j]).key() != id,
    ensures
        find(s, id) is None,
{
    lemma_find(s, id);
}

/// Putting a row keeps ids distinct.
pub proof fn law_put_keeps_distinct<T: Keyed>(s: Seq<T>, row: T)
    requires
        distinct(s),
    ensures
        distinct(put(s, row)),
        find(put(s, row), row.key()) matches Some(i) && put(s, row)[i] == row,
{
    lemma_find(s, row.key());
    let t = put(s, row);
    match find(s, row.key()) {
        Some(i) => {
            lemma_found(t, row.key(), i);
        },
        None => {
            lemma_found(t, row.key(), s.len() as int);
        },
    }
}

/// Taking a row away keeps ids distinct, and none has the id any more.
pub proof fn law_without_keeps_distinct<T: Keyed>(s: Seq<T>, id: u32)
    requires
        distinct(s),
    ensures
        distinct(without(s, id)),
        find(without(s, id), id) is None,
{
    lemma_find(s, id);
    if find(s, id) is Some {
        let i = find(s, id)->0;
        let t = s.remove(i);
        assert forall|j: int| 0 <= j < t.len() implies (#[trigger] t[j]).key() != id by {
            if j < i {
                assert(t[j] == s[j]);
            } else {
                assert(t[j] == s[j + 1]);
            }
        }
        lemma_not_found(t, id);
        assert forall|a: int, b: int| 0 <= a < b < t.len() implies (#[trigger] t[a]).key() != (
        #[trigger] t[b]).key() by {
            let a1 = if a < i {
                a
            } else {
                a + 1
            };
            let b1 = if b < i {
                b
            } else {
                b + 1
            };
            assert(t[a] == s[a1]);
            assert(t[b] == s[b1]);
        }
    }
}

/// The row with an id.
pub open spec fn row<T: Keyed>(s: Seq<T>, id: u32) -> Option<T> {
    match find(s, id) {
        Some(i) => Some(s[i]),
        None => None,
    }
}

/// Where ids are distinct, a row is found under its id.
pub proof fn lemma_row_at<T: Keyed>(s: Seq<T>, i: int)
    requires
        distinct(s),
        0 <= i < s.len(),
    ensures
        row(s, s[i].key()) == Some(s[i]),
{
    assert forall|j: int| 0 <= j < i implies (#[trigger] s[j]).key() != s[i].key() by {}
    lemma_found(s, s[i].key(), i);
}

/// A row that was put is found under its id.
pub proof fn law_put_is_found<T: Keyed>(s: Seq<T>, new: T)
    ensures
        row(put(s, new), new.key()) == Some(new),
{
    let t = put(s, new);
    lemma_find(s, new.key());
    let i = match find(s, new.key()) {
        Some(i) => i,
        None => s.len() as int,
    };
    assert forall|j: int| 0 <= j < i implies (#[trigger] t[j]).key() != new.key() by {
        assert(s[j].key() != new.key());
    }
    lemma_found(t, new.key(), i);
}

/// Putting a row leaves the others to be found as before.
pub proof fn law_put_leaves_the_others<T: Keyed>(s: Seq<T>, new: T, id: u32)
    requires
        id != new.key(),
    ensures
        row(put(s, new), id) == row(s, id),
{
    let t = put(s, new);
    lemma_find(s, new.key());
    lemma_find(s, id);
    match find(s, id) {
        Some(i) => {
            assert forall|j: int| 0 <= j < i implies (#[trigger] t[j]).key() != id by {
                assert(s[j].key() != id);
            }
            lemma_found(t, id, i);
        },
        None => {
            assert forall|j: int| 0 <= j < t.len() implies (#[trigger] t[j]).key() != id by {
                if j < s.len() {
                    assert(s[j].key() != id);
                }
            }
            lemma_not_found(t, id);
        },
    }
}

/// Taking a row away leaves the others to be found as before.
pub proof fn law_without_leaves_the_others<T: Keyed>(s: Seq<T>, gone: u32, id: u32)
    requires
        id != gone,
    ensures
        row(without(s, gone), id) == row(s, id),
{
    lemma_find(s, gone);
    lemma_find(s, id);
    if find(s, gone) is Some {
        let k = find(s, gone)->0;
        let t = s.remove(k);
        match find(s, id) {
            Some(i) => {
                let m = if i < k {
                    i
                } else {
                    i - 1
                };
                assert(t[m] == s[i]);
                assert forall|j: int| 0 <= j < m implies (#[trigger] t[j]).key() != id by {
                    assert(t[j] == s[if j < k {
                        j
                    } else {
                        j + 1
                    }]);
                }
                lemma_found(t, id, m);
            },
            None => {
                assert forall|j: int| 0 <= j < t.len() implies (#[trigger] t[j]).key() != id by {
                    assert(t[j] == s[if j < k {
                        j
                    } else {
                        j + 1
                    }]);
                }
                lemma_not_found(t, id);
            },
        }
    }
}

/// Rows found by their id.
pub struct Table<T: Keyed> {
    pub rows: Vec<T>,
}

impl<T: Keyed> View for Table<T> {
    type V = Seq<T>;

    open spec fn view(&self) -> Seq<T> {
        self.rows@
    }
}

impl<T: Keyed> Table<T> {
    pub fn new() -> (r: Self)
        ensures
            r@ == Seq::<T>::empty(),
    {
        Table { rows: Vec::new() }
    }

    pub fn len(&self) -> (n: usize)
        ensures
            n == self@.len(),
    {
        self.rows.len()
    }

    /// The place of the row with the id.
    pub fn position(&self, id: u32) -> (r: Option<usize>)
        ensures
            match r {
                Some(i) => {
                    &&& find(self@, id) == Some(i as int)
                    &&& i < self@.len()
                    &&& self@[i as int].key() == id
                },
                None => find(self@, id) is None,
            },
    {
        let mut i: usize = 0;
        while i < self.rows.len()
            invariant
                i <= self.rows.len(),
                forall|j: int| 0 <= j < i ==> (#[trigger] self@[j]).key() != id,
            decreases self.rows.len() - i,
        {
            if self.rows[i].id() == id {
                proof {
                    lemma_found(self@, id, i as int);
                }
                return Some(i);
            }
            i = i + 1;
        }
        proof {
            lemma_not_found(self@, id);
        }
        None
    }

    /// The row with the id.
    pub fn get(&self, id: u32) -> (r: Option<&T>)
        ensures
            match find(self@, id) {
                Some(i) => r == Some(&self@[i]),
                None => r is None,
            },
    {
        match self.position(id) {
            Some(i) => Some(&self.rows[i]),
            None => None,
        }
    }

    pub fn contains(&self, id: u32) -> (r: bool)
        ensures
            r == (find(self@, id) is Some),
    {
        self.position(id).is_some()
    }

    /// Puts a row in the place of the row with its id, or else at the end.
    pub fn put(&mut self, row: T)
        ensures
            final(self)@ == put(old(self)@, row),
    {
        match self.position(row.id()) {
            Some(i) => {
                self.rows[i] = row;
            },
            None => {
                self.rows.push(row);
            },
        }
    }

    /// Takes the row with the id away.
    pub fn remove(&mut self, id: u32)
        ensures
            final(self)@ == without(old(self)@, id),
    {
        match self.position(id) {
            Some(i) => {
                let _row: T = self.rows.remove(i);
            },
            None => {},
        }
    }
}

} // verus!
