//! A table from texts to values.
use vstd::prelude::*;

verus! {

/// A value and the text it is filed under.
#[derive(Debug)]
pub struct Row<V> {
    pub key: String,
    pub value: V,
}

/// A table from texts to values that remembers in which order its keys came.
#[derive(Debug)]
pub struct TextTable<V> {
    rows: Vec<Row<V>>,
}

impl<V: View> View for TextTable<V> {
    type V = Map<Seq<char>, V::V>;

    closed spec fn view(&self) -> Map<Seq<char>, V::V> {
        rows_map(self.rows@)
    }
}

/// What a list of rows files: under each key, the value of the row that has it.
pub open spec fn rows_map<V: View>(rows: Seq<Row<V>>) -> Map<Seq<char>, V::V>
    decreases rows.len(),
{
    if rows.len() == 0 {
        Map::empty()
    } else {
        rows_map(rows.drop_last()).insert(rows.last().key@, rows.last().value@)
    }
}

/// Whether no two rows have the same key.
pub open spec fn distinct_keys<V>(rows: Seq<Row<V>>) -> bool {
    forall|i: int, j: int|
        0 <= i < j < rows.len() ==> (#[trigger] rows[i]).key@ != (#[trigger] rows[j]).key@
}

/// The table of rows with distinct keys holds each row and nothing else.
pub proof fn lemma_rows_map<V: View>(rows: Seq<Row<V>>)
    requires
        distinct_keys(rows),
    ensures
        forall|i: int|
            0 <= i < rows.len() ==> rows_map(rows).contains_pair(
                (#[trigger] rows[i]).key@,
                rows[i].value@,
            ),
        forall|key: Seq<char>| #[trigger]
            rows_map(rows).contains_key(key) ==> exists|i: int|
                0 <= i < rows.len() && (#[trigger] rows[i]).key@ == key,
        rows_map(rows).dom().finite(),
        rows_map(rows).dom().len() == rows.len(),
    decreases rows.len(),
{
    if rows.len() > 0 {
        let head = rows.drop_last();
        lemma_rows_map(head);
        let last = rows.last();
        assert forall|i: int| 0 <= i < rows.len() implies rows_map(rows).contains_pair(
            (#[trigger] rows[i]).key@,
            rows[i].value@,
        ) by {
            if i < head.len() {
                assert(head[i] == rows[i]);
                assert(rows[i].key@ != rows[rows.len() - 1].key@);
            }
        }
        assert forall|key: Seq<char>| #[trigger] rows_map(rows).contains_key(key) implies exists|
            i: int,
        |
            0 <= i < rows.len() && (#[trigger] rows[i]).key@ == key by {
            if key == last.key@ {
                assert(rows[rows.len() - 1].key@ == key);
            } else {
                assert(rows_map(head).contains_key(key));
                let i = choose|i: int| 0 <= i < head.len() && (#[trigger] head[i]).key@ == key;
                assert(rows[i].key@ == key);
            }
        }
        assert(!rows_map(head).contains_key(last.key@)) by {
            if rows_map(head).contains_key(last.key@) {
                let i = choose|i: int|
                    0 <= i < head.len() && (#[trigger] head[i]).key@ == last.key@;
                assert(rows[i].key@ == rows[rows.len() - 1].key@);
            }
        }
        assert(rows_map(rows).dom() =~= rows_map(head).dom().insert(last.key@));
    }
}

proof fn lemma_rows_map_update<V: View>(rows: Seq<Row<V>>, at: int, row: Row<V>)
    requires
        distinct_keys(rows),
        0 <= at < rows.len(),
        rows[at].key@ == row.key@,
    ensures
        distinct_keys(rows.update(at, row)),
        rows_map(rows.update(at, row)) == rows_map(rows).insert(row.key@, row.value@),
{
    let next = rows.update(at, row);
    assert forall|i: int, j: int| 0 <= i < j < next.len() implies (#[trigger] next[i]).key@ != (
    #[trigger] next[j]).key@ by {
        assert(rows[i].key@ != rows[j].key@);
    }
    lemma_rows_map(rows);
    lemma_rows_map(next);
    let left = rows_map(next);
    let right = rows_map(rows).insert(row.key@, row.value@);
    assert forall|key: Seq<char>|
        #![trigger left.dom().contains(key)]
        #![trigger right.dom().contains(key)]
        left.dom().contains(key) == right.dom().contains(key) && (left.dom().contains(key)
            ==> left[key] == right[key]) by {
        if left.contains_key(key) {
            let i = choose|i: int| 0 <= i < next.len() && (#[trigger] next[i]).key@ == key;
            assert(next[i].key@ == rows[i].key@);
            assert(left.contains_pair(next[i].key@, next[i].value@));
            assert(rows_map(rows).contains_pair(rows[i].key@, rows[i].value@));
            if i == at {
            } else {
                assert(rows[i].key@ != rows[at].key@) by {
                    if i < at {
                        assert(rows[i].key@ != rows[at].key@);
                    } else {
                        assert(rows[at].key@ != rows[i].key@);
                    }
                }
            }
        }
        if right.contains_key(key) && key != row.key@ {
            let i = choose|i: int| 0 <= i < rows.len() && (#[trigger] rows[i]).key@ == key;
            assert(next[i].key@ == key);
        }
        if key == row.key@ {
            assert(next[at].key@ == key);
        }
    }
    assert(left.dom() =~= right.dom());
    assert(left =~= right);
}

impl<V> TextTable<V> {
    #[verifier::type_invariant]
    spec fn inv(self) -> bool {
        distinct_keys(self.rows@)
    }
}

impl<V: View> TextTable<V> {
    /// An empty table.
    pub fn new() -> (res: Self)
        ensures
            res@ == Map::<Seq<char>, V::V>::empty(),
            res.listed().len() == 0,
    {
        TextTable { rows: Vec::new() }
    }

    /// The number of keys.
    pub fn len(&self) -> (res: usize)
        ensures
            self@.dom().finite(),
            res == self@.dom().len(),
    {
        proof {
            use_type_invariant(self);
            lemma_rows_map(self.rows@);
        }
        self.rows.len()
    }

    fn find(&self, key: &str) -> (res: Option<usize>)
        ensures
            match res {
                Some(at) => at < self.rows@.len() && self.rows@[at as int].key@ == key@,
                None => forall|i: int|
                    0 <= i < self.rows@.len() ==> (#[trigger] self.rows@[i]).key@ != key@,
            },
    {
        let wanted: String = key.to_owned();
        let mut i: usize = 0;
        while i < self.rows.len()
            invariant
                i <= self.rows@.len(),
                wanted@ == key@,
                forall|k: int| 0 <= k < i ==> (#[trigger] self.rows@[k]).key@ != key@,
            decreases self.rows@.len() - i,
        {
            if self.rows[i].key == wanted {
                return Some(i);
            }
            i += 1;
        }
        None
    }

    /// The value filed under a key.
    pub fn get(&self, key: &str) -> (res: Option<&V>)
        ensures
            match res {
                Some(value) => self@.contains_key(key@) && self@[key@] == value@,
                None => !self@.contains_key(key@),
            },
    {
        proof {
            use_type_invariant(self);
            lemma_rows_map(self.rows@);
        }
        match self.find(key) {
            Some(at) => {
                assert(self@.contains_pair(self.rows@[at as int].key@, self.rows@[at as int].value@));
                Some(&self.rows[at].value)
            },
            None => None,
        }
    }

    /// Files a value under a key, in place of what was filed there.
    pub fn insert(&mut self, key: String, value: V)
        ensures
            final(self)@ == old(self)@.insert(key@, value@),
            final(self).listed().len() == old(self).listed().len() + if old(self)@.contains_key(
                key@,
            ) {
                0int
            } else {
                1int
            },
            forall|i: int|
                0 <= i < old(self).listed().len() ==> (#[trigger] final(self).listed()[i]).key@
                    == old(self).listed()[i].key@,
            !old(self)@.contains_key(key@) ==> final(self).listed().last().key@ == key@,
    {
        proof {
            use_type_invariant(&*self);
            lemma_rows_map(self.rows@);
        }
        let found = self.find(key.as_str());
        let mut rows: Vec<Row<V>> = Vec::new();
        std::mem::swap(&mut rows, &mut self.rows);
        let ghost before = rows@;
        match found {
            Some(at) => {
                let row = Row { key, value };
                proof {
                    lemma_rows_map_update(before, at as int, row);
                }
                rows[at] = row;
                self.rows = rows;
            },
            None => {
                let row = Row { key, value };
                rows.push(row);
                proof {
                    assert forall|i: int, j: int| 0 <= i < j < rows@.len() implies (
                    #[trigger] rows@[i]).key@ != (#[trigger] rows@[j]).key@ by {
                        if j < before.len() {
                            assert(before[i].key@ != before[j].key@);
                        } else {
                            assert(before[i].key@ != key@);
                        }
                    }
                    assert(rows@.drop_last() =~= before);
                }
                self.rows = rows;
            },
        }
    }

    /// The rows of the table.
    pub closed spec fn listed(&self) -> Seq<Row<V>> {
        self.rows@
    }

    /// The rows of the table, in the order in which their keys came.
    pub fn rows(&self) -> (res: &Vec<Row<V>>)
        ensures
            res@ == self.listed(),
            distinct_keys(res@),
            self@ == rows_map(res@),
    {
        proof {
            use_type_invariant(self);
        }
        &self.rows
    }
}

} // verus!
