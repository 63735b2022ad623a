use vstd::prelude::*;

verus! {

broadcast use vstd::seq::group_seq_axioms, vstd::std_specs::vec::group_vec_axioms;

/// A configuration value: the recursive variant that every source is parsed into.
#[derive(Debug, PartialEq)]
pub enum Value {
    String(String),
    Integer(i64),
    /// A floating-point number, held as its IEEE-754 bit pattern.
    Float(u64),
    Boolean(bool),
    /// An offset or local date-time, held in its TOML text form.
    Datetime(String),
    Array(Vec<Value>),
    Table(Table),
}

/// A string-keyed table whose entries keep their insertion order.
#[derive(Debug, PartialEq)]
pub struct Table {
    pub entries: Vec<(String, Value)>,
}

/// The mathematical shape of a value: nested tables become branches keyed by
/// character sequences, everything else is a leaf that merging never looks into.
pub enum Node {
    Leaf(Value),
    Branch(Seq<(Seq<char>, Node)>),
}

impl Value {
    pub open spec fn node(self) -> Node
        decreases self,
    {
        match self {
            Value::Table(t) => Node::Branch(entries_model(t.entries@)),
            _ => Node::Leaf(self),
        }
    }
}

/// The model of a sequence of table entries.
pub open spec fn entries_model(s: Seq<(String, Value)>) -> Seq<(Seq<char>, Node)>
    decreases s,
{
    if s.len() == 0 {
        Seq::empty()
    } else {
        entries_model(s.drop_last()).push((s.last().0@, s.last().1.node()))
    }
}

impl View for Table {
    type V = Seq<(Seq<char>, Node)>;

    open spec fn view(&self) -> Seq<(Seq<char>, Node)> {
        entries_model(self.entries@)
    }
}


/// Length and entries of the model of a sequence of table entries.
pub proof fn lemma_entries_model(s: Seq<(String, Value)>)
    ensures
        entries_model(s).len() == s.len(),
        forall|i: int|
            0 <= i < s.len() ==> #[trigger] entries_model(s)[i] == (s[i].0@, s[i].1.node()),
    decreases s.len(),
{
    if s.len() > 0 {
        lemma_entries_model(s.drop_last());
    }
}

/// The position of the first entry with key `k`, if there is one.
pub open spec fn key_index(t: Seq<(Seq<char>, Node)>, k: Seq<char>) -> Option<int>
    decreases t.len(),
{
    if t.len() == 0 {
        None
    } else {
        match key_index(t.drop_last(), k) {
            Some(i) => Some(i),
            None => if t.last().0 == k {
                Some(t.len() - 1)
            } else {
                None
            },
        }
    }
}

/// `key_index` finds the first entry with the key, and only such an entry.
pub proof fn lemma_key_index(t: Seq<(Seq<char>, Node)>, k: Seq<char>)
    ensures
        match key_index(t, k) {
            Some(i) => 0 <= i < t.len() && t[i].0 == k && forall|j: int| 0 <= j < i ==> t[j].0 != k,
            None => forall|j: int| 0 <= j < t.len() ==> t[j].0 != k,
        },
    decreases t.len(),
{
    if t.len() > 0 {
        lemma_key_index(t.drop_last(), k);
        assert(forall|j: int| 0 <= j < t.len() - 1 ==> t.drop_last()[j] == t[j]);
    }
}

/// `t` with `k` set to `n`: in place where `k` is a key, else appended.
pub open spec fn put(t: Seq<(Seq<char>, Node)>, k: Seq<char>, n: Node) -> Seq<(Seq<char>, Node)> {
    match key_index(t, k) {
        Some(i) => t.update(i, (k, n)),
        None => t.push((k, n)),
    }
}

/// The value stored under `k`, if any.
pub open spec fn lookup(t: Seq<(Seq<char>, Node)>, k: Seq<char>) -> Option<Node> {
    match key_index(t, k) {
        Some(i) => Some(t[i].1),
        None => None,
    }
}

/// Merges one incoming entry into an accumulated table: two tables under the
/// same key merge recursively, anything else replaces what was there.
pub open spec fn merge_entries(
    a: Seq<(Seq<char>, Node)>,
    b: Seq<(Seq<char>, Node)>,
) -> Seq<(Seq<char>, Node)>
    decreases b,
{
    if b.len() == 0 {
        a
    } else {
        let acc = merge_entries(a, b.drop_last());
        let k = b.last().0;
        let v = b.last().1;
        match key_index(acc, k) {
            Some(i) => match (acc[i].1, v) {
                (Node::Branch(x), Node::Branch(y)) => acc.update(
                    i,
                    (k, Node::Branch(merge_entries(x, y))),
                ),
                _ => acc.update(i, (k, v)),
            },
            None => acc.push((k, v)),
        }
    }
}


/// No key occurs twice among the entries.
pub open spec fn unique_keys(t: Seq<(Seq<char>, Node)>) -> bool {
    forall|i: int, j: int| 0 <= i < j < t.len() ==> t[i].0 != t[j].0
}

/// Keys are distinct in the table and in every table nested in it.
pub open spec fn deep_unique(t: Seq<(Seq<char>, Node)>) -> bool
    decreases t,
{
    unique_keys(t) && forall|i: int|
        0 <= i < t.len() ==> match #[trigger] t[i].1 {
            Node::Branch(x) => deep_unique(x),
            _ => true,
        }
}

/// A value whose tables, if any, have distinct keys at every level.
pub open spec fn node_wf(n: Node) -> bool {
    match n {
        Node::Branch(x) => deep_unique(x),
        _ => true,
    }
}

/// The tables `ts` merged, in order, into an empty table.
pub open spec fn merge_all(ts: Seq<Seq<(Seq<char>, Node)>>) -> Seq<(Seq<char>, Node)>
    decreases ts.len(),
{
    if ts.len() == 0 {
        Seq::empty()
    } else {
        merge_entries(merge_all(ts.drop_last()), ts.last())
    }
}

/// Tables whose entries carry the same keys in the same places find a key at
/// the same place.
proof fn lemma_same_keys(t1: Seq<(Seq<char>, Node)>, t2: Seq<(Seq<char>, Node)>, k: Seq<char>)
    requires
        t1.len() == t2.len(),
        forall|j: int| 0 <= j < t1.len() ==> #[trigger] t1[j].0 == t2[j].0,
    ensures
        key_index(t1, k) == key_index(t2, k),
{
    lemma_key_index(t1, k);
    lemma_key_index(t2, k);
    match key_index(t1, k) {
        Some(i) => {
            assert(t2[i].0 == k);
        },
        None => {},
    }
    match key_index(t2, k) {
        Some(i) => {
            assert(t1[i].0 == k);
        },
        None => {},
    }
}

/// Merging one more entry leaves every other key as it was.
proof fn lemma_step_other(a: Seq<(Seq<char>, Node)>, b: Seq<(Seq<char>, Node)>, k: Seq<char>)
    requires
        b.len() > 0,
        b.last().0 != k,
    ensures
        lookup(merge_entries(a, b), k) == lookup(merge_entries(a, b.drop_last()), k),
{
    let acc = merge_entries(a, b.drop_last());
    let kb = b.last().0;
    let r = merge_entries(a, b);
    lemma_key_index(acc, kb);
    lemma_key_index(acc, k);
    match key_index(acc, kb) {
        Some(i) => {
            assert(forall|j: int| 0 <= j < acc.len() ==> #[trigger] acc[j].0 == r[j].0);
            lemma_same_keys(acc, r, k);
        },
        None => {
            assert(r == acc.push(b.last()));
            assert(r.drop_last() =~= acc);
        },
    }
}

/// Merging a key whose last entry is not a table leaves that entry's value.
proof fn lemma_step_leaf(a: Seq<(Seq<char>, Node)>, b: Seq<(Seq<char>, Node)>)
    requires
        b.len() > 0,
        !(b.last().1 is Branch),
    ensures
        lookup(merge_entries(a, b), b.last().0) == Some(b.last().1),
{
    let acc = merge_entries(a, b.drop_last());
    let kb = b.last().0;
    let r = merge_entries(a, b);
    lemma_key_index(acc, kb);
    match key_index(acc, kb) {
        Some(i) => {
            assert(forall|j: int| 0 <= j < acc.len() ==> #[trigger] acc[j].0 == r[j].0);
            lemma_same_keys(acc, r, kb);
        },
        None => {
            assert(r.drop_last() =~= acc);
        },
    }
}

/// What a merge holds under a key, by what the incoming table holds there.
proof fn lemma_lookup_merge(a: Seq<(Seq<char>, Node)>, b: Seq<(Seq<char>, Node)>, k: Seq<char>)
    requires
        unique_keys(b),
    ensures
        key_index(b, k) is None ==> lookup(merge_entries(a, b), k) == lookup(a, k),
        (lookup(b, k) matches Some(n) && !(n is Branch)) ==> lookup(merge_entries(a, b), k) == lookup(b, k),
        (lookup(a, k) matches Some(Node::Branch(x)) && lookup(b, k) matches Some(Node::Branch(y)))
            ==> lookup(merge_entries(a, b), k) == Some(
            Node::Branch(merge_entries(lookup(a, k)->0->Branch_0, lookup(b, k)->0->Branch_0)),
        ),
    decreases b.len(),
{
    if b.len() > 0 {
        let b1 = b.drop_last();
        assert(unique_keys(b1));
        lemma_lookup_merge(a, b1, k);
        lemma_key_index(b, k);
        if b.last().0 != k {
            lemma_step_other(a, b, k);
            match key_index(b, k) {
                Some(i) => {
                    assert(key_index(b1, k) == Some(i));
                },
                None => {},
            }
        } else {
            lemma_key_index(b1, k);
            if key_index(b1, k) is Some {
                let i = key_index(b1, k)->0;
                assert(b[i].0 == b1[i].0);
                assert(b[i].0 != b[b.len() - 1].0);
            }
            assert(key_index(b1, k) is None);
            if !(b.last().1 is Branch) {
                lemma_step_leaf(a, b);
            } else {
                let acc = merge_entries(a, b1);
                let r = merge_entries(a, b);
                lemma_key_index(acc, k);
                match key_index(acc, k) {
                    Some(i) => {
                        assert(forall|j: int| 0 <= j < acc.len() ==> #[trigger] acc[j].0 == r[j].0);
                        lemma_same_keys(acc, r, k);
                    },
                    None => {
                        assert(r.drop_last() =~= acc);
                    },
                }
            }
        }
    }
}

/// Merging keeps the keys of the accumulated table distinct.
pub proof fn lemma_merge_unique(a: Seq<(Seq<char>, Node)>, b: Seq<(Seq<char>, Node)>)
    requires
        unique_keys(a),
    ensures
        unique_keys(merge_entries(a, b)),
    decreases b.len(),
{
    if b.len() > 0 {
        lemma_merge_unique(a, b.drop_last());
        lemma_put_unique(merge_entries(a, b.drop_last()), b.last().0, b.last().1);
        let acc = merge_entries(a, b.drop_last());
        let r = merge_entries(a, b);
        lemma_key_index(acc, b.last().0);
        if key_index(acc, b.last().0) is Some {
            assert(forall|j: int| 0 <= j < acc.len() ==> #[trigger] acc[j].0 == r[j].0);
        } else {
            assert(forall|j: int| 0 <= j < acc.len() ==> #[trigger] acc[j].0 == r[j].0);
            assert(r.len() == acc.len() + 1);
        }
    }
}

/// Merging tables whose keys are distinct at every level gives such a table.
pub proof fn lemma_merge_deep_unique(a: Seq<(Seq<char>, Node)>, b: Seq<(Seq<char>, Node)>)
    requires
        deep_unique(a),
        deep_unique(b),
    ensures
        deep_unique(merge_entries(a, b)),
    decreases b,
{
    if b.len() > 0 {
        let b1 = b.drop_last();
        assert forall|i: int| 0 <= i < b1.len() implies node_wf(#[trigger] b1[i].1) by {
            assert(b1[i] == b[i]);
        }
        assert(deep_unique(b1));
        lemma_merge_deep_unique(a, b1);
        let acc = merge_entries(a, b1);
        let r = merge_entries(a, b);
        let k = b.last().0;
        let v = b.last().1;
        assert(node_wf(b[b.len() - 1].1));
        lemma_merge_unique(a, b);
        lemma_key_index(acc, k);
        match key_index(acc, k) {
            Some(i) => {
                assert(node_wf(acc[i].1));
                match (acc[i].1, v) {
                    (Node::Branch(x), Node::Branch(y)) => {
                        assert(decreases_to!(b => b[b.len() - 1]));
                        lemma_merge_deep_unique(x, y);
                    },
                    _ => {},
                }
                assert forall|j: int| 0 <= j < r.len() implies node_wf(#[trigger] r[j].1) by {
                    if j != i {
                        assert(r[j] == acc[j]);
                    }
                }
            },
            None => {
                assert forall|j: int| 0 <= j < r.len() implies node_wf(#[trigger] r[j].1) by {
                    if j < acc.len() {
                        assert(r[j] == acc[j]);
                    }
                }
            },
        }
    }
}

/// Setting a key to a well-formed value keeps keys distinct at every level.
proof fn lemma_put_deep_unique(t: Seq<(Seq<char>, Node)>, k: Seq<char>, n: Node)
    requires
        deep_unique(t),
        node_wf(n),
    ensures
        deep_unique(put(t, k, n)),
{
    lemma_put_unique(t, k, n);
    lemma_key_index(t, k);
    let r = put(t, k, n);
    assert forall|j: int| 0 <= j < r.len() implies node_wf(#[trigger] r[j].1) by {
        if j < t.len() && r[j] != (k, n) {
            assert(r[j] == t[j]);
        }
    }
}

/// Setting a key keeps the keys distinct.
proof fn lemma_put_unique(t: Seq<(Seq<char>, Node)>, k: Seq<char>, n: Node)
    requires
        unique_keys(t),
    ensures
        unique_keys(put(t, k, n)),
{
    lemma_key_index(t, k);
}

/// Merging a table with distinct keys into an empty one gives that table.
pub proof fn lemma_merge_into_empty(t: Seq<(Seq<char>, Node)>)
    requires
        unique_keys(t),
    ensures
        merge_entries(Seq::empty(), t) == t,
    decreases t.len(),
{
    if t.len() > 0 {
        let t1 = t.drop_last();
        assert(unique_keys(t1));
        lemma_merge_into_empty(t1);
        lemma_key_index(t1, t.last().0);
        if key_index(t1, t.last().0) is Some {
            let i = key_index(t1, t.last().0)->0;
            assert(t[i].0 == t1[i].0);
        }
        assert(t1.push(t.last()) =~= t);
    }
}

/// Later sources override earlier ones: a key whose last definition, among the
/// tables merged in order, is not a table ends with that definition's value.
pub proof fn lemma_last_definition_wins(ts: Seq<Seq<(Seq<char>, Node)>>, k: Seq<char>, j: int)
    requires
        forall|i: int| 0 <= i < ts.len() ==> #[trigger] unique_keys(ts[i]),
        0 <= j < ts.len(),
        (lookup(ts[j], k) matches Some(n) && !(n is Branch)),
        forall|i: int| j < i < ts.len() ==> #[trigger] key_index(ts[i], k) is None,
    ensures
        lookup(merge_all(ts), k) == lookup(ts[j], k),
    decreases ts.len(),
{
    let last = ts.last();
    assert(unique_keys(last));
    lemma_lookup_merge(merge_all(ts.drop_last()), last, k);
    if j < ts.len() - 1 {
        assert(key_index(last, k) is None);
        lemma_last_definition_wins(ts.drop_last(), k, j);
    }
}

/// Merging three sources in order is folding them pairwise, and a key keeps the
/// value of the last of them that defines it, where that value is not a table.
pub proof fn lemma_merge_order(
    s1: Seq<(Seq<char>, Node)>,
    s2: Seq<(Seq<char>, Node)>,
    s3: Seq<(Seq<char>, Node)>,
    k: Seq<char>,
)
    requires
        unique_keys(s1),
        unique_keys(s2),
        unique_keys(s3),
    ensures
        merge_all(seq![s1, s2, s3]) == merge_entries(
            merge_entries(merge_entries(Seq::empty(), s1), s2),
            s3,
        ),
        (lookup(s3, k) matches Some(n) && !(n is Branch)) ==> lookup(merge_all(seq![s1, s2, s3]), k)
            == lookup(s3, k),
        (key_index(s3, k) is None && (lookup(s2, k) matches Some(n) && !(n is Branch))) ==> lookup(
            merge_all(seq![s1, s2, s3]),
            k,
        ) == lookup(s2, k),
        (key_index(s3, k) is None && key_index(s2, k) is None && (lookup(s1, k) matches Some(n)
            && !(n is Branch))) ==> lookup(merge_all(seq![s1, s2, s3]), k) == lookup(s1, k),
{
    let ts = seq![s1, s2, s3];
    assert(ts.drop_last() =~= seq![s1, s2]);
    assert(ts.drop_last().drop_last() =~= seq![s1]);
    assert(ts.drop_last().drop_last().drop_last() =~= Seq::<Seq<(Seq<char>, Node)>>::empty());
    assert(seq![s1].drop_last() =~= Seq::<Seq<(Seq<char>, Node)>>::empty());
    assert(seq![s1, s2].drop_last() =~= seq![s1]);
    assert(merge_all(Seq::<Seq<(Seq<char>, Node)>>::empty()) == Seq::<(Seq<char>, Node)>::empty());
    assert(merge_all(seq![s1]) == merge_entries(Seq::empty(), s1));
    assert(merge_all(seq![s1, s2]) == merge_entries(merge_all(seq![s1]), s2));
    assert(merge_all(ts) == merge_entries(merge_all(seq![s1, s2]), s3));
    if lookup(s3, k) matches Some(n) && !(n is Branch) {
        lemma_last_definition_wins(ts, k, 2);
    }
    if key_index(s3, k) is None && (lookup(s2, k) matches Some(n) && !(n is Branch)) {
        lemma_last_definition_wins(ts, k, 1);
    }
    if key_index(s3, k) is None && key_index(s2, k) is None && (lookup(s1, k) matches Some(n)
        && !(n is Branch)) {
        lemma_last_definition_wins(ts, k, 0);
    }
}

/// A merge holds exactly the keys of both tables.
pub proof fn lemma_merge_keys(a: Seq<(Seq<char>, Node)>, b: Seq<(Seq<char>, Node)>, k: Seq<char>)
    ensures
        key_index(merge_entries(a, b), k) is Some <==> (key_index(a, k) is Some || key_index(b, k) is Some),
    decreases b.len(),
{
    if b.len() > 0 {
        let b1 = b.drop_last();
        lemma_merge_keys(a, b1, k);
        let acc = merge_entries(a, b1);
        let r = merge_entries(a, b);
        let kb = b.last().0;
        lemma_key_index(acc, kb);
        lemma_key_index(acc, k);
        lemma_key_index(r, k);
        match key_index(acc, kb) {
            Some(i) => {
                assert(forall|j: int| 0 <= j < acc.len() ==> #[trigger] acc[j].0 == r[j].0);
                lemma_same_keys(acc, r, k);
            },
            None => {
                assert(r.drop_last() =~= acc);
            },
        }
    }
}

/// Deep merge keeps siblings: where both tables hold a table under `k`, the
/// result holds there the merge of the two, whose keys are those of both; a key
/// that the incoming inner table lacks keeps its earlier value and one it sets
/// to a non-table takes the new value.
pub proof fn lemma_deep_merge_keeps_siblings(
    a: Seq<(Seq<char>, Node)>,
    b: Seq<(Seq<char>, Node)>,
    k: Seq<char>,
    inner: Seq<char>,
)
    requires
        unique_keys(b),
        lookup(a, k) matches Some(Node::Branch(x)),
        (lookup(b, k) matches Some(Node::Branch(y)) && unique_keys(y)),
    ensures
        ({
            let x = lookup(a, k)->0->Branch_0;
            let y = lookup(b, k)->0->Branch_0;
            &&& lookup(merge_entries(a, b), k) == Some(Node::Branch(merge_entries(x, y)))
            &&& (key_index(merge_entries(x, y), inner) is Some <==> (key_index(x, inner) is Some
                || key_index(y, inner) is Some))
            &&& key_index(y, inner) is None ==> lookup(merge_entries(x, y), inner) == lookup(x, inner)
            &&& (lookup(y, inner) matches Some(n) && !(n is Branch)) ==> lookup(
                merge_entries(x, y),
                inner,
            ) == lookup(y, inner)
        }),
{
    lemma_lookup_merge(a, b, k);
    lemma_lookup_merge(lookup(a, k)->0->Branch_0, lookup(b, k)->0->Branch_0, inner);
    lemma_merge_keys(lookup(a, k)->0->Branch_0, lookup(b, k)->0->Branch_0, inner);
}

impl Table {
    /// An empty table.
    pub fn new() -> (r: Table)
        ensures
            r@ == Seq::<(Seq<char>, Node)>::empty(),
            deep_unique(r@),
    {
        Table { entries: Vec::new() }
    }

    /// Sets `key` to `value`: an entry with that key takes the new value in its
    /// place, and a new key goes last.
    pub fn insert(&mut self, key: &str, value: Value)
        ensures
            final(self)@ == put(old(self)@, key@, value.node()),
            unique_keys(old(self)@) ==> unique_keys(final(self)@),
            deep_unique(old(self)@) && node_wf(value.node()) ==> deep_unique(final(self)@),
    {
        proof {
            if unique_keys(self@) {
                lemma_put_unique(self@, key@, value.node());
            }
            if deep_unique(self@) && node_wf(value.node()) {
                lemma_put_deep_unique(self@, key@, value.node());
            }
        }
        let k = key.to_owned();
        let pos = self.position(&k);
        proof {
            lemma_entries_model(self.entries@);
            lemma_key_index(self@, key@);
        }
        match pos {
            Some(i) => {
                self.entries.remove(i);
                self.entries.insert(i, (k, value));
                proof {
                    lemma_entries_model(self.entries@);
                    assert(self@ =~= put(old(self)@, key@, value.node()));
                }
            },
            None => {
                self.entries.push((k, value));
                proof {
                    lemma_entries_model(self.entries@);
                    assert(self@ =~= put(old(self)@, key@, value.node()));
                }
            },
        }
    }

    /// The value stored under `key`.
    pub fn get(&self, key: &str) -> (r: Option<&Value>)
        ensures
            match key_index(self@, key@) {
                Some(i) => r == Some(&self.entries@[i].1) && lookup(self@, key@) == Some(
                    self.entries@[i].1.node(),
                ),
                None => r is None && lookup(self@, key@) is None,
            },
    {
        let k = key.to_owned();
        proof {
            lemma_entries_model(self.entries@);
        }
        match self.position(&k) {
            Some(i) => {
                proof {
                    lemma_key_index(self@, key@);
                }
                Some(&self.entries[i].1)
            },
            None => None,
        }
    }

    /// The position of the first entry with key `key`.
    fn position(&self, key: &String) -> (r: Option<usize>)
        ensures
            match r {
                Some(i) => key_index(self@, key@) == Some(i as int),
                None => key_index(self@, key@) is None,
            },
    {
        proof {
            lemma_entries_model(self.entries@);
            lemma_key_index(self@, key@);
        }
        let mut j: usize = 0;
        while j < self.entries.len()
            invariant
                j <= self.entries@.len(),
                self@.len() == self.entries@.len(),
                forall|m: int|
                    0 <= m < self.entries@.len() ==> #[trigger] self@[m] == (
                        self.entries@[m].0@,
                        self.entries@[m].1.node(),
                    ),
                forall|m: int| 0 <= m < j ==> self@[m].0 != key@,
            decreases self.entries.len() - j,
        {
            if self.entries[j].0 == *key {
                proof {
                    lemma_key_index(self@, key@);
                    assert(self@[j as int].0 == key@);
                }
                return Some(j);
            }
            j += 1;
        }
        None
    }
}

/// Deep-merges `other` into `base`: for each key of `other`, in order, two
/// tables merge recursively and any other value replaces what `base` held.
pub fn merge_tables(base: &mut Table, other: Table)
    ensures
        final(base)@ == merge_entries(old(base)@, other@),
        unique_keys(old(base)@) ==> unique_keys(final(base)@),
        deep_unique(old(base)@) && deep_unique(other@) ==> deep_unique(final(base)@),
{
    proof {
        if unique_keys(base@) {
            lemma_merge_unique(base@, other@);
        }
        if deep_unique(base@) && deep_unique(other@) {
            lemma_merge_deep_unique(base@, other@);
        }
    }
    let ghost m = other@;
    merge_into(base, other, Ghost(m));
}

/// `merge_tables`, with the model of `other` as the measure of the recursion.
fn merge_into(base: &mut Table, other: Table, Ghost(m): Ghost<Seq<(Seq<char>, Node)>>)
    requires
        m == other@,
    ensures
        final(base)@ == merge_entries(old(base)@, other@),
    decreases m,
{
    let ghost a0 = base@;
    let ghost o = other;
    let mut rest = other.entries;
    let ghost mut j: int = 0;
    proof {
        lemma_entries_model(o.entries@);
        assert(o@.take(0) =~= Seq::<(Seq<char>, Node)>::empty());
        assert(rest@ =~= o.entries@.skip(0));
    }
    while rest.len() > 0
        invariant
            0 <= j,
            j + rest@.len() == o.entries@.len(),
            rest@ == o.entries@.skip(j),
            base@ == merge_entries(a0, o@.take(j)),
            o@.len() == o.entries@.len(),
            m == o@,
            forall|m: int|
                0 <= m < o.entries@.len() ==> #[trigger] o@[m] == (
                    o.entries@[m].0@,
                    o.entries@[m].1.node(),
                ),
        decreases rest.len(),
    {
        let ghost acc = base@;
        let (k, v) = rest.remove(0);
        proof {
            assert(o.entries@[j] == (k, v));
            assert(o@.take(j + 1).drop_last() =~= o@.take(j));
            assert(o@.take(j + 1).last() == (k@, v.node()));
            lemma_entries_model(base.entries@);
        }
        let pos = base.position(&k);
        proof {
            lemma_key_index(acc, k@);
        }
        match pos {
            Some(i) => {
                let (_, old_v) = base.entries.remove(i);
                let ghost old_node = old_v.node();
                let ghost new_node = v.node();
                let new_v = match (old_v, v) {
                    (Value::Table(mut x), Value::Table(y)) => {
                        proof {
                            assert(o@[j] == (k@, Node::Branch(y@)));
                            assert(decreases_to!(o@ => o@[j]));
                            assert(decreases_to!(o@[j] => o@[j].1));
                            let ghost nd = o@[j].1;
                            assert(nd->Branch_0 == y@);
                            assert(decreases_to!(nd => nd->Branch_0));
                            assert(decreases_to!(m => y@));
                        }
                        merge_into(&mut x, y, Ghost(y@));
                        Value::Table(x)
                    },
                    (_, w) => w,
                };
                base.entries.insert(i, (k, new_v));
                proof {
                    lemma_entries_model(base.entries@);
                    assert(base@ =~= acc.update(i as int, (k@, new_v.node())));
                }
            },
            None => {
                base.entries.push((k, v));
                proof {
                    lemma_entries_model(base.entries@);
                    assert(base@ =~= acc.push((k@, v.node())));
                }
            },
        }
        proof {
            j = j + 1;
            assert(rest@ =~= o.entries@.skip(j));
        }
    }
    proof {
        assert(o@.take(j) =~= o@);
    }
}

} // verus!
