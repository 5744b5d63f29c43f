use vstd::prelude::*;

verus! {

/// A table held as a sequence of (name, value) entries, keyed by the name.
pub open spec fn has_key<V>(s: Seq<(Seq<char>, V)>, k: Seq<char>) -> bool {
    exists|i: int| 0 <= i < s.len() && #[trigger] s[i].0 == k
}

/// The value that a table holds under a name; meaningful where the name is present.
pub open spec fn value_of<V>(s: Seq<(Seq<char>, V)>, k: Seq<char>) -> V {
    s[choose|i: int| 0 <= i < s.len() && #[trigger] s[i].0 == k].1
}

/// No two entries of the table share a name.
pub open spec fn keys_unique<V>(s: Seq<(Seq<char>, V)>) -> bool {
    forall|i: int, j: int|
        0 <= i < s.len() && 0 <= j < s.len() && i != j ==> #[trigger] s[i].0 != #[trigger] s[j].0
}

/// The table as a mapping from names to values.
pub open spec fn as_map<V>(s: Seq<(Seq<char>, V)>) -> Map<Seq<char>, V> {
    Map::new(|k: Seq<char>| has_key(s, k), |k: Seq<char>| value_of(s, k))
}

/// The view of an executable table: each name by its characters.
pub open spec fn entries<V>(v: Seq<(String, V)>) -> Seq<(Seq<char>, V)> {
    v.map_values(|p: (String, V)| (p.0@, p.1))
}

/// In a table with unique names, the entry found at an index is the one
/// that the table holds under its name.
pub proof fn lemma_value_at_index<V>(s: Seq<(Seq<char>, V)>, i: int)
    requires
        keys_unique(s),
        0 <= i < s.len(),
    ensures
        has_key(s, s[i].0),
        value_of(s, s[i].0) == s[i].1,
{
    let k = s[i].0;
    assert(s[i].0 == k);
    let j = choose|j: int| 0 <= j < s.len() && #[trigger] s[j].0 == k;
    assert(i == j);
}

/// The index of the entry named `k`, if the table has one.
pub fn position_of<V>(v: &Vec<(String, V)>, k: &String) -> (r: Option<usize>)
    ensures
        match r {
            Some(i) => i < v@.len() && entries(v@)[i as int].0 == k@,
            None => !has_key(entries(v@), k@),
        },
{
    let n = v.len();
    let mut i: usize = 0;
    while i < n
        invariant
            n == v@.len(),
            i <= n,
            forall|j: int| 0 <= j < i ==> #[trigger] entries(v@)[j].0 != k@,
        decreases n - i,
    {
        if v[i].0 == *k {
            return Some(i);
        }
        i = i + 1;
    }
    assert(!has_key(entries(v@), k@)) by {
        if has_key(entries(v@), k@) {
            let j = choose|j: int| 0 <= j < entries(v@).len() && #[trigger] entries(v@)[j].0 == k@;
            assert(entries(v@)[j].0 != k@);
        }
    }
    None
}

} // verus!
