use vstd::prelude::*;

verus! {

/// The attributes of an element, in the order in which their names first
/// appeared. Each name occurs once; a later value for a name replaces the
/// earlier one in place.
#[derive(Debug, Clone, PartialEq, Eq)]
pub struct AttrMap {
    entries: Vec<(String, String)>,
}

/// The position of the first entry named `k` at or after `i`, or -1.
pub open spec fn find_key(e: Seq<(Seq<char>, Seq<char>)>, k: Seq<char>, i: int) -> int
    decreases e.len() - i,
{
    if i < 0 || i >= e.len() {
        -1
    } else if e[i].0 == k {
        i
    } else {
        find_key(e, k, i + 1)
    }
}

/// What `find_key` returns: -1 where no entry from `i` on is named `k`,
/// else the first such entry.
pub proof fn lemma_find_key(e: Seq<(Seq<char>, Seq<char>)>, k: Seq<char>, i: int)
    requires
        0 <= i,
    ensures
        find_key(e, k, i) == -1 || (i <= find_key(e, k, i) < e.len() && e[find_key(e, k, i)].0
            == k),
        find_key(e, k, i) == -1 ==> forall|j: int| i <= j < e.len() ==> e[j].0 != k,
        find_key(e, k, i) >= 0 ==> forall|j: int| i <= j < find_key(e, k, i) ==> e[j].0 != k,
    decreases e.len() - i,
{
    if i < e.len() && e[i].0 != k {
        lemma_find_key(e, k, i + 1);
    }
}

/// The entries after setting `k` to `v`: replaced in place where `k` is
/// present, appended otherwise.
pub open spec fn attr_insert(
    e: Seq<(Seq<char>, Seq<char>)>,
    k: Seq<char>,
    v: Seq<char>,
) -> Seq<(Seq<char>, Seq<char>)> {
    let j = find_key(e, k, 0);
    if j >= 0 {
        e.update(j, (k, v))
    } else {
        e.push((k, v))
    }
}

/// No two entries share a name.
pub open spec fn keys_unique(e: Seq<(Seq<char>, Seq<char>)>) -> bool {
    forall|i: int, j: int| 0 <= i < j < e.len() ==> e[i].0 != e[j].0
}

/// The entries as a mapping from name to value.
pub open spec fn attr_map(e: Seq<(Seq<char>, Seq<char>)>) -> Map<Seq<char>, Seq<char>> {
    Map::new(|k: Seq<char>| find_key(e, k, 0) >= 0, |k: Seq<char>| e[find_key(e, k, 0)].1)
}

proof fn lemma_find_unique(e: Seq<(Seq<char>, Seq<char>)>, k: Seq<char>, i: int)
    requires
        keys_unique(e),
        0 <= i < e.len(),
        e[i].0 == k,
    ensures
        find_key(e, k, 0) == i,
{
    lemma_find_key(e, k, 0);
}

/// Setting a name keeps the names unique, and the mapping gains that name
/// or has its value replaced: a name maps to the last value set for it.
pub proof fn lemma_attr_insert(e: Seq<(Seq<char>, Seq<char>)>, k: Seq<char>, v: Seq<char>)
    requires
        keys_unique(e),
    ensures
        keys_unique(attr_insert(e, k, v)),
        attr_map(attr_insert(e, k, v)) == attr_map(e).insert(k, v),
{
    lemma_find_key(e, k, 0);
    let r = attr_insert(e, k, v);
    let j = if find_key(e, k, 0) >= 0 {
        find_key(e, k, 0)
    } else {
        e.len() as int
    };
    assert(r[j] == (k, v));
    assert forall|a: int, b: int| 0 <= a < b < r.len() implies r[a].0 != r[b].0 by {
        if b == j {
            assert(r[a].0 == e[a].0);
        } else if a == j {
            assert(r[b].0 == e[b].0);
        } else {
            assert(r[a].0 == e[a].0 && r[b].0 == e[b].0);
        }
    }
    lemma_find_unique(r, k, j);
    assert forall|k2: Seq<char>| k2 != k implies find_key(r, k2, 0) == find_key(e, k2, 0) by {
        lemma_find_key(e, k2, 0);
        lemma_find_key(r, k2, 0);
        if find_key(e, k2, 0) >= 0 {
            assert(r[find_key(e, k2, 0)] == e[find_key(e, k2, 0)]);
            lemma_find_unique(r, k2, find_key(e, k2, 0));
        } else if find_key(r, k2, 0) >= 0 {
            assert(r[find_key(r, k2, 0)].0 == e[find_key(r, k2, 0)].0);
        }
    }
    assert forall|k2: Seq<char>| k2 != k && find_key(e, k2, 0) >= 0 implies r[find_key(r, k2, 0)]
        == e[find_key(e, k2, 0)] by {
        lemma_find_key(e, k2, 0);
        assert(r[find_key(e, k2, 0)] == e[find_key(e, k2, 0)]);
    }
    assert(attr_map(r) =~= attr_map(e).insert(k, v));
}

impl AttrMap {
    /// The entries as pairs of character sequences, in order.
    pub closed spec fn view(&self) -> Seq<(Seq<char>, Seq<char>)> {
        self.entries@.map_values(|p: (String, String)| (p.0@, p.1@))
    }

    pub fn new() -> (r: AttrMap)
        ensures
            r@ == Seq::<(Seq<char>, Seq<char>)>::empty(),
            keys_unique(r@),
    {
        let r = AttrMap { entries: Vec::new() };
        assert(r@ =~= Seq::<(Seq<char>, Seq<char>)>::empty());
        r
    }

    pub fn len(&self) -> (r: usize)
        ensures
            r == self@.len(),
    {
        self.entries.len()
    }

    /// Where the entry named `name` stands, if there is one.
    pub fn position(&self, name: &String) -> (r: Option<usize>)
        ensures
            r matches Some(j) ==> find_key(self@, name@, 0) == j,
            r is None ==> find_key(self@, name@, 0) == -1,
    {
        let mut i: usize = 0;
        while i < self.entries.len()
            invariant
                i <= self.entries.len(),
                find_key(self@, name@, 0) == find_key(self@, name@, i as int),
            decreases self.entries.len() - i,
        {
            if self.entries[i].0 == *name {
                return Some(i);
            }
            i = i + 1;
        }
        None
    }

    /// The value of the entry named `name`, if there is one.
    pub fn get(&self, name: &str) -> (r: Option<&String>)
        ensures
            find_key(self@, name@, 0) == -1 ==> r is None,
            find_key(self@, name@, 0) >= 0 ==> (r matches Some(v) && v@ == self@[find_key(
                self@,
                name@,
                0,
            )].1),
    {
        let key = name.to_owned();
        proof {
            lemma_find_key(self@, name@, 0);
        }
        match self.position(&key) {
            Some(j) => Some(&self.entries[j].1),
            None => None,
        }
    }

    /// The name and value of the entry at `i`.
    pub fn entry(&self, i: usize) -> (r: (&String, &String))
        requires
            i < self@.len(),
        ensures
            (r.0@, r.1@) == self@[i as int],
    {
        (&self.entries[i].0, &self.entries[i].1)
    }

    /// Sets `name` to `value`; a name already present keeps its place.
    pub fn insert(&mut self, name: String, value: String)
        ensures
            final(self)@ == attr_insert(old(self)@, name@, value@),
            keys_unique(old(self)@) ==> keys_unique(final(self)@) && attr_map(final(self)@)
                == attr_map(old(self)@).insert(name@, value@),
    {
        proof {
            if keys_unique(self@) {
                lemma_attr_insert(self@, name@, value@);
            }
        }
        proof {
            lemma_find_key(self@, name@, 0);
        }
        match self.position(&name) {
            Some(j) => {
                self.entries.set(j, (name, value));
                assert(self@ =~= old(self)@.update(j as int, (name@, value@)));
            },
            None => {
                self.entries.push((name, value));
                assert(self@ =~= old(self)@.push((name@, value@)));
            },
        }
    }
}

} // verus!
