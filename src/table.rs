use vstd::prelude::*;

verus! {

/// Keys of a [`Table`]: equality decidable at run time.
pub trait TableKey: Copy + Sized {
    fn key_eq(&self, other: &Self) -> (r: bool)
        ensures
            r == (*self == *other),
    ;
}

/// The map that a log of writes denotes: the latest write of a key wins.
pub open spec fn log_map<K, V>(s: Seq<(K, V)>) -> Map<K, V>
    decreases s.len(),
{
    if s.len() == 0 {
        Map::empty()
    } else {
        log_map(s.drop_last()).insert(s.last().0, s.last().1)
    }
}

/// A key is mapped exactly when some write of the log names it.
pub proof fn lemma_log_map_dom<K, V>(s: Seq<(K, V)>, k: K)
    ensures
        log_map(s).contains_key(k) <==> exists|j: int| 0 <= j < s.len() && #[trigger] s[j].0 == k,
    decreases s.len(),
{
    if s.len() > 0 {
        lemma_log_map_dom(s.drop_last(), k);
        if log_map(s.drop_last()).contains_key(k) {
            let j = choose|j: int| 0 <= j < s.drop_last().len() && #[trigger] s.drop_last()[j].0 == k;
            assert(s[j].0 == k);
        }
        if exists|j: int| 0 <= j < s.len() && #[trigger] s[j].0 == k {
            let j = choose|j: int| 0 <= j < s.len() && #[trigger] s[j].0 == k;
            if j < s.len() - 1 {
                assert(s.drop_last()[j].0 == k);
            }
        }
    }
}

/// Writes after position `i` that do not name `k` leave its value as it was.
pub proof fn lemma_log_map_suffix<K, V>(s: Seq<(K, V)>, i: int, k: K)
    requires
        0 <= i <= s.len(),
        forall|j: int| i <= j < s.len() ==> #[trigger] s[j].0 != k,
    ensures
        log_map(s).contains_key(k) == log_map(s.take(i)).contains_key(k),
        log_map(s).contains_key(k) ==> log_map(s)[k] == log_map(s.take(i))[k],
    decreases s.len() - i,
{
    if i < s.len() {
        assert(s.drop_last().take(i) =~= s.take(i));
        lemma_log_map_suffix(s.drop_last(), i, k);
    } else {
        assert(s.take(i) =~= s);
    }
}

/// An ordered log of writes to a key space, read through [`log_map`].
pub struct Table<K, V> {
    entries: Vec<(K, V)>,
}

impl<K: TableKey, V: Copy> Table<K, V> {
    /// The writes in the order they were made.
    pub closed spec fn log(&self) -> Seq<(K, V)> {
        self.entries@
    }

    pub open spec fn view(&self) -> Map<K, V> {
        log_map(self.log())
    }

    pub fn new() -> (t: Self)
        ensures
            t@ == Map::<K, V>::empty(),
            t.log().len() == 0,
    {
        Table { entries: Vec::new() }
    }

    /// Number of writes in the log.
    pub fn log_len(&self) -> (r: usize)
        ensures
            r == self.log().len(),
    {
        self.entries.len()
    }

    /// The write at position `i` of the log.
    pub fn entry_at(&self, i: usize) -> (r: (K, V))
        requires
            i < self.log().len(),
        ensures
            r == self.log()[i as int],
    {
        self.entries[i]
    }

    pub fn get(&self, k: &K) -> (r: Option<V>)
        ensures
            r == if self@.contains_key(*k) {
                Some(self@[*k])
            } else {
                None::<V>
            },
    {
        let mut i: usize = self.entries.len();
        while i > 0
            invariant
                i <= self.entries@.len(),
                forall|j: int| i <= j < self.entries@.len() ==> #[trigger] self.entries@[j].0 != *k,
            decreases i,
        {
            let e = self.entries[i - 1];
            if e.0.key_eq(k) {
                proof {
                    let s = self.entries@;
                    lemma_log_map_suffix(s, i as int, *k);
                    assert(s.take(i as int).drop_last() =~= s.take(i - 1));
                    assert(s.take(i as int).last() == e);
                }
                return Some(e.1);
            }
            i = i - 1;
        }
        proof {
            lemma_log_map_suffix(self.entries@, 0, *k);
            assert(self.entries@.take(0) =~= Seq::<(K, V)>::empty());
        }
        None
    }

    pub fn put(&mut self, k: K, v: V)
        ensures
            final(self)@ == old(self)@.insert(k, v),
            final(self).log() == old(self).log().push((k, v)),
    {
        self.entries.push((k, v));
        proof {
            assert(self.entries@.drop_last() =~= old(self).entries@);
        }
    }
}

} // verus!
