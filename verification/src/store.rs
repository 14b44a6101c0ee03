//! The contract's persistent storage of jars, keyed by jar id (slug).

use vstd::prelude::*;

use crate::types::{bytes_eq, Jar, JarView};

verus! {

/// One stored jar under its id.
pub struct JarEntry {
    pub jar_id: Vec<u8>,
    pub jar: Jar,
}

/// The jars held by a list of entries, as a map from id to jar; a later
/// entry under the same id wins.
pub open spec fn entries_map(s: Seq<JarEntry>) -> Map<Seq<u8>, JarView>
    decreases s.len(),
{
    if s.len() == 0 {
        Map::empty()
    } else {
        entries_map(s.drop_last()).insert(s.last().jar_id@, s.last().jar@)
    }
}

/// No id occurs in two entries.
pub open spec fn ids_distinct(s: Seq<JarEntry>) -> bool {
    forall|i: int, j: int| 0 <= i < j < s.len() ==> s[i].jar_id@ != s[j].jar_id@
}

/// An id is stored exactly when some entry carries it.
proof fn lemma_entries_map_dom(s: Seq<JarEntry>, k: Seq<u8>)
    ensures
        entries_map(s).dom().contains(k) <==> exists|i: int|
            0 <= i < s.len() && (#[trigger] s[i]).jar_id@ == k,
    decreases s.len(),
{
    if s.len() > 0 {
        let d = s.drop_last();
        lemma_entries_map_dom(d, k);
        if entries_map(s).dom().contains(k) {
            if s.last().jar_id@ != k {
                let i = choose|i: int| 0 <= i < d.len() && (#[trigger] d[i]).jar_id@ == k;
                assert(s[i] == d[i]);
            } else {
                assert(s[s.len() - 1].jar_id@ == k);
            }
        }
        if exists|i: int| 0 <= i < s.len() && (#[trigger] s[i]).jar_id@ == k {
            let i = choose|i: int| 0 <= i < s.len() && (#[trigger] s[i]).jar_id@ == k;
            if i < s.len() - 1 {
                assert(d[i] == s[i]);
            }
        }
    }
}

/// With distinct ids, the map holds each entry's jar under its id.
proof fn lemma_entries_map_value(s: Seq<JarEntry>, i: int)
    requires
        ids_distinct(s),
        0 <= i < s.len(),
    ensures
        entries_map(s).dom().contains(s[i].jar_id@),
        entries_map(s)[s[i].jar_id@] == s[i].jar@,
    decreases s.len(),
{
    if i < s.len() - 1 {
        let d = s.drop_last();
        assert(d[i] == s[i]);
        assert(ids_distinct(d));
        lemma_entries_map_value(d, i);
        assert(s[i].jar_id@ != s[s.len() - 1].jar_id@);
    }
}

/// A list of stored jars with distinct ids.
pub struct JarStore {
    entries: Vec<JarEntry>,
}

impl View for JarStore {
    type V = Map<Seq<u8>, JarView>;

    closed spec fn view(&self) -> Map<Seq<u8>, JarView> {
        entries_map(self.entries@)
    }
}

impl JarStore {
    /// The store's ids are distinct.
    pub closed spec fn wf(&self) -> bool {
        ids_distinct(self.entries@)
    }

    /// An empty store.
    pub fn new() -> (r: JarStore)
        ensures
            r.wf(),
            r@ == Map::<Seq<u8>, JarView>::empty(),
    {
        JarStore { entries: Vec::new() }
    }

    /// The position of `jar_id`, if it is stored.
    fn find(&self, jar_id: &Vec<u8>) -> (r: Option<usize>)
        requires
            self.wf(),
        ensures
            match r {
                Some(i) => {
                    &&& i < self.entries@.len()
                    &&& self.entries@[i as int].jar_id@ == jar_id@
                    &&& self@.dom().contains(jar_id@)
                    &&& self@[jar_id@] == self.entries@[i as int].jar@
                },
                None => !self@.dom().contains(jar_id@),
            },
    {
        let n = self.entries.len();
        let mut i: usize = 0;
        while i < n
            invariant
                self.wf(),
                n == self.entries@.len(),
                i <= n,
                forall|k: int| 0 <= k < i ==> (#[trigger] self.entries@[k]).jar_id@ != jar_id@,
            decreases n - i,
        {
            if bytes_eq(&self.entries[i].jar_id, jar_id) {
                proof {
                    lemma_entries_map_value(self.entries@, i as int);
                }
                return Some(i);
            }
            i = i + 1;
        }
        proof {
            lemma_entries_map_dom(self.entries@, jar_id@);
        }
        None
    }

    /// Whether a jar is stored under `jar_id`.
    pub fn contains(&self, jar_id: &Vec<u8>) -> (r: bool)
        requires
            self.wf(),
        ensures
            r == self@.dom().contains(jar_id@),
    {
        self.find(jar_id).is_some()
    }

    /// A copy of the jar stored under `jar_id`, if any.
    pub fn get(&self, jar_id: &Vec<u8>) -> (r: Option<Jar>)
        requires
            self.wf(),
        ensures
            match r {
                Some(j) => self@.dom().contains(jar_id@) && j@ == self@[jar_id@],
                None => !self@.dom().contains(jar_id@),
            },
    {
        match self.find(jar_id) {
            Some(i) => Some(self.entries[i].jar.duplicate()),
            None => None,
        }
    }

    /// Store `jar` under `jar_id`, replacing what was there.
    pub fn insert(&mut self, jar_id: Vec<u8>, jar: Jar)
        requires
            old(self).wf(),
        ensures
            final(self).wf(),
            final(self)@ == old(self)@.insert(jar_id@, jar@),
    {
        let ghost pre = self.entries@;
        let ghost key = jar_id@;
        let ghost value = jar@;
        match self.find(&jar_id) {
            Some(i) => {
                self.entries.set(i, JarEntry { jar_id, jar });
                proof {
                    let post = self.entries@;
                    assert(ids_distinct(post)) by {
                        assert forall|a: int, b: int| 0 <= a < b < post.len() implies post[a].jar_id@
                            != post[b].jar_id@ by {
                            if a != i && b != i {
                                assert(post[a] == pre[a] && post[b] == pre[b]);
                            } else if a == i {
                                assert(post[b] == pre[b]);
                            } else {
                                assert(post[a] == pre[a]);
                            }
                        }
                    }
                    assert(entries_map(post) =~= entries_map(pre).insert(key, value)) by {
                        assert forall|k: Seq<u8>| #[trigger] entries_map(post).dom().contains(k)
                            <==> entries_map(pre).insert(key, value).dom().contains(k) by {
                            lemma_entries_map_dom(post, k);
                            lemma_entries_map_dom(pre, k);
                            assert(post[i as int].jar_id@ == key);
                            assert(pre[i as int].jar_id@ == key);
                            if k == key {
                                assert(post[i as int].jar_id@ == k);
                            }
                            if exists|j: int| 0 <= j < pre.len() && (#[trigger] pre[j]).jar_id@ == k {
                                let j = choose|j: int| 0 <= j < pre.len() && (#[trigger] pre[j]).jar_id@ == k;
                                if j != i {
                                    assert(post[j] == pre[j]);
                                }
                            }
                            if exists|j: int| 0 <= j < post.len() && (#[trigger] post[j]).jar_id@ == k {
                                let j = choose|j: int| 0 <= j < post.len() && (#[trigger] post[j]).jar_id@ == k;
                                if j != i {
                                    assert(post[j] == pre[j]);
                                }
                            }
                        }
                        assert forall|k: Seq<u8>| #[trigger] entries_map(post).dom().contains(k)
                            implies entries_map(post)[k] == entries_map(pre).insert(key, value)[k] by {
                            lemma_entries_map_dom(post, k);
                            let j = choose|j: int| 0 <= j < post.len() && (#[trigger] post[j]).jar_id@ == k;
                            lemma_entries_map_value(post, j);
                            if j != i {
                                assert(post[j] == pre[j]);
                                lemma_entries_map_value(pre, j);
                            }
                        }
                    }
                }
            },
            None => {
                self.entries.push(JarEntry { jar_id, jar });
                proof {
                    let post = self.entries@;
                    assert(post.drop_last() =~= pre);
                    assert(ids_distinct(post)) by {
                        assert forall|a: int, b: int| 0 <= a < b < post.len() implies post[a].jar_id@
                            != post[b].jar_id@ by {
                            assert(post[a] == pre[a]);
                            if b < pre.len() {
                                assert(post[b] == pre[b]);
                            } else {
                                lemma_entries_map_dom(pre, key);
                            }
                        }
                    }
                }
            },
        }
    }
}

} // verus!
