//! The application-layer cache of static files: a map from a file's path to
//! the bytes that were sent for it.
use vstd::prelude::*;
use crate::text::{matches_at, occurs_at};

verus! {

/// One cached file.
struct CacheEntry {
    path: Vec<u8>,
    content: Vec<u8>,
}

/// The mathematical value of a cached file.
pub struct EntryView {
    pub path: Seq<u8>,
    pub content: Seq<u8>,
}

impl View for CacheEntry {
    type V = EntryView;

    closed spec fn view(&self) -> EntryView {
        EntryView { path: self.path@, content: self.content@ }
    }
}

/// The map that a list of entries stands for (later entries win).
pub open spec fn entries_map(s: Seq<EntryView>) -> Map<Seq<u8>, Seq<u8>>
    decreases s.len(),
{
    if s.len() == 0 {
        Map::empty()
    } else {
        entries_map(s.drop_last()).insert(s.last().path, s.last().content)
    }
}

/// No path occurs twice.
pub open spec fn distinct_paths(s: Seq<EntryView>) -> bool {
    forall|i: int, j: int| 0 <= i < s.len() && 0 <= j < s.len() && i != j ==> s[i].path != s[j].path
}

/// With distinct paths, the map holds exactly the listed paths, each with its content.
proof fn lemma_entries_map(s: Seq<EntryView>)
    requires
        distinct_paths(s),
    ensures
        forall|k: Seq<u8>| #[trigger]
            entries_map(s).contains_key(k) <==> exists|i: int| 0 <= i < s.len() && s[i].path == k,
        forall|i: int| 0 <= i < s.len() ==> #[trigger] entries_map(s)[s[i].path] == s[i].content,
    decreases s.len(),
{
    if s.len() > 0 {
        let p = s.drop_last();
        assert(distinct_paths(p));
        lemma_entries_map(p);
        assert forall|k: Seq<u8>| #[trigger]
            entries_map(s).contains_key(k) <==> exists|i: int| 0 <= i < s.len() && s[i].path == k by {
            assert(entries_map(s) == entries_map(p).insert(s.last().path, s.last().content));
            if entries_map(s).contains_key(k) && k != s.last().path {
                assert(entries_map(p).contains_key(k));
                let i = choose|i: int| 0 <= i < p.len() && p[i].path == k;
                assert(s[i] == p[i]);
                assert(s[i].path == k);
            }
            if k == s.last().path {
                assert(s[s.len() - 1].path == k);
            }
            if exists|i: int| 0 <= i < s.len() && s[i].path == k {
                let i = choose|i: int| 0 <= i < s.len() && s[i].path == k;
                if i < s.len() - 1 {
                    assert(p[i].path == k);
                }
            }
        }
        assert forall|i: int| 0 <= i < s.len() implies #[trigger] entries_map(s)[s[i].path]
            == s[i].content by {
            assert(entries_map(s) == entries_map(p).insert(s.last().path, s.last().content));
            if i < s.len() - 1 {
                assert(p[i] == s[i]);
                assert(s[i].path != s[s.len() - 1].path);
                assert(entries_map(p)[p[i].path] == p[i].content);
            }
        }
    }
}

/// Two entry lists with distinct paths, holding the same paths with the same
/// contents, stand for the same map.
proof fn lemma_entries_map_same(s: Seq<EntryView>, m: Map<Seq<u8>, Seq<u8>>)
    requires
        distinct_paths(s),
        forall|k: Seq<u8>| #[trigger]
            m.contains_key(k) <==> exists|i: int| 0 <= i < s.len() && s[i].path == k,
        forall|i: int| 0 <= i < s.len() ==> #[trigger] m[s[i].path] == s[i].content,
    ensures
        entries_map(s) == m,
{
    lemma_entries_map(s);
    assert forall|k: Seq<u8>| #[trigger] m.contains_key(k) implies entries_map(s)[k] == m[k] by {
        let i = choose|i: int| 0 <= i < s.len() && s[i].path == k;
    }
    assert(entries_map(s) =~= m);
}

/// The cache of file contents, keyed by path.
///
/// The entries are held in a list whose paths are distinct, rather than in
/// vstd's specified `HashMap`: vstd's map contracts describe lookups only
/// for key types whose hashing and equality it models, and a path here is a
/// byte string, for which it gives no such model.
pub struct FileCache {
    entries: Vec<CacheEntry>,
}

impl FileCache {
    #[verifier::type_invariant]
    spec fn paths_distinct(self) -> bool {
        distinct_paths(self.entries@.map_values(|e: CacheEntry| e@))
    }

    spec fn seq(self) -> Seq<EntryView> {
        self.entries@.map_values(|e: CacheEntry| e@)
    }
}

impl View for FileCache {
    type V = Map<Seq<u8>, Seq<u8>>;

    closed spec fn view(&self) -> Map<Seq<u8>, Seq<u8>> {
        entries_map(self.entries@.map_values(|e: CacheEntry| e@))
    }
}

impl FileCache {
    /// An empty cache.
    pub fn new() -> (c: FileCache)
        ensures
            c@ == Map::<Seq<u8>, Seq<u8>>::empty(),
    {
        let c = FileCache { entries: Vec::new() };
        assert(c.seq() =~= Seq::<EntryView>::empty());
        c
    }

    /// The index of the entry for `path`, if any.
    fn index_of(&self, path: &[u8]) -> (r: Option<usize>)
        ensures
            match r {
                Some(i) => i < self.seq().len() && self.seq()[i as int].path == path@,
                None => forall|i: int| 0 <= i < self.seq().len() ==> self.seq()[i].path != path@,
            },
    {
        let n = self.entries.len();
        let mut i: usize = 0;
        while i < n
            invariant
                n == self.seq().len(),
                i <= n,
                forall|j: int| 0 <= j < i ==> self.seq()[j].path != path@,
            decreases n - i,
        {
            let e = &self.entries[i];
            assert(self.seq()[i as int] == e@);
            if e.path.len() == path.len() && matches_at(e.path.as_slice(), path, 0) {
                assert(e.path@.subrange(0, path@.len() as int) =~= e.path@);
                return Some(i);
            }
            proof {
                if e.path@ == path@ {
                    assert(occurs_at(e.path@, path@, 0)) by {
                        assert(e.path@.subrange(0, path@.len() as int) =~= e.path@);
                    }
                }
            }
            i = i + 1;
        }
        None
    }

    /// The cached content for `path`, if the cache holds it.
    pub fn lookup(&self, path: &[u8]) -> (r: Option<&Vec<u8>>)
        ensures
            match r {
                Some(c) => self@.contains_key(path@) && c@ == self@[path@],
                None => !self@.contains_key(path@),
            },
    {
        proof {
            use_type_invariant(self);
            lemma_entries_map(self.seq());
        }
        match self.index_of(path) {
            Some(i) => {
                assert(self.seq()[i as int] == self.entries@[i as int]@);
                Some(&self.entries[i].content)
            },
            None => None,
        }
    }

    /// Stores `content` for `path`, replacing what was cached for it.
    pub fn insert(&mut self, path: Vec<u8>, content: Vec<u8>)
        ensures
            final(self)@ == old(self)@.insert(path@, content@),
    {
        proof {
            use_type_invariant(&*self);
            lemma_entries_map(self.seq());
        }
        let ghost old_seq = self.seq();
        let ghost old_map = self@;
        let ghost new_entry = EntryView { path: path@, content: content@ };
        let found = self.index_of(path.as_slice());
        let mut entries = Vec::new();
        std::mem::swap(&mut entries, &mut self.entries);
        assert(entries@.map_values(|e: CacheEntry| e@) == old_seq);
        match found {
            Some(i) => {
                entries.set(i, CacheEntry { path, content });
                let ghost s = entries@.map_values(|e: CacheEntry| e@);
                assert(s =~= old_seq.update(i as int, new_entry));
                assert(distinct_paths(s)) by {
                    assert forall|a: int, b: int|
                        0 <= a < s.len() && 0 <= b < s.len() && a != b implies s[a].path
                        != s[b].path by {
                        if a != i && b != i {
                            assert(s[a] == old_seq[a] && s[b] == old_seq[b]);
                        } else if a == i {
                            assert(s[b] == old_seq[b]);
                        } else {
                            assert(s[a] == old_seq[a]);
                        }
                    }
                }
                proof {
                    let m = old_map.insert(path@, content@);
                    assert forall|k: Seq<u8>| #[trigger]
                        m.contains_key(k) <==> exists|j: int| 0 <= j < s.len() && s[j].path == k by {
                        if m.contains_key(k) && k != path@ {
                            let j = choose|j: int| 0 <= j < old_seq.len() && old_seq[j].path == k;
                            assert(s[j] == old_seq[j]);
                        }
                        if exists|j: int| 0 <= j < s.len() && s[j].path == k {
                            let j = choose|j: int| 0 <= j < s.len() && s[j].path == k;
                            if j != i {
                                assert(s[j] == old_seq[j]);
                            }
                        }
                        if k == path@ {
                            assert(s[i as int].path == k);
                        }
                    }
                    assert forall|j: int| 0 <= j < s.len() implies #[trigger] m[s[j].path]
                        == s[j].content by {
                        if j != i {
                            assert(s[j] == old_seq[j]);
                        }
                    }
                    lemma_entries_map_same(s, m);
                }
            },
            None => {
                entries.push(CacheEntry { path, content });
                let ghost s = entries@.map_values(|e: CacheEntry| e@);
                assert(s =~= old_seq.push(new_entry));
                assert(s.drop_last() =~= old_seq);
                assert(distinct_paths(s)) by {
                    assert forall|a: int, b: int|
                        0 <= a < s.len() && 0 <= b < s.len() && a != b implies s[a].path
                        != s[b].path by {
                        if a < old_seq.len() && b < old_seq.len() {
                            assert(s[a] == old_seq[a] && s[b] == old_seq[b]);
                        } else if a < old_seq.len() {
                            assert(s[a] == old_seq[a]);
                        } else {
                            assert(s[b] == old_seq[b]);
                        }
                    }
                }
            },
        }
        self.entries = entries;
    }
}

/// What the cache gives back for a path is what was last stored for it, and
/// storing for one path leaves every other path's entry as it was.
pub proof fn law_cache_read_after_write(
    m: Map<Seq<u8>, Seq<u8>>,
    path: Seq<u8>,
    content: Seq<u8>,
    other: Seq<u8>,
)
    ensures
        m.insert(path, content).contains_key(path),
        m.insert(path, content)[path] == content,
        other != path ==> (m.insert(path, content).contains_key(other) == m.contains_key(other)),
        other != path && m.contains_key(other) ==> m.insert(path, content)[other] == m[other],
{
}

} // verus!
