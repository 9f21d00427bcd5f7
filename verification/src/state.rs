//! The process-wide substitution state: the rewrite table mapping hidden
//! link paths to their canonical resolved paths, the tracked working
//! directory, and the one-shot initialization flag.
//!
//! The table is modelled as a map from key paths to resolved paths; the
//! underlying vector holds at most one entry per key.  Lookup is by longest
//! textual prefix of a query path.

use vstd::prelude::*;

use crate::paths::is_prefix_of;
use crate::paths::is_absolute;
use crate::paths::joined;
use crate::paths::lemma_equal_length_prefixes;
use crate::paths::starts_with;
use crate::paths::bytes_equal;
use crate::paths::is_absolute_path;
use crate::paths::copy_bytes;
use crate::paths::join_paths;
use crate::paths::suffix_from;
use crate::paths::append_bytes;

verus! {

/// The rewrite map described by a sequence of table entries: each entry in
/// turn binds its key path to its resolved path.
pub open spec fn map_of_entries(entries: Seq<(Vec<u8>, Vec<u8>)>) -> Map<Seq<u8>, Seq<u8>>
    decreases entries.len(),
{
    if entries.len() == 0 {
        Map::empty()
    } else {
        map_of_entries(entries.drop_last()).insert(entries.last().0@, entries.last().1@)
    }
}

/// No two entries hold the same key path.
pub open spec fn entries_unique(entries: Seq<(Vec<u8>, Vec<u8>)>) -> bool {
    forall|i: int, j: int|
        0 <= i < j < entries.len() ==> entries[i].0@ != entries[j].0@
}

/// How many entries hold the key `k`.
pub open spec fn key_count(entries: Seq<(Vec<u8>, Vec<u8>)>, k: Seq<u8>) -> nat
    decreases entries.len(),
{
    if entries.len() == 0 {
        0
    } else {
        key_count(entries.drop_last(), k) + (if entries.last().0@ == k {
            1nat
        } else {
            0nat
        })
    }
}

proof fn lemma_entries_unique_drop_last(entries: Seq<(Vec<u8>, Vec<u8>)>)
    requires
        entries_unique(entries),
        entries.len() > 0,
    ensures
        entries_unique(entries.drop_last()),
{
    assert forall|i: int, j: int|
        0 <= i < j < entries.drop_last().len() implies entries.drop_last()[i].0@
        != entries.drop_last()[j].0@ by {
        assert(entries.drop_last()[i] == entries[i]);
        assert(entries.drop_last()[j] == entries[j]);
    }
}

/// A key is in the rewrite map exactly when some entry holds it.
pub proof fn lemma_map_of_entries_contains(entries: Seq<(Vec<u8>, Vec<u8>)>, k: Seq<u8>)
    ensures
        map_of_entries(entries).contains_key(k) <==> exists|i: int|
            0 <= i < entries.len() && entries[i].0@ == k,
    decreases entries.len(),
{
    if entries.len() == 0 {
    } else {
        lemma_map_of_entries_contains(entries.drop_last(), k);
        if entries.last().0@ == k {
            assert(entries[entries.len() - 1].0@ == k);
        } else {
            if map_of_entries(entries).contains_key(k) {
                let i = choose|i: int|
                    0 <= i < entries.drop_last().len() && entries.drop_last()[i].0@ == k;
                assert(entries[i].0@ == k);
            }
            if exists|i: int| 0 <= i < entries.len() && entries[i].0@ == k {
                let i = choose|i: int| 0 <= i < entries.len() && entries[i].0@ == k;
                assert(i < entries.len() - 1);
                assert(entries.drop_last()[i].0@ == k);
            }
        }
    }
}

/// In a table without repeated keys, the map sends each entry's key to
/// that entry's resolved path.
pub proof fn lemma_map_of_entries_index(entries: Seq<(Vec<u8>, Vec<u8>)>, i: int)
    requires
        entries_unique(entries),
        0 <= i < entries.len(),
    ensures
        map_of_entries(entries).contains_key(entries[i].0@),
        map_of_entries(entries)[entries[i].0@] == entries[i].1@,
    decreases entries.len(),
{
    if i == entries.len() - 1 {
    } else {
        lemma_entries_unique_drop_last(entries);
        assert(entries.drop_last()[i] == entries[i]);
        lemma_map_of_entries_index(entries.drop_last(), i);
        assert(entries[i].0@ != entries.last().0@);
    }
}

/// Appending an entry inserts its binding into the rewrite map.
pub proof fn lemma_map_of_entries_push(entries: Seq<(Vec<u8>, Vec<u8>)>, e: (Vec<u8>, Vec<u8>))
    ensures
        map_of_entries(entries.push(e)) == map_of_entries(entries).insert(e.0@, e.1@),
{
    assert(entries.push(e).drop_last() =~= entries);
    assert(entries.push(e).last() == e);
}

/// Replacing the entry that holds a key updates that key's binding in the
/// rewrite map.
pub proof fn lemma_map_of_entries_update(
    entries: Seq<(Vec<u8>, Vec<u8>)>,
    i: int,
    e: (Vec<u8>, Vec<u8>),
)
    requires
        entries_unique(entries),
        0 <= i < entries.len(),
        entries[i].0@ == e.0@,
    ensures
        map_of_entries(entries.update(i, e)) == map_of_entries(entries).insert(e.0@, e.1@),
    decreases entries.len(),
{
    let u = entries.update(i, e);
    if i == entries.len() - 1 {
        assert(u.drop_last() =~= entries.drop_last());
        assert(u.last() == e);
        assert(map_of_entries(entries.drop_last()).insert(e.0@, e.1@) =~= map_of_entries(
            entries.drop_last(),
        ).insert(entries.last().0@, entries.last().1@).insert(e.0@, e.1@));
    } else {
        lemma_entries_unique_drop_last(entries);
        assert(u.drop_last() =~= entries.drop_last().update(i, e));
        assert(u.last() == entries.last());
        assert(entries.drop_last()[i] == entries[i]);
        lemma_map_of_entries_update(entries.drop_last(), i, e);
        assert(entries[i].0@ != entries.last().0@);
        assert(map_of_entries(entries.drop_last()).insert(e.0@, e.1@).insert(
            entries.last().0@,
            entries.last().1@,
        ) =~= map_of_entries(entries.drop_last()).insert(entries.last().0@, entries.last().1@)
            .insert(e.0@, e.1@));
    }
}

/// A table without repeated keys holds at most one entry per key, and
/// exactly one for each key that some entry holds.
pub proof fn lemma_unique_key_count(entries: Seq<(Vec<u8>, Vec<u8>)>, k: Seq<u8>)
    requires
        entries_unique(entries),
    ensures
        key_count(entries, k) <= 1,
        (key_count(entries, k) == 1) <==> exists|i: int|
            0 <= i < entries.len() && entries[i].0@ == k,
    decreases entries.len(),
{
    if entries.len() == 0 {
    } else {
        lemma_entries_unique_drop_last(entries);
        lemma_unique_key_count(entries.drop_last(), k);
        if entries.last().0@ == k {
            if key_count(entries.drop_last(), k) == 1 {
                let i = choose|i: int|
                    0 <= i < entries.drop_last().len() && entries.drop_last()[i].0@ == k;
                assert(entries[i].0@ == k);
                assert(entries[i].0@ != entries[entries.len() - 1].0@);
                assert(false);
            }
            assert(entries[entries.len() - 1].0@ == k);
        } else {
            if key_count(entries, k) == 1 {
                let i = choose|i: int|
                    0 <= i < entries.drop_last().len() && entries.drop_last()[i].0@ == k;
                assert(entries[i].0@ == k);
            }
            if exists|i: int| 0 <= i < entries.len() && entries[i].0@ == k {
                let i = choose|i: int| 0 <= i < entries.len() && entries[i].0@ == k;
                assert(i < entries.len() - 1);
                assert(entries.drop_last()[i].0@ == k);
            }
        }
    }
}

/// The absolute form of a requested path: an absolute request stands as it
/// is; a relative one is joined to the tracked working directory; if the
/// tracked directory is itself not absolute, the request cannot be made
/// absolute.
pub open spec fn absolute_query_of(cwd: Seq<u8>, path: Seq<u8>) -> Option<Seq<u8>> {
    if is_absolute(path) {
        Some(path)
    } else if is_absolute(cwd) {
        Some(joined(cwd, path))
    } else {
        None
    }
}

/// Some recorded key is a textual prefix of the query path.
pub open spec fn some_key_matches(m: Map<Seq<u8>, Seq<u8>>, q: Seq<u8>) -> bool {
    exists|k: Seq<u8>| #[trigger] m.dom().contains(k) && is_prefix_of(k, q)
}

/// `k` is a recorded key, a prefix of the query path, and no recorded key
/// that is a prefix of the query path is longer.
pub open spec fn is_longest_match(m: Map<Seq<u8>, Seq<u8>>, q: Seq<u8>, k: Seq<u8>) -> bool {
    &&& m.dom().contains(k)
    &&& is_prefix_of(k, q)
    &&& forall|k2: Seq<u8>|
        #[trigger] m.dom().contains(k2) && is_prefix_of(k2, q) ==> k2.len() <= k.len()
}

/// The substituted path: the resolved path recorded for `k`, followed by
/// the remainder of the query path beyond `k`.
pub open spec fn rewrite_of(m: Map<Seq<u8>, Seq<u8>>, q: Seq<u8>, k: Seq<u8>) -> Seq<u8>
    recommends
        is_prefix_of(k, q),
{
    m[k] + q.subrange(k.len() as int, q.len() as int)
}

/// The tracked working directory after a directory change returning
/// `retval`: unchanged on failure; the requested directory verbatim when it
/// is absolute; otherwise the previous directory, a separator, and the
/// request.
pub open spec fn next_cwd(cwd: Seq<u8>, dir: Seq<u8>, retval: i32) -> Seq<u8> {
    if retval != 0 {
        cwd
    } else if is_absolute(dir) {
        dir
    } else {
        joined(cwd, dir)
    }
}

/// The process-wide substitution state.
pub struct SubstState {
    /// The rewrite table: each entry binds an observed hidden-link path to
    /// its canonical resolved path.  At most one entry per key.
    pub table: Vec<(Vec<u8>, Vec<u8>)>,
    /// Set when the first qualifying link is discovered; gates a one-time
    /// diagnostic and nothing else.
    pub init_done: bool,
    /// The tracked current working directory.
    pub cwd: Vec<u8>,
}

impl SubstState {
    /// The table holds at most one entry per key.
    pub open spec fn wf(self) -> bool {
        entries_unique(self.table@)
    }

    /// The rewrite map this state records.
    pub open spec fn rewrites(self) -> Map<Seq<u8>, Seq<u8>> {
        map_of_entries(self.table@)
    }

    /// A fresh state: empty table, initialization pending, the given
    /// working directory.
    pub fn new(cwd: Vec<u8>) -> (s: SubstState)
        ensures
            s.wf(),
            s.rewrites() == Map::<Seq<u8>, Seq<u8>>::empty(),
            s.table@.len() == 0,
            !s.init_done,
            s.cwd@ == cwd@,
    {
        SubstState { table: Vec::new(), init_done: false, cwd }
    }

    /// Mark the state initialized; reports whether this was the first
    /// qualifying discovery, so the caller may emit its one-time
    /// diagnostic.
    pub fn note_init(&mut self) -> (first: bool)
        ensures
            first == !old(self).init_done,
            final(self).init_done,
            final(self).table == old(self).table,
            final(self).cwd == old(self).cwd,
    {
        let first = !self.init_done;
        self.init_done = true;
        first
    }

    /// Apply an observed directory change: only a successful change (a
    /// return value of zero) moves the tracked working directory.
    pub fn apply_chdir(&mut self, dir: &Vec<u8>, retval: i32)
        ensures
            final(self).cwd@ == next_cwd(old(self).cwd@, dir@, retval),
            final(self).table == old(self).table,
            final(self).init_done == old(self).init_done,
    {
        if retval != 0 {
            return ;
        }
        if is_absolute_path(dir) {
            self.cwd = copy_bytes(dir);
        } else {
            self.cwd = join_paths(&self.cwd, dir);
        }
    }

    /// Record a hidden link: bind `key` to `resolved`, replacing any
    /// earlier binding of the same key.
    #[verifier::loop_isolation(false)]
    pub fn record(&mut self, key: Vec<u8>, resolved: Vec<u8>)
        requires
            old(self).wf(),
        ensures
            final(self).wf(),
            final(self).rewrites() == old(self).rewrites().insert(key@, resolved@),
            final(self).cwd == old(self).cwd,
            final(self).init_done == old(self).init_done,
    {
        let ghost gk = key@;
        let mut i: usize = 0;
        let n = self.table.len();
        while i < n
            invariant
                i <= n,
                self.table == old(self).table,
                self.cwd == old(self).cwd,
                self.init_done == old(self).init_done,
                forall|j: int| 0 <= j < i ==> self.table@[j].0@ != gk,
            decreases n - i,
        {
            if bytes_equal(&self.table[i].0, &key) {
                let ghost pre = self.table@;
                proof {
                    assert(pre[i as int].0@ == gk);
                    lemma_map_of_entries_update(pre, i as int, (key, resolved));
                }
                self.table[i] = (key, resolved);
                proof {
                    assert(self.table@[i as int].0@ == gk);
                    assert forall|a: int, b: int|
                        0 <= a < b < self.table@.len() implies self.table@[a].0@
                        != self.table@[b].0@ by {
                        assert(pre[a].0@ != pre[b].0@);
                        if a != i {
                            assert(self.table@[a] == pre[a]);
                        }
                        if b != i {
                            assert(self.table@[b] == pre[b]);
                        }
                    }
                }
                return ;
            }
            i += 1;
        }
        let ghost pre = self.table@;
        proof {
            lemma_map_of_entries_push(pre, (key, resolved));
        }
        self.table.push((key, resolved));
        proof {
            assert forall|a: int, b: int|
                0 <= a < b < self.table@.len() implies self.table@[a].0@ != self.table@[b].0@ by {
                if b < pre.len() {
                    assert(pre[a].0@ != pre[b].0@);
                } else {
                    assert(self.table@[b].0@ == gk);
                    assert(self.table@[a] == pre[a]);
                }
            }
        }
    }

    /// The path a file-open request must actually open, if substitution
    /// applies: the request is made absolute against the tracked working
    /// directory, the longest recorded key that prefixes it is selected,
    /// and the remainder is appended to that key's resolved path.  `None`
    /// means the request is left untouched and passed through.
    #[verifier::loop_isolation(false)]
    pub fn open_target(&self, path: &Vec<u8>) -> (r: Option<Vec<u8>>)
        requires
            self.wf(),
        ensures
            absolute_query_of(self.cwd@, path@) is None ==> r is None,
            absolute_query_of(self.cwd@, path@) is Some && r is None ==> !some_key_matches(
                self.rewrites(),
                absolute_query_of(self.cwd@, path@)->Some_0,
            ),
            absolute_query_of(self.cwd@, path@) is Some && r is Some ==> exists|k: Seq<u8>|
                #[trigger] is_longest_match(
                    self.rewrites(),
                    absolute_query_of(self.cwd@, path@)->Some_0,
                    k,
                ) && r->Some_0@ == rewrite_of(
                    self.rewrites(),
                    absolute_query_of(self.cwd@, path@)->Some_0,
                    k,
                ),
    {
        let query: Vec<u8>;
        if is_absolute_path(path) {
            query = copy_bytes(path);
        } else if is_absolute_path(&self.cwd) {
            query = join_paths(&self.cwd, path);
        } else {
            return None;
        }
        let ghost q = query@;

        let mut best: Option<usize> = None;
        let mut i: usize = 0;
        let n = self.table.len();
        while i < n
            invariant
                n == self.table@.len(),
                i <= n,
                query@ == q,
                match best {
                    None => forall|j: int|
                        0 <= j < i ==> !is_prefix_of(#[trigger] self.table@[j].0@, q),
                    Some(b) => {
                        &&& b < i
                        &&& is_prefix_of(self.table@[b as int].0@, q)
                        &&& forall|j: int|
                            0 <= j < i && is_prefix_of(#[trigger] self.table@[j].0@, q)
                                ==> self.table@[j].0@.len() <= self.table@[b as int].0@.len()
                    },
                },
            decreases n - i,
        {
            if starts_with(&query, &self.table[i].0) {
                best = match best {
                    None => Some(i),
                    Some(b) => if self.table[b].0.len() < self.table[i].0.len() {
                        Some(i)
                    } else {
                        Some(b)
                    },
                };
            }
            i += 1;
        }

        let result: Option<Vec<u8>> = match best {
            None => {
                proof {
                    assert forall|k: Seq<u8>| #[trigger]
                        self.rewrites().dom().contains(k) implies !is_prefix_of(k, q) by {
                        lemma_map_of_entries_contains(self.table@, k);
                        let j = choose|j: int|
                            0 <= j < self.table@.len() && self.table@[j].0@ == k;
                        assert(!is_prefix_of(self.table@[j].0@, q));
                    }
                    assert(!some_key_matches(self.rewrites(), q));
                }
                None
            },
            Some(b) => {
                let klen = self.table[b].0.len();
                let mut out = copy_bytes(&self.table[b].1);
                proof {
                    assert(is_prefix_of(self.table@[b as int].0@, q));
                }
                let tail = suffix_from(&query, klen);
                append_bytes(&mut out, &tail);
                proof {
                    let k = self.table@[b as int].0@;
                    lemma_map_of_entries_index(self.table@, b as int);
                    assert forall|k2: Seq<u8>| #[trigger]
                        self.rewrites().dom().contains(k2) && is_prefix_of(
                            k2,
                            q,
                        ) implies k2.len() <= k.len() by {
                        lemma_map_of_entries_contains(self.table@, k2);
                        let j = choose|j: int|
                            0 <= j < self.table@.len() && self.table@[j].0@ == k2;
                        assert(is_prefix_of(self.table@[j].0@, q));
                    }
                    assert(is_longest_match(self.rewrites(), q, k));
                    assert(out@ == rewrite_of(self.rewrites(), q, k));
                }
                Some(out)
            },
        };
        proof {
            assert(absolute_query_of(self.cwd@, path@) == Some(q));
            assert(absolute_query_of(self.cwd@, path@)->Some_0 == q);
            if result is Some {
                assert(exists|k: Seq<u8>|
                    #[trigger] is_longest_match(self.rewrites(), q, k) && result->Some_0@
                        == rewrite_of(self.rewrites(), q, k));
            } else {
                assert(!some_key_matches(self.rewrites(), q));
            }
        }
        result
    }
}

/// Recording the same link with the same resolved target again leaves the
/// rewrite map exactly as after the first recording: the entry is reused,
/// never duplicated and never re-bound to a different value.
pub proof fn lemma_record_idempotent(m: Map<Seq<u8>, Seq<u8>>, key: Seq<u8>, resolved: Seq<u8>)
    ensures
        m.insert(key, resolved).insert(key, resolved) == m.insert(key, resolved),
{
    assert(m.insert(key, resolved).insert(key, resolved) =~= m.insert(key, resolved));
}

/// No query path has two distinct longest matching keys.
pub proof fn lemma_longest_match_unique(
    m: Map<Seq<u8>, Seq<u8>>,
    q: Seq<u8>,
    k1: Seq<u8>,
    k2: Seq<u8>,
)
    requires
        is_longest_match(m, q, k1),
        is_longest_match(m, q, k2),
    ensures
        k1 == k2,
{
    assert(k1.len() <= k2.len());
    assert(k2.len() <= k1.len());
    lemma_equal_length_prefixes(q, k1, k2);
}

/// Once a link path is recorded, the link path itself is redirected to
/// exactly its recorded resolved path: the key is its own longest match,
/// and the rewritten path carries no remainder.
pub proof fn lemma_open_recorded_link(m: Map<Seq<u8>, Seq<u8>>, l: Seq<u8>)
    requires
        m.dom().contains(l),
    ensures
        is_longest_match(m, l, l),
        rewrite_of(m, l, l) == m[l],
{
    assert(l =~= l.subrange(0, l.len() as int));
    assert(m[l] + l.subrange(l.len() as int, l.len() as int) =~= m[l]);
}

/// Opening a path beneath a recorded link is redirected beneath the
/// recorded resolved path: for a query `l + sub`, the key `l` rewrites to
/// its resolved path followed by `sub` — provided no longer recorded key
/// also prefixes the query (a longer key takes precedence).
pub proof fn lemma_open_under_recorded_link(m: Map<Seq<u8>, Seq<u8>>, l: Seq<u8>, sub: Seq<u8>)
    requires
        m.dom().contains(l),
        forall|k: Seq<u8>|
            #[trigger] m.dom().contains(k) && is_prefix_of(k, l + sub) ==> k.len() <= l.len(),
    ensures
        is_longest_match(m, l + sub, l),
        rewrite_of(m, l + sub, l) == m[l] + sub,
{
    assert(l =~= (l + sub).subrange(0, l.len() as int));
    assert((l + sub).subrange(l.len() as int, (l + sub).len() as int) =~= sub);
}

/// However many times a link is recorded — including repeated recordings
/// racing from many callers — a well-formed table holds exactly one entry
/// for it.
pub proof fn lemma_one_entry_per_key(s: SubstState, k: Seq<u8>)
    requires
        s.wf(),
        s.rewrites().dom().contains(k),
    ensures
        key_count(s.table@, k) == 1,
{
    lemma_map_of_entries_contains(s.table@, k);
    lemma_unique_key_count(s.table@, k);
}

} // verus!
