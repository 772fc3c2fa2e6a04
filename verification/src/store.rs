//! Asset bytes by path, kept in memory under `mem://…` paths (imported
//! files and unpacked packs). Files on disk are read outside the library.

use vstd::prelude::*;
use crate::text::{chars_of, string_of, push_char, str_eq, ascii_lower, lower_char};
use crate::naming::{numbered, lemma_taken_numbered, make_numbered};
use vstd::string::StrSliceExecFns;

verus! {

/// Prefix of in-memory asset paths.
pub const MEM_PREFIX: &'static str = "mem://";

/// `mem://`, as characters.
pub open spec fn mem_prefix() -> Seq<char> {
    seq!['m', 'e', 'm', ':', '/', '/']
}

/// [`MEM_PREFIX`] holds the characters of [`mem_prefix`].
pub proof fn lemma_mem_prefix_text()
    ensures
        MEM_PREFIX@ == mem_prefix(),
{
    reveal_strlit("mem://");
    assert("mem://"@ =~= mem_prefix());
}

/// Assets held in memory, by path.
pub struct MemStore {
    entries: Vec<(String, Vec<u8>)>,
}

/// The paths and bytes of `es`, as a map.
pub open spec fn entries_map(es: Seq<(String, Vec<u8>)>) -> Map<Seq<char>, Seq<u8>>
    decreases es.len(),
{
    if es.len() == 0 {
        Map::empty()
    } else {
        entries_map(es.drop_last()).insert(es.last().0@, es.last().1@)
    }
}

/// No path comes twice.
pub open spec fn keys_distinct(es: Seq<(String, Vec<u8>)>) -> bool {
    forall|i: int, j: int| 0 <= i < j < es.len() ==> es[i].0@ != es[j].0@
}

proof fn lemma_entries_map(es: Seq<(String, Vec<u8>)>)
    requires
        keys_distinct(es),
    ensures
        entries_map(es).dom().finite(),
        entries_map(es).dom().len() == es.len(),
        forall|i: int| 0 <= i < es.len() ==> #[trigger] entries_map(es).contains_key(es[i].0@) && entries_map(es)[es[i].0@] == es[i].1@,
        forall|k: Seq<char>| #[trigger] entries_map(es).contains_key(k) ==> exists|i: int| 0 <= i < es.len() && es[i].0@ == k,
    decreases es.len(),
{
    if es.len() > 0 {
        let init = es.drop_last();
        lemma_entries_map(init);
        assert(!entries_map(init).contains_key(es.last().0@)) by {
            if entries_map(init).contains_key(es.last().0@) {
                let i = choose|i: int| 0 <= i < init.len() && init[i].0@ == es.last().0@;
                assert(es[i].0@ == es[es.len() - 1].0@);
            }
        }
        assert forall|k: Seq<char>| #[trigger] entries_map(es).contains_key(k) implies exists|i: int| 0 <= i < es.len() && es[i].0@ == k by {
            if k != es.last().0@ {
                let i = choose|i: int| 0 <= i < init.len() && init[i].0@ == k;
                assert(es[i] == init[i]);
            } else {
                assert(es[es.len() - 1].0@ == k);
            }
        }
        assert forall|i: int| 0 <= i < es.len() implies #[trigger] entries_map(es).contains_key(es[i].0@) && entries_map(es)[es[i].0@] == es[i].1@ by {
            if i < es.len() - 1 {
                assert(es[i] == init[i]);
            }
        }
    }
}

impl View for MemStore {
    type V = Map<Seq<char>, Seq<u8>>;

    closed spec fn view(&self) -> Map<Seq<char>, Seq<u8>> {
        entries_map(self.entries@)
    }
}

impl MemStore {
    #[verifier::type_invariant]
    spec fn wf(self) -> bool {
        keys_distinct(self.entries@)
    }

    /// An empty store.
    pub fn new() -> (s: MemStore)
        ensures
            s@ == Map::<Seq<char>, Seq<u8>>::empty(),
    {
        MemStore { entries: Vec::new() }
    }

    /// Index of the entry for `path`.
    fn find(&self, path: &str) -> (r: Option<usize>)
        ensures
            match r {
                Some(i) => i < self.entries@.len() && self.entries@[i as int].0@ == path@,
                None => forall|i: int| 0 <= i < self.entries@.len() ==> self.entries@[i].0@ != path@,
            },
    {
        let mut i: usize = 0;
        while i < self.entries.len()
            invariant
                i <= self.entries@.len(),
                forall|j: int| 0 <= j < i ==> self.entries@[j].0@ != path@,
            decreases self.entries@.len() - i,
        {
            if str_eq(self.entries[i].0.as_str(), path) {
                return Some(i);
            }
            i += 1;
        }
        None
    }
}

/// Store bytes under `path` (usually a `mem://` path), replacing what was
/// there.
pub fn insert(store: &mut MemStore, path: &str, bytes: Vec<u8>)
    ensures
        final(store)@ == old(store)@.insert(path@, bytes@),
{
    proof {
        use_type_invariant(&*store);
        lemma_entries_map(store.entries@);
    }
    match store.find(path) {
        Some(i) => {
            let ghost es = store.entries@;
            let key: String = string_of(chars_of(path).as_slice());
            let mut entries: Vec<(String, Vec<u8>)> = Vec::new();
            std::mem::swap(&mut entries, &mut store.entries);
            entries.set(i, (key, bytes));
            proof {
                let es2 = entries@;
                assert(keys_distinct(es2));
                lemma_entries_map(es2);
                assert(entries_map(es2) =~= entries_map(es).insert(path@, bytes@)) by {
                    assert forall|k: Seq<char>| #[trigger] entries_map(es2).contains_key(k) <==> entries_map(es).insert(path@, bytes@).contains_key(k) by {
                        if k == path@ {
                            assert(es2[i as int].0@ == path@);
                            assert(entries_map(es2).contains_key(es2[i as int].0@));
                        }
                        if entries_map(es2).contains_key(k) {
                            let m = choose|m: int| 0 <= m < es2.len() && es2[m].0@ == k;
                            if m != i {
                                assert(es[m] == es2[m]);
                            }
                        }
                        if entries_map(es).contains_key(k) {
                            let m = choose|m: int| 0 <= m < es.len() && es[m].0@ == k;
                            if m != i {
                                assert(es[m] == es2[m]);
                            }
                        }
                    }
                    assert forall|k: Seq<char>| #[trigger] entries_map(es2).contains_key(k) implies entries_map(es2)[k] == entries_map(es).insert(path@, bytes@)[k] by {
                        let m = choose|m: int| 0 <= m < es2.len() && es2[m].0@ == k;
                        if m != i {
                            assert(es[m] == es2[m]);
                        }
                    }
                }
            }
            store.entries = entries;
        },
        None => {
            let ghost es = store.entries@;
            let key: String = string_of(chars_of(path).as_slice());
            let mut entries: Vec<(String, Vec<u8>)> = Vec::new();
            std::mem::swap(&mut entries, &mut store.entries);
            entries.push((key, bytes));
            proof {
                assert(entries@.drop_last() =~= es);
                assert(keys_distinct(entries@));
            }
            store.entries = entries;
        },
    }
}

/// Removing an entry removes its path from the map.
pub proof fn lemma_remove_entry(es: Seq<(String, Vec<u8>)>, i: int)
    requires
        keys_distinct(es),
        0 <= i < es.len(),
    ensures
        keys_distinct(es.remove(i)),
        entries_map(es.remove(i)) == entries_map(es).remove(es[i].0@),
{
    let es2 = es.remove(i);
    lemma_entries_map(es);
    assert(keys_distinct(es2)) by {
        assert forall|a: int, b: int| 0 <= a < b < es2.len() implies es2[a].0@ != es2[b].0@ by {
            let a2 = if a < i { a } else { a + 1 };
            let b2 = if b < i { b } else { b + 1 };
            assert(es2[a] == es[a2]);
            assert(es2[b] == es[b2]);
        }
    }
    lemma_entries_map(es2);
    let k0 = es[i].0@;
    assert(entries_map(es2) =~= entries_map(es).remove(k0)) by {
        assert forall|k: Seq<char>| #[trigger] entries_map(es2).contains_key(k) <==> entries_map(es).remove(k0).contains_key(k) by {
            if entries_map(es2).contains_key(k) {
                let m = choose|m: int| 0 <= m < es2.len() && es2[m].0@ == k;
                let m2 = if m < i { m } else { m + 1 };
                assert(es2[m] == es[m2]);
            }
            if entries_map(es).contains_key(k) && k != k0 {
                let m = choose|m: int| 0 <= m < es.len() && es[m].0@ == k;
                let m2 = if m < i { m } else { m - 1 };
                assert(es2[m2] == es[m]);
            }
        }
        assert forall|k: Seq<char>| #[trigger] entries_map(es2).contains_key(k) implies entries_map(es2)[k] == entries_map(es).remove(k0)[k] by {
            let m = choose|m: int| 0 <= m < es2.len() && es2[m].0@ == k;
            let m2 = if m < i { m } else { m + 1 };
            assert(es2[m] == es[m2]);
        }
    }
}

/// Forget the asset stored under `path` (if any).
pub fn remove(store: &mut MemStore, path: &str)
    ensures
        final(store)@ == old(store)@.remove(path@),
{
    proof {
        use_type_invariant(&*store);
        lemma_entries_map(store.entries@);
    }
    match store.find(path) {
        Some(i) => {
            let ghost es = store.entries@;
            proof {
                lemma_remove_entry(es, i as int);
            }
            let mut entries: Vec<(String, Vec<u8>)> = Vec::new();
            std::mem::swap(&mut entries, &mut store.entries);
            entries.remove(i);
            store.entries = entries;
        },
        None => {
            proof {
                let es = store.entries@;
                assert(!entries_map(es).contains_key(path@)) by {
                    if entries_map(es).contains_key(path@) {
                        let m = choose|m: int| 0 <= m < es.len() && es[m].0@ == path@;
                    }
                }
                assert(entries_map(es).remove(path@) =~= entries_map(es));
            }
        },
    }
}

/// The bytes stored under `path`, if any.
pub fn read(store: &MemStore, path: &str) -> (r: Option<Vec<u8>>)
    ensures
        match r {
            Some(b) => store@.contains_key(path@) && b@ == store@[path@],
            None => !store@.contains_key(path@),
        },
{
    proof {
        use_type_invariant(store);
        lemma_entries_map(store.entries@);
    }
    match store.find(path) {
        Some(i) => {
            let b = store.entries[i].1.clone();
            assert(b@ =~= store.entries@[i as int].1@);
            assert(entries_map(store.entries@).contains_key(store.entries@[i as int].0@));
            Some(b)
        },
        None => {
            proof {
                let es = store.entries@;
                if entries_map(es).contains_key(path@) {
                    let m = choose|m: int| 0 <= m < es.len() && es[m].0@ == path@;
                }
            }
            None
        },
    }
}

/// True if `path` is held in memory.
pub fn path_exists(store: &MemStore, path: &str) -> (r: bool)
    ensures
        r == store@.contains_key(path@),
{
    proof {
        use_type_invariant(store);
        lemma_entries_map(store.entries@);
    }
    match store.find(path) {
        Some(_) => true,
        None => {
            proof {
                let es = store.entries@;
                if entries_map(es).contains_key(path@) {
                    let m = choose|m: int| 0 <= m < es.len() && es[m].0@ == path@;
                }
            }
            false
        },
    }
}

/// All in-memory paths, each once.
pub fn mem_paths(store: &MemStore) -> (paths: Vec<String>)
    ensures
        store@.dom().finite(),
        paths@.len() == store@.dom().len(),
        forall|i: int| 0 <= i < paths@.len() ==> store@.contains_key(#[trigger] paths@[i]@),
        forall|k: Seq<char>| #[trigger] store@.contains_key(k) ==> exists|i: int| 0 <= i < paths@.len() && paths@[i]@ == k,
        forall|i: int, j: int| 0 <= i < j < paths@.len() ==> paths@[i]@ != paths@[j]@,
{
    proof {
        use_type_invariant(store);
        lemma_entries_map(store.entries@);
    }
    let mut paths: Vec<String> = Vec::new();
    let mut i: usize = 0;
    while i < store.entries.len()
        invariant
            i <= store.entries@.len(),
            keys_distinct(store.entries@),
            paths@.len() == i,
            forall|j: int| 0 <= j < i ==> #[trigger] paths@[j]@ == store.entries@[j].0@,
        decreases store.entries@.len() - i,
    {
        paths.push(store.entries[i].0.clone());
        i += 1;
    }
    proof {
        assert forall|k: Seq<char>| #[trigger] store@.contains_key(k) implies exists|i: int| 0 <= i < paths@.len() && paths@[i]@ == k by {
            let m = choose|m: int| 0 <= m < store.entries@.len() && store.entries@[m].0@ == k;
            assert(paths@[m]@ == k);
        }
    }
    paths
}


/// `name` with path separators replaced by `_`.
pub open spec fn clean_name(name: Seq<char>) -> Seq<char> {
    name.map_values(|c: char| if c == '/' || c == '\\' { '_' } else { c })
}

/// The `n`-th path tried for a new asset named `clean`: `mem://clean`
/// first, then `mem://2_clean`, `mem://3_clean`, …
pub open spec fn candidate_path(clean: Seq<char>, n: nat) -> Seq<char> {
    numbered(mem_prefix(), clean, n)
}

/// `name` with `/` and `\` replaced by `_`.
fn clean_chars(name: &str) -> (r: Vec<char>)
    ensures
        r@ == clean_name(name@),
{
    let cs: Vec<char> = chars_of(name);
    let mut r: Vec<char> = Vec::new();
    let mut i: usize = 0;
    while i < cs.len()
        invariant
            cs@ == name@,
            i <= cs@.len(),
            r@ == clean_name(cs@.take(i as int)),
        decreases cs@.len() - i,
    {
        let c = cs[i];
        if c == '/' || c == '\\' {
            r.push('_');
        } else {
            r.push(c);
        }
        i += 1;
        assert(r@ =~= clean_name(cs@.take(i as int)));
    }
    assert(cs@.take(cs@.len() as int) =~= cs@);
    r
}

/// `mem://` as characters.
fn mem_prefix_chars() -> (v: Vec<char>)
    ensures
        v@ == mem_prefix(),
{
    let v: Vec<char> = vec!['m', 'e', 'm', ':', '/', '/'];
    assert(v@ =~= mem_prefix());
    v
}

/// Store bytes under a fresh `mem://` path derived from `name` and return
/// it: `mem://` and the name with `/` and `\` made `_`, or, when that is
/// taken, the same with `2_`, `3_`, … before the name.
pub fn insert_new(store: &mut MemStore, name: &str, bytes: Vec<u8>) -> (path: String)
    ensures
        exists|n: nat| path@ == #[trigger] candidate_path(clean_name(name@), n)
            && forall|m: nat| m < n ==> old(store)@.contains_key(#[trigger] candidate_path(clean_name(name@), m)),
        !old(store)@.contains_key(path@),
        final(store)@ == old(store)@.insert(path@, bytes@),
{
    proof {
        use_type_invariant(&*store);
        lemma_entries_map(store.entries@);
    }
    let clean = clean_chars(name);
    let prefix = mem_prefix_chars();
    let ghost cl = clean@;
    assert(store@.dom().len() == store.entries.len());
    let mut n: u128 = 0;
    let mut path = make_numbered(&prefix, &clean, 0);
    while path_exists(store, path.as_str())
        invariant
            clean@ == cl,
            prefix@ == mem_prefix(),
            cl == clean_name(name@),
            store@.dom().finite(),
            n <= store@.dom().len(),
            store@.dom().len() <= usize::MAX,
            path@ == candidate_path(cl, n as nat),
            forall|m: nat| m < n ==> store@.contains_key(#[trigger] candidate_path(cl, m)),
        decreases store@.dom().len() - n,
    {
        proof {
            assert forall|m: nat| m < n + 1 implies store@.contains_key(#[trigger] candidate_path(cl, m)) by {
                if m == n {
                    assert(path@ == candidate_path(cl, m));
                }
            }
            assert forall|j: nat| j < n + 1 implies store@.dom().contains(#[trigger] numbered(mem_prefix(), cl, j)) by {
                assert(store@.contains_key(candidate_path(cl, j)));
            }
            lemma_taken_numbered(store@.dom(), mem_prefix(), cl, (n + 1) as nat);
        }
        n = n + 1;
        path = make_numbered(&prefix, &clean, n);
    }
    insert(store, path.as_str(), bytes);
    path
}

/// Whether `path` names an in-memory asset.
pub open spec fn is_mem_path(path: Seq<char>) -> bool {
    mem_prefix().is_prefix_of(path)
}

/// True if `path` starts with `mem://`.
pub fn is_mem(path: &str) -> (r: bool)
    ensures
        r == is_mem_path(path@),
{
    let cs: Vec<char> = chars_of(path);
    if cs.len() < 6 {
        return false;
    }
    let r = cs[0] == 'm' && cs[1] == 'e' && cs[2] == 'm' && cs[3] == ':' && cs[4] == '/' && cs[5] == '/';
    assert(r == (cs@.subrange(0, 6) =~= mem_prefix()));
    r
}

/// Whether `c` separates the parts of a path.
pub open spec fn is_separator(c: char) -> bool {
    c == '/' || c == '\\'
}

/// Where the last part of a path starts: just after its last separator,
/// or at 0 when it has none.
pub open spec fn name_start(path: Seq<char>) -> nat
    decreases path.len(),
{
    if path.len() == 0 {
        0
    } else if is_separator(path.last()) {
        path.len()
    } else {
        name_start(path.drop_last())
    }
}

proof fn lemma_name_start(path: Seq<char>)
    ensures
        name_start(path) <= path.len(),
        name_start(path) > 0 ==> is_separator(path[name_start(path) - 1]),
        forall|i: int| name_start(path) <= i < path.len() ==> !is_separator(#[trigger] path[i]),
    decreases path.len(),
{
    if path.len() > 0 && !is_separator(path.last()) {
        lemma_name_start(path.drop_last());
        assert forall|i: int| name_start(path) <= i < path.len() implies !is_separator(#[trigger] path[i]) by {
            if i < path.len() - 1 {
                assert(path[i] == path.drop_last()[i]);
            }
        }
    }
}

/// File name part of a path (works for `mem://` paths too): what follows
/// the last `/` or `\`.
pub fn file_name(path: &str) -> (r: &str)
    ensures
        r@ == path@.subrange(name_start(path@) as int, path@.len() as int),
        forall|i: int| 0 <= i < r@.len() ==> !is_separator(#[trigger] r@[i]),
{
    proof {
        lemma_name_start(path@);
    }
    let cs: Vec<char> = chars_of(path);
    let mut start: usize = cs.len();
    assert(cs@.take(cs@.len() as int) =~= cs@);
    while start > 0 && !(cs[start - 1] == '/' || cs[start - 1] == '\\')
        invariant
            cs@ == path@,
            start <= cs@.len(),
            name_start(path@) == name_start(cs@.take(start as int)),
        decreases start,
    {
        assert(cs@.take(start as int).drop_last() =~= cs@.take(start - 1));
        start -= 1;
    }
    proof {
        if start > 0 {
            assert(cs@.take(start as int).last() == cs@[start - 1]);
        }
        assert(cs@.take(cs@.len() as int) =~= cs@);
    }
    path.substring_char(start, cs.len())
}

/// Where the extension of a file name starts: just after its last `.`,
/// or nothing when it has none.
pub open spec fn last_dot(name: Seq<char>) -> Option<nat>
    decreases name.len(),
{
    if name.len() == 0 {
        None
    } else if name.last() == '.' {
        Some((name.len() - 1) as nat)
    } else {
        last_dot(name.drop_last())
    }
}

/// The lower-case extension of a path: what follows the last `.` of its
/// file name, or nothing.
pub open spec fn extension_of(path: Seq<char>) -> Seq<char> {
    let name = path.subrange(name_start(path) as int, path.len() as int);
    match last_dot(name) {
        Some(d) => name.subrange(d + 1 as int, name.len() as int).map_values(|c: char| ascii_lower(c)),
        None => Seq::empty(),
    }
}

proof fn lemma_last_dot(name: Seq<char>)
    ensures
        match last_dot(name) {
            Some(d) => d < name.len() && name[d as int] == '.',
            None => true,
        },
    decreases name.len(),
{
    if name.len() > 0 && name.last() != '.' {
        lemma_last_dot(name.drop_last());
    }
}

/// Lower-case extension of a path.
pub fn extension(path: &str) -> (r: String)
    ensures
        r@ == extension_of(path@),
{
    let name = file_name(path);
    let cs: Vec<char> = chars_of(name);
    let mut end: usize = cs.len();
    assert(cs@.take(cs@.len() as int) =~= cs@);
    while end > 0 && cs[end - 1] != '.'
        invariant
            cs@ == name@,
            end <= cs@.len(),
            last_dot(name@) == last_dot(cs@.take(end as int)),
        decreases end,
    {
        assert(cs@.take(end as int).drop_last() =~= cs@.take(end - 1));
        end -= 1;
    }
    proof {
        if end > 0 {
            assert(cs@.take(end as int).last() == cs@[end - 1]);
        } else {
            assert(cs@.take(0) =~= Seq::<char>::empty());
        }
        assert(cs@.take(cs@.len() as int) =~= cs@);
    }
    let mut r: String = String::new();
    if end == 0 {
        return r;
    }
    let mut i: usize = end;
    while i < cs.len()
        invariant
            end <= i <= cs@.len(),
            r@ == cs@.subrange(end as int, i as int).map_values(|c: char| ascii_lower(c)),
        decreases cs@.len() - i,
    {
        push_char(&mut r, lower_char(cs[i]));
        i += 1;
        assert(r@ =~= cs@.subrange(end as int, i as int).map_values(|c: char| ascii_lower(c)));
    }
    r
}


/// Reading a path after storing bytes under it gives those bytes back;
/// other paths keep what they held.
pub proof fn law_read_after_insert(
    before: Map<Seq<char>, Seq<u8>>,
    path: Seq<char>,
    bytes: Seq<u8>,
    other: Seq<char>,
)
    ensures
        before.insert(path, bytes).contains_key(path),
        before.insert(path, bytes)[path] == bytes,
        other != path ==> before.insert(path, bytes).contains_key(other) == before.contains_key(other),
        other != path && before.contains_key(other) ==> before.insert(path, bytes)[other] == before[other],
{
}

/// A removed path is no longer held; other paths keep what they held.
pub proof fn law_read_after_remove(before: Map<Seq<char>, Seq<u8>>, path: Seq<char>, other: Seq<char>)
    ensures
        !before.remove(path).contains_key(path),
        other != path ==> before.remove(path).contains_key(other) == before.contains_key(other),
        other != path && before.contains_key(other) ==> before.remove(path)[other] == before[other],
{
}

/// Every path `insert_new` can hand out is a `mem://` path, and the ones
/// it tries for a name are all different.
pub proof fn law_new_paths_are_memory_paths(name: Seq<char>, n: nat, m: nat)
    ensures
        is_mem_path(candidate_path(clean_name(name), n)),
        n != m ==> candidate_path(clean_name(name), n) != candidate_path(clean_name(name), m),
{
    let p = candidate_path(clean_name(name), n);
    assert(p.subrange(0, 6) =~= mem_prefix());
    if n != m {
        crate::naming::lemma_numbered_distinct(mem_prefix(), clean_name(name), n, m);
    }
}

} // verus!
