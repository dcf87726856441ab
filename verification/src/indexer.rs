//! The inverted index over a file tree, and the pure decision logic of the
//! three workers: the indexer that rebuilds the index, the searcher that
//! probes it, and the browser that filters the current directory's
//! children.
use vstd::prelude::*;
use std::collections::HashMap;
use crate::hash::{
    MAX_HASH_CHARS, lower_of, lowercase, chars_vec, hash_num_c, hash_roll, spec_stack_hash,
    prefix_hash, hash_seq, get_hashset, query_hashes, get_possible_hashes, tail_after_slash,
    last_chars_until_forward_slash, starts_with_prefix_simd, lemma_query_key_is_index_key,
};

verus! {

broadcast use vstd::std_specs::hash::group_hash_axioms;

/// One walked entry handed to the library: the full path, the bare file
/// name, and the depth below the indexing root (immediate children of the
/// root have depth 1).
pub struct FileEntry {
    pub path: String,
    pub name: String,
    pub depth: u16,
}

/// The inverted index: a map from stack-hash keys to the paths indexed
/// under them, the greatest depth seen so far, and a flag set once a full
/// walk has completed.
pub struct FileMap {
    pub map: HashMap<u64, Vec<String>>,
    pub stack: u16,
    pub done_indexing: bool,
}

impl FileMap {
    /// The mathematical content of the index: each present key to the
    /// sequence of paths in its bucket.
    pub open spec fn buckets(&self) -> Map<u64, Seq<String>> {
        Map::new(|h: u64| self.map@.contains_key(h), |h: u64| self.map@[h]@)
    }

    /// An empty index.
    pub fn new() -> (r: FileMap)
        ensures
            r.buckets() == Map::<u64, Seq<String>>::empty(),
            r.stack == 0,
            r.done_indexing == false,
    {
        let r = FileMap { map: HashMap::new(), stack: 0, done_indexing: false };
        proof {
            assert(r.buckets() =~= Map::<u64, Seq<String>>::empty());
        }
        r
    }
}

/// The bucket of `h` in a model map, or empty where the key is absent.
pub open spec fn model_bucket(m: Map<u64, Seq<String>>, h: u64) -> Seq<String> {
    if m.contains_key(h) {
        m[h]
    } else {
        Seq::empty()
    }
}

/// The model of appending one path to one bucket, creating the bucket
/// where it is absent.
pub open spec fn spec_insert(m: Map<u64, Seq<String>>, h: u64, p: String) -> Map<
    u64,
    Seq<String>,
> {
    m.insert(h, model_bucket(m, h).push(p))
}

/// The model of appending one path to every bucket named in `hs`, in
/// order; a key named twice receives the path twice.
pub open spec fn spec_insert_all(m: Map<u64, Seq<String>>, hs: Seq<u64>, p: String) -> Map<
    u64,
    Seq<String>,
>
    decreases hs.len(),
{
    if hs.len() == 0 {
        m
    } else {
        spec_insert(spec_insert_all(m, hs.drop_last(), p), hs.last(), p)
    }
}

/// Indexes one walked entry: raises the recorded depth to `stack` where it
/// grew, and appends the path to the bucket of every prefix key of the
/// lowercased file name. An entry whose lowercased name exceeds the
/// rolling hash's length bound leaves the index unchanged.
pub fn index_single_dir(file_map: &mut FileMap, path: &String, file_name: &str, stack: u16)
    ensures
        final(file_map).done_indexing == old(file_map).done_indexing,
        lower_of(file_name@).len() <= MAX_HASH_CHARS ==> {
            &&& final(file_map).stack == if stack > old(file_map).stack {
                stack
            } else {
                old(file_map).stack
            }
            &&& final(file_map).buckets() == spec_insert_all(
                old(file_map).buckets(),
                hash_seq(stack, lower_of(file_name@)),
                *path,
            )
        },
        lower_of(file_name@).len() > MAX_HASH_CHARS ==> *final(file_map) == *old(file_map),
        file_name@.len() == 0 ==> final(file_map).buckets() == old(file_map).buckets(),
{
    let low = lowercase(file_name);
    let cs = chars_vec(low.as_str());
    if cs.len() > MAX_HASH_CHARS {
        return;
    }
    if stack > file_map.stack {
        file_map.stack = stack;
    }
    let hashset = get_hashset(stack, file_name);
    let ghost m0 = file_map.buckets();
    let ghost hs = hash_seq(stack, lower_of(file_name@));
    let n: usize = hashset.len();
    let mut idx: usize = 0;
    while idx < n
        invariant
            idx <= n,
            n == hashset@.len(),
            hashset@ == hs,
            file_map.done_indexing == old(file_map).done_indexing,
            file_map.stack == if stack > old(file_map).stack {
                stack
            } else {
                old(file_map).stack
            },
            m0 == old(file_map).buckets(),
            file_map.buckets() == spec_insert_all(m0, hs.subrange(0, idx as int), *path),
        decreases n - idx,
    {
        let h = hashset[idx];
        let ghost before = file_map.buckets();
        match file_map.map.remove(&h) {
            Some(mut list) => {
                list.push(path.clone());
                file_map.map.insert(h, list);
            },
            None => {
                let mut list: Vec<String> = Vec::new();
                list.push(path.clone());
                file_map.map.insert(h, list);
            },
        }
        proof {
            assert(file_map.buckets() =~= spec_insert(before, h, *path));
            assert(hs.subrange(0, idx + 1).drop_last() =~= hs.subrange(0, idx as int));
            assert(hs.subrange(0, idx + 1).last() == h);
        }
        idx = idx + 1;
    }
    proof {
        assert(hs.subrange(0, n as int) =~= hs);
    }
}

/// The model of a whole generation's index: every entry inserted in walk
/// order, entries with over-long lowercased names skipped.
pub open spec fn spec_index_of(entries: Seq<FileEntry>) -> Map<u64, Seq<String>>
    decreases entries.len(),
{
    if entries.len() == 0 {
        Map::empty()
    } else {
        let m = spec_index_of(entries.drop_last());
        let e = entries.last();
        if lower_of(e.name@).len() <= MAX_HASH_CHARS {
            spec_insert_all(m, hash_seq(e.depth, lower_of(e.name@)), e.path)
        } else {
            m
        }
    }
}

/// The greatest depth among the indexed entries.
pub open spec fn spec_max_depth(entries: Seq<FileEntry>) -> u16
    decreases entries.len(),
{
    if entries.len() == 0 {
        0u16
    } else {
        let m = spec_max_depth(entries.drop_last());
        let e = entries.last();
        if lower_of(e.name@).len() <= MAX_HASH_CHARS && e.depth > m {
            e.depth
        } else {
            m
        }
    }
}

/// Rebuilds the index for a new generation: clears every bucket and the
/// recorded depth, indexes the walked entries in order, and marks the walk
/// done. Afterwards the index holds exactly the given entries: nothing of
/// any earlier generation remains.
pub fn index_directories(file_map: &mut FileMap, entries: &Vec<FileEntry>)
    ensures
        final(file_map).buckets() == spec_index_of(entries@),
        final(file_map).stack == spec_max_depth(entries@),
        final(file_map).done_indexing == true,
{
    file_map.map.clear();
    file_map.stack = 0;
    file_map.done_indexing = false;
    proof {
        assert(file_map.buckets() =~= Map::<u64, Seq<String>>::empty());
    }
    let n: usize = entries.len();
    let mut i: usize = 0;
    while i < n
        invariant
            i <= n,
            n == entries@.len(),
            file_map.done_indexing == false,
            file_map.buckets() == spec_index_of(entries@.subrange(0, i as int)),
            file_map.stack == spec_max_depth(entries@.subrange(0, i as int)),
        decreases n - i,
    {
        let e = &entries[i];
        index_single_dir(file_map, &e.path, e.name.as_str(), e.depth);
        proof {
            assert(entries@.subrange(0, i + 1).drop_last() =~= entries@.subrange(0, i as int));
            assert(entries@.subrange(0, i + 1).last() == entries@[i as int]);
        }
        i = i + 1;
    }
    file_map.done_indexing = true;
    proof {
        assert(entries@.subrange(0, n as int) =~= entries@);
    }
}

/// Appending a path to the named buckets keeps everything any bucket
/// already held.
pub proof fn lemma_insert_all_preserves(
    m: Map<u64, Seq<String>>,
    hs: Seq<u64>,
    p: String,
    h: u64,
    q: String,
)
    requires
        model_bucket(m, h).contains(q),
    ensures
        model_bucket(spec_insert_all(m, hs, p), h).contains(q),
    decreases hs.len(),
{
    if hs.len() > 0 {
        lemma_insert_all_preserves(m, hs.drop_last(), p, h, q);
        let before = spec_insert_all(m, hs.drop_last(), p);
        if hs.last() == h {
            let i = choose|i: int|
                0 <= i < model_bucket(before, h).len() && model_bucket(before, h)[i] == q;
            assert(model_bucket(before, h).push(p)[i] == q);
        }
    }
}

/// After appending a path to the named buckets, each of them holds it.
pub proof fn lemma_insert_all_complete(
    m: Map<u64, Seq<String>>,
    hs: Seq<u64>,
    p: String,
    j: int,
)
    requires
        0 <= j < hs.len(),
    ensures
        model_bucket(spec_insert_all(m, hs, p), hs[j]).contains(p),
    decreases hs.len(),
{
    let before = spec_insert_all(m, hs.drop_last(), p);
    if j == hs.len() - 1 {
        let b = model_bucket(before, hs.last()).push(p);
        assert(b[b.len() - 1] == p);
    } else {
        lemma_insert_all_complete(m, hs.drop_last(), p, j);
        assert(hs.drop_last()[j] == hs[j]);
        if hs.last() == hs[j] {
            let bb = model_bucket(before, hs[j]);
            let i = choose|i: int| 0 <= i < bb.len() && bb[i] == p;
            assert(bb.push(p)[i] == p);
        }
    }
}

/// Whatever a bucket holds after appending a path was already there or is
/// that path.
pub proof fn lemma_insert_all_sound(
    m: Map<u64, Seq<String>>,
    hs: Seq<u64>,
    p: String,
    h: u64,
    q: String,
)
    requires
        model_bucket(spec_insert_all(m, hs, p), h).contains(q),
    ensures
        model_bucket(m, h).contains(q) || q == p,
    decreases hs.len(),
{
    if hs.len() > 0 {
        let before = spec_insert_all(m, hs.drop_last(), p);
        if hs.last() == h {
            let b = model_bucket(before, h).push(p);
            let i = choose|i: int| 0 <= i < b.len() && b[i] == q;
            if i < b.len() - 1 {
                assert(model_bucket(before, h)[i] == q);
                lemma_insert_all_sound(m, hs.drop_last(), p, h, q);
            }
        } else {
            lemma_insert_all_sound(m, hs.drop_last(), p, h, q);
        }
    }
}

/// Law: the index is complete: every indexed entry stands, for every
/// prefix length of its lowercased name, in the bucket of that prefix's
/// key at the entry's depth.
pub proof fn lemma_index_complete(entries: Seq<FileEntry>, j: int, k: int)
    requires
        0 <= j < entries.len(),
        lower_of(entries[j].name@).len() <= MAX_HASH_CHARS,
        1 <= k <= lower_of(entries[j].name@).len(),
    ensures
        model_bucket(
            spec_index_of(entries),
            prefix_hash(entries[j].depth, lower_of(entries[j].name@), k),
        ).contains(entries[j].path),
    decreases entries.len(),
{
    let e = entries[j];
    let name = lower_of(e.name@);
    let m = spec_index_of(entries.drop_last());
    if j == entries.len() - 1 {
        assert(hash_seq(e.depth, name)[k - 1] == prefix_hash(e.depth, name, k));
        lemma_insert_all_complete(m, hash_seq(e.depth, name), e.path, k - 1);
    } else {
        assert(entries.drop_last()[j] == e);
        lemma_index_complete(entries.drop_last(), j, k);
        let last = entries.last();
        if lower_of(last.name@).len() <= MAX_HASH_CHARS {
            lemma_insert_all_preserves(
                m,
                hash_seq(last.depth, lower_of(last.name@)),
                last.path,
                prefix_hash(e.depth, name, k),
                e.path,
            );
        }
    }
}

/// Law: the index is sound: a path found in any bucket is the path of one
/// of the entries of the current generation — after a rebuild nothing of
/// an earlier generation is visible anywhere.
pub proof fn lemma_index_sound(entries: Seq<FileEntry>, h: u64, q: String)
    requires
        model_bucket(spec_index_of(entries), h).contains(q),
    ensures
        exists|j: int| 0 <= j < entries.len() && entries[j].path == q,
    decreases entries.len(),
{
    if entries.len() == 0 {
        assert(!spec_index_of(entries).contains_key(h));
        assert(false);
    } else {
        let last = entries.last();
        let m = spec_index_of(entries.drop_last());
        if lower_of(last.name@).len() <= MAX_HASH_CHARS {
            lemma_insert_all_sound(m, hash_seq(last.depth, lower_of(last.name@)), last.path, h, q);
            if q == last.path {
                assert(entries[entries.len() - 1].path == q);
            } else {
                lemma_index_sound(entries.drop_last(), h, q);
                let j = choose|j: int|
                    0 <= j < entries.drop_last().len() && entries.drop_last()[j].path == q;
                assert(entries[j].path == q);
            }
        } else {
            lemma_index_sound(entries.drop_last(), h, q);
            let j = choose|j: int|
                0 <= j < entries.drop_last().len() && entries.drop_last()[j].path == q;
            assert(entries[j].path == q);
        }
    }
}

proof fn lemma_insert_all_nonempty(m: Map<u64, Seq<String>>, hs: Seq<u64>, p: String)
    requires
        forall|h: u64| #[trigger] m.contains_key(h) ==> m[h].len() > 0,
    ensures
        forall|h: u64| #[trigger]
            spec_insert_all(m, hs, p).contains_key(h) ==> spec_insert_all(m, hs, p)[h].len() > 0,
    decreases hs.len(),
{
    if hs.len() > 0 {
        lemma_insert_all_nonempty(m, hs.drop_last(), p);
        let before = spec_insert_all(m, hs.drop_last(), p);
        let result = spec_insert_all(m, hs, p);
        assert forall|h: u64| #[trigger] result.contains_key(h) implies result[h].len() > 0 by {
            if h == hs.last() {
                assert(result[h] == model_bucket(before, h).push(p));
            } else {
                assert(result[h] == before[h]);
            }
        }
    }
}

/// Law: every bucket of the index is non-empty once created: an empty list
/// is never inserted.
pub proof fn lemma_buckets_nonempty(entries: Seq<FileEntry>, h: u64)
    requires
        spec_index_of(entries).contains_key(h),
    ensures
        spec_index_of(entries)[h].len() > 0,
    decreases entries.len(),
{
    if entries.len() > 0 {
        let last = entries.last();
        let m = spec_index_of(entries.drop_last());
        assert(forall|hh: u64| #[trigger] m.contains_key(hh) ==> m[hh].len() > 0) by {
            assert forall|hh: u64| #[trigger] m.contains_key(hh) implies m[hh].len() > 0 by {
                lemma_buckets_nonempty(entries.drop_last(), hh);
            }
        }
        if lower_of(last.name@).len() <= MAX_HASH_CHARS {
            lemma_insert_all_nonempty(m, hash_seq(last.depth, lower_of(last.name@)), last.path);
        }
    }
}

/// Law: the recorded depth dominates the depth of every indexed entry.
pub proof fn lemma_max_depth_dominates(entries: Seq<FileEntry>, j: int)
    requires
        0 <= j < entries.len(),
        lower_of(entries[j].name@).len() <= MAX_HASH_CHARS,
    ensures
        entries[j].depth <= spec_max_depth(entries),
    decreases entries.len(),
{
    if j < entries.len() - 1 {
        lemma_max_depth_dominates(entries.drop_last(), j);
        assert(entries.drop_last()[j] == entries[j]);
    }
}

/// The searcher's post-filter: the lowercased query is a prefix of the
/// lowercased trailing segment of the path. The hash bucket is only a
/// necessary condition for a hit; this predicate is the exact one.
pub open spec fn path_matches(p: String, q: Seq<char>) -> bool {
    lower_of(q).is_prefix_of(lower_of(tail_after_slash(p@)))
}

/// Scans one bucket of the index and appends to `shared_paths`, in bucket
/// order, exactly those of its paths whose trailing segment starts with
/// the search term, case-insensitively. A key with no bucket appends
/// nothing.
pub fn check_index(file_map: &FileMap, shared_paths: &mut Vec<String>, hash: &u64, search: &str)
    ensures
        final(shared_paths)@ == old(shared_paths)@ + model_bucket(
            file_map.buckets(),
            *hash,
        ).filter(|p: String| path_matches(p, search@)),
{
    let ghost base = shared_paths@;
    let ghost pred = |p: String| path_matches(p, search@);
    proof {
        reveal(Seq::filter);
    }
    match file_map.map.get(hash) {
        Some(list) => {
            let ghost bucket = model_bucket(file_map.buckets(), *hash);
            proof {
                assert(bucket == list@);
            }
            let n: usize = list.len();
            let mut i: usize = 0;
            while i < n
                invariant
                    i <= n,
                    n == list@.len(),
                    bucket == list@,
                    pred == (|p: String| path_matches(p, search@)),
                    shared_paths@ == base + bucket.subrange(0, i as int).filter(pred),
                decreases n - i,
            {
                let dir = &list[i];
                let matched = starts_with_prefix_simd(
                    last_chars_until_forward_slash(dir.as_str()),
                    search,
                );
                if matched {
                    shared_paths.push(dir.clone());
                }
                proof {
                    reveal(Seq::filter);
                    assert(bucket.subrange(0, i + 1).drop_last() =~= bucket.subrange(0, i as int));
                    assert(bucket.subrange(0, i + 1).last() == bucket[i as int]);
                    assert(matched == pred(bucket[i as int]));
                }
                i = i + 1;
            }
            proof {
                assert(bucket.subrange(0, n as int) =~= bucket);
            }
        },
        None => {
            proof {
                assert(model_bucket(file_map.buckets(), *hash) == Seq::<String>::empty());
            }
        },
    }
}

/// The searcher's answer over a snapshot of the index when the first
/// `levels` depths are probed: for each depth from 0 below `levels`, in
/// order, the matching paths of the bucket the query's hash state names at
/// that depth.
pub open spec fn spec_search(
    m: Map<u64, Seq<String>>,
    q: Seq<char>,
    levels: int,
) -> Seq<String>
    decreases levels,
{
    if levels <= 0 {
        Seq::empty()
    } else {
        spec_search(m, q, levels - 1) + model_bucket(
            m,
            spec_stack_hash((levels - 1) as u16, hash_num_c(lower_of(q)), hash_roll(lower_of(q)) as u32),
        ).filter(|p: String| path_matches(p, q))
    }
}

/// One pass of the index searcher: fans the search term out to one key per
/// depth up to and including the index's recorded maximum, scans each
/// bucket, and returns every path whose trailing segment starts with the
/// term, case-insensitively. `None` exactly when the lowercased term is too
/// long for the rolling hash.
pub fn search_index(file_map: &FileMap, search: &str) -> (r: Option<Vec<String>>)
    ensures
        match r {
            Some(results) => lower_of(search@).len() <= MAX_HASH_CHARS && results@ == spec_search(
                file_map.buckets(),
                search@,
                file_map.stack as int + 1,
            ),
            None => lower_of(search@).len() > MAX_HASH_CHARS,
        },
{
    let low = lowercase(search);
    let cs = chars_vec(low.as_str());
    if cs.len() > MAX_HASH_CHARS {
        return None;
    }
    let hashes = get_possible_hashes(file_map.stack, search);
    let mut results: Vec<String> = Vec::new();
    let n: usize = hashes.len();
    let mut i: usize = 0;
    while i < n
        invariant
            i <= n,
            n == hashes@.len(),
            n == file_map.stack as int + 1,
            hashes@ == query_hashes(file_map.stack, lower_of(search@)),
            results@ == spec_search(file_map.buckets(), search@, i as int),
        decreases n - i,
    {
        check_index(file_map, &mut results, &hashes[i], search);
        i = i + 1;
    }
    Some(results)
}

/// The searcher refreshes exactly when the search term or the index size
/// changed since its last pass.
pub fn search_refresh_needed(
    last_search: &String,
    last_size: usize,
    search: &String,
    size: usize,
) -> (r: bool)
    ensures
        r == (search@ != last_search@ || size != last_size),
{
    let same: bool = search.eq(last_search);
    !same || size != last_size
}

/// The number of buckets the index currently holds; the searcher polls it
/// to notice a new generation.
pub fn index_size(file_map: &FileMap) -> (r: usize)
    ensures
        r == file_map.buckets().dom().len(),
{
    proof {
        assert(file_map.buckets().dom() =~= file_map.map@.dom());
    }
    file_map.map.len()
}

/// The browser's answer: the paths of the entries whose lowercased name
/// starts with the lowercased search term, in the given order; an empty
/// term keeps every entry.
pub open spec fn spec_browser(entries: Seq<FileEntry>, q: Seq<char>) -> Seq<String> {
    entries.filter(|e: FileEntry| lower_of(q).is_prefix_of(lower_of(e.name@))).map_values(
        |e: FileEntry| e.path,
    )
}

/// Filters the immediate children of the current directory for the
/// browser: keeps, in walk order, each entry whose name starts with the
/// search term, case-insensitively.
pub fn browser_filter(entries: &Vec<FileEntry>, search: &str) -> (r: Vec<String>)
    ensures
        r@ == spec_browser(entries@, search@),
{
    let ghost pred = |e: FileEntry| lower_of(search@).is_prefix_of(lower_of(e.name@));
    let mut r: Vec<String> = Vec::new();
    let n: usize = entries.len();
    let mut i: usize = 0;
    while i < n
        invariant
            i <= n,
            n == entries@.len(),
            pred == (|e: FileEntry| lower_of(search@).is_prefix_of(lower_of(e.name@))),
            r@ == spec_browser(entries@.subrange(0, i as int), search@),
        decreases n - i,
    {
        let e = &entries[i];
        let matched = starts_with_prefix_simd(e.name.as_str(), search);
        if matched {
            r.push(e.path.clone());
        }
        proof {
            reveal(Seq::filter);
            let sub = entries@.subrange(0, i as int);
            let sub1 = entries@.subrange(0, i + 1);
            assert(sub1.drop_last() =~= sub);
            assert(sub1.last() == entries@[i as int]);
            assert(matched == pred(entries@[i as int]));
            if matched {
                assert(sub1.filter(pred) == sub.filter(pred).push(entries@[i as int]));
                assert(sub1.filter(pred).map_values(|e: FileEntry| e.path) =~= sub.filter(
                    pred,
                ).map_values(|e: FileEntry| e.path).push(entries@[i as int].path));
            } else {
                assert(sub1.filter(pred) == sub.filter(pred));
            }
        }
        i = i + 1;
    }
    proof {
        assert(entries@.subrange(0, n as int) =~= entries@);
    }
    r
}

proof fn lemma_search_covers_depth(
    m: Map<u64, Seq<String>>,
    q: Seq<char>,
    levels: int,
    d: int,
    p: String,
)
    requires
        0 <= d < levels,
        model_bucket(
            m,
            spec_stack_hash(d as u16, hash_num_c(lower_of(q)), hash_roll(lower_of(q)) as u32),
        ).filter(|pp: String| path_matches(pp, q)).contains(p),
    ensures
        spec_search(m, q, levels).contains(p),
    decreases levels,
{
    let flt = model_bucket(
        m,
        spec_stack_hash(d as u16, hash_num_c(lower_of(q)), hash_roll(lower_of(q)) as u32),
    ).filter(|pp: String| path_matches(pp, q));
    if d == levels - 1 {
        let a = spec_search(m, q, levels - 1);
        let i = choose|i: int| 0 <= i < flt.len() && flt[i] == p;
        assert(spec_search(m, q, levels)[a.len() + i] == p);
    } else {
        lemma_search_covers_depth(m, q, levels - 1, d, p);
        let a = spec_search(m, q, levels - 1);
        let i = choose|i: int| 0 <= i < a.len() && a[i] == p;
        assert(spec_search(m, q, levels)[i] == p);
    }
}

/// Law: the searcher is complete: an indexed entry whose depth the index
/// has recorded (the fan-out probes every depth up to and including the
/// recorded maximum), whose walked name is the trailing segment of its
/// path, and whose lowercased name starts with the non-empty lowercased
/// query, has its path among the search results over that index.
pub proof fn lemma_search_complete(entries: Seq<FileEntry>, j: int, q: Seq<char>, stack: u16)
    requires
        0 <= j < entries.len(),
        lower_of(entries[j].name@).len() <= MAX_HASH_CHARS,
        1 <= lower_of(q).len(),
        lower_of(q).is_prefix_of(lower_of(entries[j].name@)),
        tail_after_slash(entries[j].path@) == entries[j].name@,
        (entries[j].depth as int) <= stack as int,
    ensures
        spec_search(spec_index_of(entries), q, stack as int + 1).contains(entries[j].path),
{
    let e = entries[j];
    let name = lower_of(e.name@);
    let k = lower_of(q).len() as int;
    let m = spec_index_of(entries);
    lemma_index_complete(entries, j, k);
    lemma_query_key_is_index_key(lower_of(q), name, e.depth);
    let h = spec_stack_hash(e.depth, hash_num_c(lower_of(q)), hash_roll(lower_of(q)) as u32);
    assert(model_bucket(m, h).contains(e.path));
    assert(path_matches(e.path, q));
    let b = model_bucket(m, h);
    let i = choose|i: int| 0 <= i < b.len() && b[i] == e.path;
    b.lemma_filter_contains(|pp: String| path_matches(pp, q), i);
    lemma_search_covers_depth(m, q, stack as int + 1, e.depth as int, e.path);
}

/// Law: the searcher is sound: every path it returns was indexed by some
/// entry of the current generation, and its trailing segment really does
/// start with the query, case-insensitively — a path that landed in a
/// probed bucket by hash collision alone is filtered out.
pub proof fn lemma_search_sound(entries: Seq<FileEntry>, q: Seq<char>, levels: int, p: String)
    requires
        spec_search(spec_index_of(entries), q, levels).contains(p),
    ensures
        exists|j: int| 0 <= j < entries.len() && entries[j].path == p,
        path_matches(p, q),
    decreases levels,
{
    let m = spec_index_of(entries);
    if levels <= 0 {
        assert(false);
    } else {
        let a = spec_search(m, q, levels - 1);
        let h = spec_stack_hash(
            (levels - 1) as u16,
            hash_num_c(lower_of(q)),
            hash_roll(lower_of(q)) as u32,
        );
        let flt = model_bucket(m, h).filter(|pp: String| path_matches(pp, q));
        let i = choose|i: int|
            0 <= i < spec_search(m, q, levels).len() && spec_search(m, q, levels)[i] == p;
        if i < a.len() {
            assert(a[i] == p);
            lemma_search_sound(entries, q, levels - 1, p);
        } else {
            let fi = i - a.len();
            assert(flt[fi] == p);
            model_bucket(m, h).lemma_filter_pred(|pp: String| path_matches(pp, q), fi);
            assert(flt.contains(p));
            model_bucket(m, h).lemma_filter_contains_rev(|pp: String| path_matches(pp, q), p);
            lemma_index_sound(entries, h, p);
        }
    }
}

} // verus!
