//! Grouping keys, directory pruning and the accumulation of sizes per group
//! and in total.
use vstd::prelude::*;

verus! {

/// What kind of filesystem entry a walk reported.
#[derive(Debug, Clone, Copy, PartialEq, Eq, Structural)]
pub enum EntryKind {
    Dir,
    File,
    Other,
}

/// One entry reported by a walk: its path components relative to the root,
/// its kind and, for a file, its size in bytes.
#[derive(Debug, Clone)]
pub struct Entry {
    pub components: Vec<String>,
    pub kind: EntryKind,
    pub size: u64,
}

/// Size and number of files of one group.
#[derive(Debug, Clone, Copy, PartialEq, Eq, Structural)]
pub struct GroupStats {
    pub size: u64,
    pub file_count: u64,
}

/// A grouping key with the stats accumulated for it.
#[derive(Debug, Clone)]
pub struct Group {
    pub key: String,
    pub stats: GroupStats,
}

/// Totals over the whole walk, root-level files included.
#[derive(Debug, Clone, Copy, PartialEq, Eq, Structural)]
pub struct Totals {
    pub total_size: u64,
    pub total_files: u64,
    pub total_dirs: u64,
}

pub open spec fn names(cs: Seq<String>) -> Seq<Seq<char>> {
    cs.map_values(|c: String| c@)
}

/// The path components of an entry as character sequences.
pub open spec fn comps(e: Entry) -> Seq<Seq<char>> {
    names(e.components@)
}

/// Components joined with `/`.
pub open spec fn join_path(cs: Seq<Seq<char>>) -> Seq<char>
    decreases cs.len(),
{
    if cs.len() == 0 {
        Seq::empty()
    } else if cs.len() == 1 {
        cs[0]
    } else {
        join_path(cs.drop_last()) + seq!['/'] + cs.last()
    }
}

/// Number of leading components that form the key of a path of `n`
/// components: the configured depth, but no more than the components above
/// the file, and at least one.
pub open spec fn key_depth(n: int, depth: int) -> int {
    let avail = if n - 1 >= 1 {
        n - 1
    } else {
        1
    };
    if depth < avail {
        depth
    } else {
        avail
    }
}

/// The grouping key of a file with path components `cs`; `None` for a file
/// directly in the root.
pub open spec fn key_of(cs: Seq<Seq<char>>, depth: int) -> Option<Seq<char>> {
    if cs.len() <= 1 {
        None
    } else {
        Some(join_path(cs.subrange(0, key_depth(cs.len() as int, depth))))
    }
}

/// Derives the grouping key of a file from its path components: the first
/// `min(depth, n - 1)` (at least one) of its `n` components joined with `/`,
/// or `None` for a file directly in the root.
pub fn group_key(components: &Vec<String>, depth: usize) -> (r: Option<String>)
    ensures
        r is None <==> key_of(names(components@), depth as int) is None,
        r is Some ==> r->0@ == key_of(names(components@), depth as int)->0,
{
    let n = components.len();
    if n <= 1 {
        return None;
    }
    let avail: usize = n - 1;
    let k: usize = if depth < avail {
        depth
    } else {
        avail
    };
    let ghost cs = names(components@);
    let mut key = String::new();
    let mut i: usize = 0;
    assert(cs.subrange(0, 0) =~= Seq::<Seq<char>>::empty());
    while i < k
        invariant
            cs == names(components@),
            k <= n == components@.len(),
            i <= k,
            key@ == join_path(cs.subrange(0, i as int)),
        decreases k - i,
    {
        let ghost sub = cs.subrange(0, i + 1);
        assert(sub.drop_last() =~= cs.subrange(0, i as int));
        assert(sub.last() == components@[i as int]@);
        if i > 0 {
            proof {
                reveal_strlit("/");
            }
            key.append("/");
        }
        key.append(components[i].as_str());
        i = i + 1;
        assert(key@ =~= join_path(cs.subrange(0, i as int)));
    }
    Some(key)
}

/// The set of excluded names as character sequences.
pub open spec fn excluded(exclude: Seq<String>) -> Set<Seq<char>> {
    names(exclude).to_set()
}

/// Whether a walk descends into a directory of this base name: it does
/// unless the name is excluded.
pub fn should_descend(name: &String, exclude: &Vec<String>) -> (r: bool)
    ensures
        r == !excluded(exclude@).contains(name@),
{
    let mut i: usize = 0;
    while i < exclude.len()
        invariant
            i <= exclude@.len(),
            forall|j: int| 0 <= j < i ==> exclude@[j]@ != name@,
        decreases exclude@.len() - i,
    {
        if exclude[i] == *name {
            assert(names(exclude@)[i as int] == name@);
            return false;
        }
        i = i + 1;
    }
    proof {
        if names(exclude@).to_set().contains(name@) {
            let j = choose|j: int| 0 <= j < names(exclude@).len() && names(exclude@)[j] == name@;
            assert(exclude@[j]@ == name@);
        }
    }
    true
}

/// Bytes of the files among `es`.
pub open spec fn file_bytes(es: Seq<Entry>) -> nat
    decreases es.len(),
{
    if es.len() == 0 {
        0
    } else {
        file_bytes(es.drop_last()) + if es.last().kind == EntryKind::File {
            es.last().size as nat
        } else {
            0
        }
    }
}

/// Number of files among `es`.
pub open spec fn file_total(es: Seq<Entry>) -> nat
    decreases es.len(),
{
    if es.len() == 0 {
        0
    } else {
        file_total(es.drop_last()) + if es.last().kind == EntryKind::File {
            1nat
        } else {
            0
        }
    }
}

/// Number of directories among `es`.
pub open spec fn dir_total(es: Seq<Entry>) -> nat
    decreases es.len(),
{
    if es.len() == 0 {
        0
    } else {
        dir_total(es.drop_last()) + if es.last().kind == EntryKind::Dir {
            1nat
        } else {
            0
        }
    }
}

/// Whether `e` is a file whose key at `depth` is `k`.
pub open spec fn counts_toward(e: Entry, depth: int, k: Seq<char>) -> bool {
    e.kind == EntryKind::File && key_of(comps(e), depth) == Some(k)
}

/// Whether `e` is a file that has a key at `depth`.
pub open spec fn is_grouped(e: Entry, depth: int) -> bool {
    e.kind == EntryKind::File && key_of(comps(e), depth) is Some
}

/// Bytes of the files among `es` whose key at `depth` is `k`.
pub open spec fn keyed_bytes(es: Seq<Entry>, depth: int, k: Seq<char>) -> nat
    decreases es.len(),
{
    if es.len() == 0 {
        0
    } else {
        keyed_bytes(es.drop_last(), depth, k) + if counts_toward(es.last(), depth, k) {
            es.last().size as nat
        } else {
            0
        }
    }
}

/// Number of the files among `es` whose key at `depth` is `k`.
pub open spec fn keyed_files(es: Seq<Entry>, depth: int, k: Seq<char>) -> nat
    decreases es.len(),
{
    if es.len() == 0 {
        0
    } else {
        keyed_files(es.drop_last(), depth, k) + if counts_toward(es.last(), depth, k) {
            1nat
        } else {
            0
        }
    }
}

/// Bytes of the files among `es` that have some key at `depth`.
pub open spec fn grouped_bytes(es: Seq<Entry>, depth: int) -> nat
    decreases es.len(),
{
    if es.len() == 0 {
        0
    } else {
        grouped_bytes(es.drop_last(), depth) + if is_grouped(es.last(), depth) {
            es.last().size as nat
        } else {
            0
        }
    }
}

/// Size recorded for key `k` in `gs`.
pub open spec fn size_for(gs: Seq<Group>, k: Seq<char>) -> nat
    decreases gs.len(),
{
    if gs.len() == 0 {
        0
    } else {
        size_for(gs.drop_last(), k) + if gs.last().key@ == k {
            gs.last().stats.size as nat
        } else {
            0
        }
    }
}

/// Number of files recorded for key `k` in `gs`.
pub open spec fn files_for(gs: Seq<Group>, k: Seq<char>) -> nat
    decreases gs.len(),
{
    if gs.len() == 0 {
        0
    } else {
        files_for(gs.drop_last(), k) + if gs.last().key@ == k {
            gs.last().stats.file_count as nat
        } else {
            0
        }
    }
}

/// Sum of the sizes of all groups in `gs`.
pub open spec fn group_sum(gs: Seq<Group>) -> nat
    decreases gs.len(),
{
    if gs.len() == 0 {
        0
    } else {
        group_sum(gs.drop_last()) + gs.last().stats.size as nat
    }
}

pub open spec fn has_key(gs: Seq<Group>, k: Seq<char>) -> bool {
    exists|i: int| 0 <= i < gs.len() && #[trigger] gs[i].key@ == k
}

pub open spec fn keys_unique(gs: Seq<Group>) -> bool {
    forall|i: int, j: int|
        0 <= i < gs.len() && 0 <= j < gs.len() && i != j ==> #[trigger] gs[i].key@
            != #[trigger] gs[j].key@
}

proof fn lemma_update_sums(gs: Seq<Group>, i: int, g: Group, k: Seq<char>)
    requires
        0 <= i < gs.len(),
        g.key@ == gs[i].key@,
    ensures
        size_for(gs.update(i, g), k) + (if gs[i].key@ == k {
            gs[i].stats.size as nat
        } else {
            0
        }) == size_for(gs, k) + (if g.key@ == k {
            g.stats.size as nat
        } else {
            0
        }),
        files_for(gs.update(i, g), k) + (if gs[i].key@ == k {
            gs[i].stats.file_count as nat
        } else {
            0
        }) == files_for(gs, k) + (if g.key@ == k {
            g.stats.file_count as nat
        } else {
            0
        }),
        group_sum(gs.update(i, g)) + gs[i].stats.size == group_sum(gs) + g.stats.size,
    decreases gs.len(),
{
    let u = gs.update(i, g);
    if i == gs.len() - 1 {
        assert(u.drop_last() =~= gs.drop_last());
    } else {
        lemma_update_sums(gs.drop_last(), i, g, k);
        assert(u.drop_last() =~= gs.drop_last().update(i, g));
    }
}

/// The running aggregate of a walk: one group per key seen, and the totals.
pub struct Aggregator {
    pub depth: usize,
    pub groups: Vec<Group>,
    pub totals: Totals,
}

impl Aggregator {
    /// Keys are unique, and no group holds more bytes or files than the
    /// totals do.
    pub open spec fn wf(&self) -> bool {
        &&& keys_unique(self.groups@)
        &&& forall|i: int|
            0 <= i < self.groups@.len() ==> (#[trigger] self.groups@[i]).stats.size
                <= self.totals.total_size && self.groups@[i].stats.file_count
                <= self.totals.total_files
        &&& group_sum(self.groups@) <= self.totals.total_size
    }

    /// An empty aggregate grouping at `depth`.
    pub fn new(depth: usize) -> (r: Aggregator)
        ensures
            r.wf(),
            r.depth == depth,
            r.groups@.len() == 0,
            r.totals == (Totals { total_size: 0, total_files: 0, total_dirs: 0 }),
    {
        Aggregator {
            depth,
            groups: Vec::new(),
            totals: Totals { total_size: 0, total_files: 0, total_dirs: 0 },
        }
    }

    /// Position of the group with key `key`, if there is one.
    fn find(&self, key: &String) -> (r: Option<usize>)
        ensures
            r is None ==> !has_key(self.groups@, key@),
            r is Some ==> r->0 < self.groups@.len() && self.groups@[r->0 as int].key@ == key@,
    {
        let mut i: usize = 0;
        while i < self.groups.len()
            invariant
                i <= self.groups@.len(),
                forall|j: int| 0 <= j < i ==> self.groups@[j].key@ != key@,
            decreases self.groups@.len() - i,
        {
            if self.groups[i].key == *key {
                return Some(i);
            }
            i = i + 1;
        }
        None
    }

    /// Records one walked entry: a directory counts toward the directory
    /// total; a file counts toward the file and byte totals and, where it has
    /// a key, toward that key's group, which is created on first use.
    pub fn record(&mut self, e: &Entry)
        requires
            old(self).wf(),
            e.kind == EntryKind::File ==> old(self).totals.total_size + e.size <= u64::MAX,
            old(self).totals.total_files < u64::MAX,
            old(self).totals.total_dirs < u64::MAX,
        ensures
            final(self).wf(),
            final(self).depth == old(self).depth,
            final(self).totals.total_size == old(self).totals.total_size + if e.kind
                == EntryKind::File {
                e.size
            } else {
                0
            },
            final(self).totals.total_files == old(self).totals.total_files + if e.kind
                == EntryKind::File {
                1int
            } else {
                0
            },
            final(self).totals.total_dirs == old(self).totals.total_dirs + if e.kind
                == EntryKind::Dir {
                1int
            } else {
                0
            },
            forall|k: Seq<char>|
                #[trigger] size_for(final(self).groups@, k) == size_for(old(self).groups@, k) + if counts_toward(
                    *e,
                    old(self).depth as int,
                    k,
                ) {
                    e.size as nat
                } else {
                    0
                },
            forall|k: Seq<char>|
                #[trigger] files_for(final(self).groups@, k) == files_for(old(self).groups@, k)
                    + if counts_toward(*e, old(self).depth as int, k) {
                    1nat
                } else {
                    0
                },
            forall|k: Seq<char>|
                #[trigger] has_key(final(self).groups@, k) <==> has_key(old(self).groups@, k)
                    || counts_toward(*e, old(self).depth as int, k),
            group_sum(final(self).groups@) == group_sum(old(self).groups@) + if is_grouped(
                *e,
                old(self).depth as int,
            ) {
                e.size as nat
            } else {
                0
            },
    {
        if e.kind == EntryKind::Dir {
            self.totals.total_dirs = self.totals.total_dirs + 1;
            return;
        }
        if e.kind != EntryKind::File {
            return;
        }
        self.totals.total_size = self.totals.total_size + e.size;
        self.totals.total_files = self.totals.total_files + 1;
        let key = match group_key(&e.components, self.depth) {
            None => return,
            Some(key) => key,
        };
        let ghost gs = self.groups@;
        match self.find(&key) {
            Some(i) => {
                let old_stats = self.groups[i].stats;
                let g = Group {
                    key: self.groups[i].key.clone(),
                    stats: GroupStats {
                        size: old_stats.size + e.size,
                        file_count: old_stats.file_count + 1,
                    },
                };
                self.groups.set(i, g);
                proof {
                    assert forall|k: Seq<char>|
                        #[trigger] size_for(self.groups@, k) == size_for(gs, k) + if counts_toward(
                            *e,
                            self.depth as int,
                            k,
                        ) {
                            e.size as nat
                        } else {
                            0
                        } by {
                        lemma_update_sums(gs, i as int, g, k);
                    }
                    assert forall|k: Seq<char>|
                        #[trigger] files_for(self.groups@, k) == files_for(gs, k) + if counts_toward(
                            *e,
                            self.depth as int,
                            k,
                        ) {
                            1nat
                        } else {
                            0
                        } by {
                        lemma_update_sums(gs, i as int, g, k);
                    }
                    lemma_update_sums(gs, i as int, g, key@);
                    assert forall|k: Seq<char>|
                        #[trigger] has_key(self.groups@, k) <==> has_key(gs, k) || counts_toward(
                            *e,
                            self.depth as int,
                            k,
                        ) by {
                        if has_key(gs, k) {
                            let j = choose|j: int| 0 <= j < gs.len() && #[trigger] gs[j].key@ == k;
                            assert(self.groups@[j].key@ == k);
                        }
                        if has_key(self.groups@, k) {
                            let j = choose|j: int|
                                0 <= j < self.groups@.len() && #[trigger] self.groups@[j].key@ == k;
                            assert(gs[j].key@ == k);
                        }
                    }
                }
            },
            None => {
                let g = Group { key, stats: GroupStats { size: e.size, file_count: 1 } };
                self.groups.push(g);
                proof {
                    assert(self.groups@.drop_last() =~= gs);
                    assert forall|k: Seq<char>|
                        #[trigger] files_for(self.groups@, k) == files_for(gs, k) + if counts_toward(
                            *e,
                            self.depth as int,
                            k,
                        ) {
                            1nat
                        } else {
                            0
                        } by {
                        assert(self.groups@.last() == g);
                    }
                    assert forall|k: Seq<char>| #[trigger]
                        has_key(self.groups@, k) <==> has_key(gs, k) || counts_toward(
                            *e,
                            self.depth as int,
                            k,
                        ) by {
                        if has_key(gs, k) {
                            let j = choose|j: int| 0 <= j < gs.len() && #[trigger] gs[j].key@ == k;
                            assert(self.groups@[j].key@ == k);
                        }
                        if counts_toward(*e, self.depth as int, k) {
                            assert(self.groups@[gs.len() as int].key@ == k);
                        }
                    }
                }
            },
        }
    }
}

proof fn lemma_prefix_bounds(es: Seq<Entry>, j: int)
    requires
        0 <= j <= es.len(),
    ensures
        file_bytes(es.subrange(0, j)) <= file_bytes(es),
        file_total(es.subrange(0, j)) <= j,
        dir_total(es.subrange(0, j)) <= j,
    decreases es.len(),
{
    if j == es.len() {
        assert(es.subrange(0, j) =~= es);
        lemma_counts_le_len(es);
    } else {
        lemma_prefix_bounds(es.drop_last(), j);
        assert(es.drop_last().subrange(0, j) =~= es.subrange(0, j));
    }
}

proof fn lemma_counts_le_len(es: Seq<Entry>)
    ensures
        file_total(es) <= es.len(),
        dir_total(es) <= es.len(),
    decreases es.len(),
{
    if es.len() > 0 {
        lemma_counts_le_len(es.drop_last());
    }
}

/// Aggregates the entries of a walk at grouping depth `depth`.
///
/// The totals count every file and directory among `entries`, root-level
/// files included; each group holds exactly the bytes and the number of the
/// files whose key is its own, and a group exists for each key that some file
/// has.
pub fn aggregate(entries: &Vec<Entry>, depth: usize) -> (r: Aggregator)
    requires
        file_bytes(entries@) <= u64::MAX,
        entries@.len() <= u64::MAX,
    ensures
        r.wf(),
        r.depth == depth,
        r.totals.total_size == file_bytes(entries@),
        r.totals.total_files == file_total(entries@),
        r.totals.total_dirs == dir_total(entries@),
        forall|k: Seq<char>| #[trigger]
            size_for(r.groups@, k) == keyed_bytes(entries@, depth as int, k),
        forall|k: Seq<char>| #[trigger]
            files_for(r.groups@, k) == keyed_files(entries@, depth as int, k),
        forall|k: Seq<char>| #[trigger]
            has_key(r.groups@, k) <==> keyed_files(entries@, depth as int, k) > 0,
        group_sum(r.groups@) == grouped_bytes(entries@, depth as int),
{
    let mut agg = Aggregator::new(depth);
    let mut i: usize = 0;
    assert(entries@.subrange(0, 0) =~= Seq::<Entry>::empty());
    while i < entries.len()
        invariant
            i <= entries@.len() <= u64::MAX,
            file_bytes(entries@) <= u64::MAX,
            agg.wf(),
            agg.depth == depth,
            agg.totals.total_size == file_bytes(entries@.subrange(0, i as int)),
            agg.totals.total_files == file_total(entries@.subrange(0, i as int)),
            agg.totals.total_dirs == dir_total(entries@.subrange(0, i as int)),
            forall|k: Seq<char>| #[trigger]
                size_for(agg.groups@, k) == keyed_bytes(entries@.subrange(0, i as int), depth as int, k),
            forall|k: Seq<char>| #[trigger]
                files_for(agg.groups@, k) == keyed_files(entries@.subrange(0, i as int), depth as int, k),
            forall|k: Seq<char>| #[trigger]
                has_key(agg.groups@, k) <==> keyed_files(entries@.subrange(0, i as int), depth as int, k) > 0,
            group_sum(agg.groups@) == grouped_bytes(entries@.subrange(0, i as int), depth as int),
        decreases entries@.len() - i,
    {
        let ghost prev = entries@.subrange(0, i as int);
        let ghost next = entries@.subrange(0, i + 1);
        proof {
            assert(next.drop_last() =~= prev);
            lemma_prefix_bounds(entries@, i + 1);
            lemma_prefix_bounds(entries@, i as int);
        }
        agg.record(&entries[i]);
        i = i + 1;
        proof {
            assert forall|k: Seq<char>| #[trigger]
                has_key(agg.groups@, k) <==> keyed_files(next, depth as int, k) > 0 by {
                assert(keyed_files(next, depth as int, k) == keyed_files(prev, depth as int, k) + if counts_toward(entries@[i - 1], depth as int, k) { 1nat } else { 0 });
            }
        }
    }
    assert(entries@.subrange(0, i as int) =~= entries@);
    agg
}

/// Every byte in a group is also in the byte total: the groups together
/// hold no more than all the files, and less exactly where files sit directly
/// in the root.
pub proof fn lemma_groups_within_total(es: Seq<Entry>, depth: int)
    ensures
        grouped_bytes(es, depth) <= file_bytes(es),
    decreases es.len(),
{
    if es.len() > 0 {
        lemma_groups_within_total(es.drop_last(), depth);
    }
}

/// The depth changes how files are grouped, never which files are grouped
/// nor how many bytes the groups hold together.
pub proof fn lemma_depth_keeps_counted_bytes(es: Seq<Entry>, d1: int, d2: int)
    ensures
        forall|e: Entry| is_grouped(e, d1) <==> #[trigger] is_grouped(e, d2),
        grouped_bytes(es, d1) == grouped_bytes(es, d2),
    decreases es.len(),
{
    if es.len() > 0 {
        lemma_depth_keeps_counted_bytes(es.drop_last(), d1, d2);
    }
}

/// Whether a walk that prunes the directories named in `ex` never reports
/// `e`: one of the directories above it, or `e` itself if it is a directory,
/// has an excluded name.
pub open spec fn pruned(e: Entry, ex: Set<Seq<char>>) -> bool {
    let cs = comps(e);
    let n = if e.kind == EntryKind::Dir {
        cs.len() as int
    } else {
        cs.len() - 1
    };
    exists|j: int| 0 <= j < n && ex.contains(#[trigger] cs[j])
}

/// The entries of a walk that prunes the directories named in `ex`.
pub open spec fn walked(es: Seq<Entry>, ex: Set<Seq<char>>) -> Seq<Entry> {
    es.filter(|e: Entry| !pruned(e, ex))
}

/// The entries that pruning the directories named in `ex` leaves out.
pub open spec fn pruned_out(es: Seq<Entry>, ex: Set<Seq<char>>) -> Seq<Entry> {
    es.filter(|e: Entry| pruned(e, ex))
}

/// Excluding directory names removes exactly the bytes of the files under
/// the pruned directories, from the byte total and from every group.
pub proof fn lemma_exclusion_removes_subtrees(es: Seq<Entry>, ex: Set<Seq<char>>, depth: int)
    ensures
        file_bytes(walked(es, ex)) + file_bytes(pruned_out(es, ex)) == file_bytes(es),
        forall|k: Seq<char>|
            #[trigger] keyed_bytes(walked(es, ex), depth, k) + keyed_bytes(pruned_out(es, ex), depth, k)
                == keyed_bytes(es, depth, k),
        forall|i: int| 0 <= i < walked(es, ex).len() ==> !pruned(#[trigger] walked(es, ex)[i], ex),
    decreases es.len(),
{
    reveal(Seq::filter);
    let w = walked(es, ex);
    let p = pruned_out(es, ex);
    if es.len() > 0 {
        let rest = es.drop_last();
        lemma_exclusion_removes_subtrees(rest, ex, depth);
        let wr = walked(rest, ex);
        let pr = pruned_out(rest, ex);
        if pruned(es.last(), ex) {
            assert(w == wr);
            assert(p == pr.push(es.last()));
            assert(p.drop_last() =~= pr);
        } else {
            assert(w == wr.push(es.last()));
            assert(p == pr);
            assert(w.drop_last() =~= wr);
        }
        assert forall|k: Seq<char>|
            #[trigger] keyed_bytes(w, depth, k) + keyed_bytes(p, depth, k) == keyed_bytes(es, depth, k) by {
            assert(keyed_bytes(wr, depth, k) + keyed_bytes(pr, depth, k) == keyed_bytes(rest, depth, k));
        }
        assert forall|i: int| 0 <= i < w.len() implies !pruned(#[trigger] w[i], ex) by {
            if i < wr.len() {
                assert(w[i] == wr[i]);
            }
        }
    } else {
        assert(w =~= Seq::<Entry>::empty());
        assert(p =~= Seq::<Entry>::empty());
    }
}

/// Whether a walk that prunes the directories named in `exclude` leaves `e`
/// out.
pub fn is_pruned(e: &Entry, exclude: &Vec<String>) -> (r: bool)
    ensures
        r == pruned(*e, excluded(exclude@)),
{
    let n = e.components.len();
    let limit: usize = if e.kind == EntryKind::Dir {
        n
    } else if n > 0 {
        n - 1
    } else {
        0
    };
    let ghost cs = comps(*e);
    let mut j: usize = 0;
    while j < limit
        invariant
            cs == comps(*e),
            limit <= n == e.components@.len(),
            limit == (if e.kind == EntryKind::Dir { cs.len() as int } else if n > 0 { cs.len() - 1 } else { 0 }),
            j <= limit,
            forall|i: int| 0 <= i < j ==> !excluded(exclude@).contains(#[trigger] cs[i]),
        decreases limit - j,
    {
        if !should_descend(&e.components[j], exclude) {
            assert(excluded(exclude@).contains(cs[j as int]));
            return true;
        }
        j = j + 1;
    }
    false
}

/// With no excluded names a walk reports every entry, so the byte total of
/// its aggregate is the size of all files under the root.
pub proof fn lemma_no_exclusion_walks_all(es: Seq<Entry>)
    ensures
        walked(es, Set::empty()) == es,
        file_bytes(walked(es, Set::empty())) == file_bytes(es),
    decreases es.len(),
{
    reveal(Seq::filter);
    if es.len() > 0 {
        lemma_no_exclusion_walks_all(es.drop_last());
        assert(!pruned(es.last(), Set::empty()));
        assert(es.drop_last().push(es.last()) =~= es);
    } else {
        assert(walked(es, Set::empty()) =~= es);
    }
}

} // verus!
