//! Selection of the groups to report: the size threshold, the ordering by
//! size and the top-N cut.
use vstd::prelude::*;
use vstd::seq_lib::{to_multiset_build, to_multiset_insert};
use crate::group::{Group, GroupStats};
use crate::size::chars_of;

verus! {

/// Whether a group survives the optional minimum size.
pub open spec fn passes(g: Group, min: Option<u64>) -> bool {
    match min {
        None => true,
        Some(m) => g.stats.size >= m,
    }
}

/// The groups of `gs` that survive the optional minimum size, in order.
pub open spec fn filter_min(gs: Seq<Group>, min: Option<u64>) -> Seq<Group> {
    gs.filter(|g: Group| passes(g, min))
}

/// `a` comes before `b` in lexicographic order of characters.
pub open spec fn seq_lt(a: Seq<char>, b: Seq<char>) -> bool
    decreases a.len(),
{
    if a.len() == 0 {
        b.len() > 0
    } else if b.len() == 0 {
        false
    } else if a[0] != b[0] {
        a[0] < b[0]
    } else {
        seq_lt(a.drop_first(), b.drop_first())
    }
}

/// `g` is reported before `h`: it is larger, or as large with a smaller key.
pub open spec fn ranks_before(g: Group, h: Group) -> bool {
    g.stats.size > h.stats.size || (g.stats.size == h.stats.size && seq_lt(g.key@, h.key@))
}

/// No group of `gs` ranks before one that precedes it.
pub open spec fn ranked(gs: Seq<Group>) -> bool {
    forall|i: int, j: int| 0 <= i < j < gs.len() ==> !ranks_before(gs[j], gs[i])
}

proof fn lemma_seq_lt_order(a: Seq<char>, b: Seq<char>, c: Seq<char>)
    ensures
        seq_lt(a, b) && seq_lt(b, c) ==> seq_lt(a, c),
        !seq_lt(a, b) && !seq_lt(b, a) ==> a == b,
        !(seq_lt(a, b) && seq_lt(b, a)),
    decreases a.len(),
{
    if a.len() > 0 && b.len() > 0 {
        let c2 = if c.len() > 0 {
            c.drop_first()
        } else {
            c
        };
        lemma_seq_lt_order(a.drop_first(), b.drop_first(), c2);
    }
    if a.len() > 0 && b.len() > 0 && !seq_lt(a, b) && !seq_lt(b, a) {
        assert(a[0] == b[0]);
        assert(a =~= seq![a[0]] + a.drop_first());
        assert(b =~= seq![b[0]] + b.drop_first());
    }
    if a.len() == 0 && b.len() == 0 {
        assert(a =~= b);
    }
}

proof fn lemma_ranks_order(x: Group, y: Group, z: Group)
    ensures
        ranks_before(x, y) && ranks_before(y, z) ==> ranks_before(x, z),
        !(ranks_before(x, y) && ranks_before(y, x)),
{
    lemma_seq_lt_order(x.key@, y.key@, z.key@);
}

/// Whether `a` comes before `b` in lexicographic order of characters.
fn key_less(a: &String, b: &String) -> (r: bool)
    ensures
        r == seq_lt(a@, b@),
{
    let x = chars_of(a.as_str());
    let y = chars_of(b.as_str());
    let mut i: usize = 0;
    assert(x@.subrange(0, x@.len() as int) =~= x@);
    assert(y@.subrange(0, y@.len() as int) =~= y@);
    while i < x.len() && i < y.len() && x[i] == y[i]
        invariant
            x@ == a@,
            y@ == b@,
            i <= x@.len(),
            i <= y@.len(),
            seq_lt(a@, b@) == seq_lt(x@.subrange(i as int, x@.len() as int), y@.subrange(i as int, y@.len() as int)),
        decreases x@.len() - i,
    {
        assert(x@.subrange(i as int, x@.len() as int).drop_first() =~= x@.subrange(i + 1, x@.len() as int));
        assert(y@.subrange(i as int, y@.len() as int).drop_first() =~= y@.subrange(i + 1, y@.len() as int));
        i = i + 1;
    }
    if i == x.len() {
        i < y.len()
    } else if i == y.len() {
        false
    } else {
        x[i] < y[i]
    }
}

fn ranks_before_exec(g: &Group, h: &Group) -> (r: bool)
    ensures
        r == ranks_before(*g, *h),
{
    g.stats.size > h.stats.size || (g.stats.size == h.stats.size && key_less(&g.key, &h.key))
}

/// Sizes do not grow along `gs`.
pub open spec fn sorted_desc(gs: Seq<Group>) -> bool {
    forall|i: int, j: int| 0 <= i < j < gs.len() ==> gs[i].stats.size >= gs[j].stats.size
}

pub open spec fn min_len(a: int, b: int) -> int {
    if a < b {
        a
    } else {
        b
    }
}

fn copy_group(g: &Group) -> (r: Group)
    ensures
        r == *g,
{
    Group { key: g.key.clone(), stats: GroupStats { size: g.stats.size, file_count: g.stats.file_count } }
}

/// Keeps the groups whose size is at least `min`, all of them without a
/// minimum, in their order.
pub fn filter_min_size(groups: &Vec<Group>, min: Option<u64>) -> (r: Vec<Group>)
    ensures
        r@ == filter_min(groups@, min),
{
    let mut out: Vec<Group> = Vec::new();
    let mut i: usize = 0;
    assert(groups@.subrange(0, 0) =~= Seq::<Group>::empty());
    while i < groups.len()
        invariant
            i <= groups@.len(),
            out@ == filter_min(groups@.subrange(0, i as int), min),
        decreases groups@.len() - i,
    {
        let ghost next = groups@.subrange(0, i + 1);
        proof {
            reveal(Seq::filter);
            assert(next.drop_last() =~= groups@.subrange(0, i as int));
        }
        let keep = match min {
            None => true,
            Some(m) => groups[i].stats.size >= m,
        };
        if keep {
            out.push(copy_group(&groups[i]));
        }
        i = i + 1;
    }
    assert(groups@.subrange(0, i as int) =~= groups@);
    out
}

/// Orders groups by size, largest first, and groups of equal size by key.
pub fn sort_by_size(groups: &Vec<Group>) -> (r: Vec<Group>)
    ensures
        ranked(r@),
        sorted_desc(r@),
        r@.to_multiset() == groups@.to_multiset(),
        r@.len() == groups@.len(),
{
    let mut out: Vec<Group> = Vec::new();
    let mut i: usize = 0;
    assert(groups@.subrange(0, 0) =~= Seq::<Group>::empty());
    while i < groups.len()
        invariant
            i <= groups@.len(),
            ranked(out@),
            out@.to_multiset() == groups@.subrange(0, i as int).to_multiset(),
            out@.len() == i,
        decreases groups@.len() - i,
    {
        let g = copy_group(&groups[i]);
        let mut pos: usize = 0;
        while pos < out.len() && !ranks_before_exec(&g, &out[pos])
            invariant
                pos <= out@.len(),
                forall|j: int| 0 <= j < pos ==> !ranks_before(g, #[trigger] out@[j]),
            decreases out@.len() - pos,
        {
            pos = pos + 1;
        }
        let ghost before = out@;
        proof {
            to_multiset_insert(before, pos as int, g);
            to_multiset_build(groups@.subrange(0, i as int), g);
            assert(groups@.subrange(0, i + 1) =~= groups@.subrange(0, i as int).push(g));
        }
        out.insert(pos, g);
        proof {
            assert forall|a: int, b: int| 0 <= a < b < out@.len() implies !ranks_before(
                out@[b],
                out@[a],
            ) by {
                if a < pos && b > pos {
                    assert(out@[a] == before[a]);
                    assert(out@[b] == before[b - 1]);
                } else if a < pos && b == pos {
                    assert(out@[a] == before[a]);
                } else if a == pos {
                    assert(out@[b] == before[b - 1]);
                    lemma_ranks_order(before[b - 1], g, before[pos as int]);
                } else if b < pos {
                    assert(out@[a] == before[a]);
                    assert(out@[b] == before[b]);
                } else {
                    assert(out@[a] == before[a - 1]);
                    assert(out@[b] == before[b - 1]);
                }
            }
        }
        i = i + 1;
    }
    assert(groups@.subrange(0, i as int) =~= groups@);
    assert forall|a: int, b: int| 0 <= a < b < out@.len() implies out@[a].stats.size
        >= out@[b].stats.size by {
        assert(!ranks_before(out@[b], out@[a]));
    }
    out
}

/// Selects the groups to report: those of size at least `min_size`, largest
/// first and equal sizes by key, at most `top` of them.
pub fn select_groups(groups: &Vec<Group>, min_size: Option<u64>, top: usize) -> (r: Vec<Group>)
    ensures
        r@.len() == min_len(top as int, filter_min(groups@, min_size).len() as int),
        sorted_desc(r@),
        ranked(r@),
        exists|s: Seq<Group>|
            s.to_multiset() == filter_min(groups@, min_size).to_multiset() && ranked(s)
                && r@ == s.take(r@.len() as int),
{
    let kept = filter_min_size(groups, min_size);
    let mut sorted = sort_by_size(&kept);
    let ghost full = sorted@;
    if top < sorted.len() {
        sorted.truncate(top);
    }
    assert(sorted@ =~= full.take(sorted@.len() as int));
    sorted
}

/// Filtering by a minimum size twice gives what filtering once gives.
pub proof fn lemma_filter_min_idempotent(gs: Seq<Group>, min: Option<u64>)
    ensures
        filter_min(filter_min(gs, min), min) == filter_min(gs, min),
    decreases gs.len(),
{
    reveal(Seq::filter);
    if gs.len() > 0 {
        let rest = gs.drop_last();
        lemma_filter_min_idempotent(rest, min);
        let f = filter_min(gs, min);
        if passes(gs.last(), min) {
            assert(f == filter_min(rest, min).push(gs.last()));
            assert(f.drop_last() =~= filter_min(rest, min));
        } else {
            assert(f == filter_min(rest, min));
        }
    } else {
        assert(filter_min(gs, min) =~= gs);
    }
}

} // verus!
