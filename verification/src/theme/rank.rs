//! The order in which the directories of a theme are tried when none of them
//! serves the requested size exactly.

use crate::theme::directories::{Directory, DirectoryType, DirectoryView};
use crate::theme::parse::views;
use vstd::prelude::*;
use vstd::string::StringSliceAdditionalSpecFns;

verus! {

/// A directory as the ranking sees it: its name, its distance from the
/// request without the sign, and whether it is scalable.
pub struct RankedView {
    pub name: Seq<u8>,
    pub gap: int,
    pub scalable: bool,
}

/// What a ranked directory is.
pub open spec fn ranked_view(entry: (&str, u64, bool)) -> RankedView {
    RankedView { name: entry.0.spec_bytes(), gap: entry.1 as int, scalable: entry.2 }
}

/// What each ranked directory of `list` is.
pub open spec fn ranked_views(list: Seq<(&str, u64, bool)>) -> Seq<RankedView> {
    list.map_values(|e: (&str, u64, bool)| ranked_view(e))
}

/// A directory as the ranking of a request for `size` at `scale` sees it.
pub open spec fn measured(d: DirectoryView, size: int, scale: int) -> RankedView {
    RankedView {
        name: d.name,
        gap: d.gap(size, scale),
        scalable: d.kind == DirectoryType::Scalable,
    }
}

impl RankedView {
    /// 0 for the kind of directory that the caller prefers at equal distance,
    /// 1 for the other: scalable ones are preferred with `prefer_svg`, the
    /// others without.
    pub open spec fn bias(self, prefer_svg: bool) -> int {
        if self.scalable == prefer_svg {
            0
        } else {
            1
        }
    }

    /// The number that directories are ranked by: the smaller distance
    /// first, and at equal distance the preferred kind.
    pub open spec fn key(self, prefer_svg: bool) -> int {
        2 * self.gap + self.bias(prefer_svg)
    }
}

/// `sorted` with `x` put behind every entry that does not rank after it.
pub open spec fn insert_ranked(sorted: Seq<RankedView>, x: RankedView, prefer_svg: bool) -> Seq<
    RankedView,
>
    decreases sorted.len(),
{
    if sorted.len() == 0 {
        seq![x]
    } else if sorted.last().key(prefer_svg) <= x.key(prefer_svg) {
        sorted.push(x)
    } else {
        insert_ranked(sorted.drop_last(), x, prefer_svg).push(sorted.last())
    }
}

/// `entries` by rank, entries of equal rank in the order they came in.
pub open spec fn sorted_by_rank(entries: Seq<RankedView>, prefer_svg: bool) -> Seq<RankedView>
    decreases entries.len(),
{
    if entries.len() == 0 {
        Seq::empty()
    } else {
        insert_ranked(sorted_by_rank(entries.drop_last(), prefer_svg), entries.last(), prefer_svg)
    }
}

/// Each directory as the ranking of a request sees it, in the given order.
pub open spec fn measured_all(dirs: Seq<DirectoryView>, size: int, scale: int) -> Seq<RankedView> {
    dirs.map_values(|d: DirectoryView| measured(d, size, scale))
}

/// The directories `dirs` in the order in which a request for `size` at
/// `scale` tries them: by distance, at equal distance the preferred kind
/// first, and else as the index declares them.
pub open spec fn ranked(dirs: Seq<DirectoryView>, size: int, scale: int, prefer_svg: bool) -> Seq<
    RankedView,
> {
    sorted_by_rank(measured_all(dirs, size, scale), prefer_svg)
}

/// Whether `list` is in rank order.
pub open spec fn in_rank_order(list: Seq<RankedView>, prefer_svg: bool) -> bool {
    forall|i: int, j: int|
        0 <= i < j < list.len() ==> (#[trigger] list[i]).key(prefer_svg) <= (
        #[trigger] list[j]).key(prefer_svg)
}

/// The entries of `list` whose rank is `key`, in order.
pub open spec fn of_rank(list: Seq<RankedView>, key: int, prefer_svg: bool) -> Seq<RankedView>
    decreases list.len(),
{
    if list.len() == 0 {
        Seq::empty()
    } else if list.last().key(prefer_svg) == key {
        of_rank(list.drop_last(), key, prefer_svg).push(list.last())
    } else {
        of_rank(list.drop_last(), key, prefer_svg)
    }
}

/// Inserting into `sorted` at `at` is `insert_ranked` where every entry from
/// `at` on ranks after `x` and the one before `at` does not.
proof fn lemma_insert_at(sorted: Seq<RankedView>, x: RankedView, prefer_svg: bool, at: int)
    requires
        0 <= at <= sorted.len(),
        forall|j: int| at <= j < sorted.len() ==> sorted[j].key(prefer_svg) > x.key(prefer_svg),
        at > 0 ==> sorted[at - 1].key(prefer_svg) <= x.key(prefer_svg),
    ensures
        insert_ranked(sorted, x, prefer_svg) == sorted.insert(at, x),
    decreases sorted.len(),
{
    if sorted.len() == 0 {
        assert(sorted.insert(0, x) =~= seq![x]);
    } else if at == sorted.len() {
        assert(sorted.insert(at, x) =~= sorted.push(x));
    } else {
        lemma_insert_at(sorted.drop_last(), x, prefer_svg, at);
        assert(sorted.drop_last().insert(at, x).push(sorted.last()) =~= sorted.insert(at, x));
    }
}

/// Inserting keeps the rank order.
proof fn lemma_insert_keeps_order(sorted: Seq<RankedView>, x: RankedView, prefer_svg: bool)
    requires
        in_rank_order(sorted, prefer_svg),
    ensures
        in_rank_order(insert_ranked(sorted, x, prefer_svg), prefer_svg),
        insert_ranked(sorted, x, prefer_svg).len() == sorted.len() + 1,
        forall|r: RankedView| #[trigger]
            insert_ranked(sorted, x, prefer_svg).contains(r) ==> r == x || sorted.contains(r),
    decreases sorted.len(),
{
    let out = insert_ranked(sorted, x, prefer_svg);
    if sorted.len() == 0 {
    } else if sorted.last().key(prefer_svg) <= x.key(prefer_svg) {
        assert forall|i: int, j: int| 0 <= i < j < out.len() implies out[i].key(prefer_svg)
            <= out[j].key(prefer_svg) by {
            if j == sorted.len() {
                assert(sorted[i].key(prefer_svg) <= sorted.last().key(prefer_svg));
            } else {
                assert(sorted[i].key(prefer_svg) <= sorted[j].key(prefer_svg));
            }
        }
        assert forall|r: RankedView| out.contains(r) implies r == x || sorted.contains(r) by {
            let i = choose|i: int| 0 <= i < out.len() && out[i] == r;
            if i < sorted.len() {
                assert(sorted[i] == r);
            }
        }
    } else {
        let front = sorted.drop_last();
        assert forall|i: int, j: int| 0 <= i < j < front.len() implies front[i].key(prefer_svg)
            <= front[j].key(prefer_svg) by {
            assert(sorted[i].key(prefer_svg) <= sorted[j].key(prefer_svg));
        }
        lemma_insert_keeps_order(front, x, prefer_svg);
        let inner = insert_ranked(front, x, prefer_svg);
        assert forall|i: int, j: int| 0 <= i < j < out.len() implies out[i].key(prefer_svg)
            <= out[j].key(prefer_svg) by {
            if j == inner.len() {
                assert(inner.contains(inner[i]));
                if inner[i] != x {
                    let k = choose|k: int| 0 <= k < front.len() && front[k] == inner[i];
                    assert(sorted[k].key(prefer_svg) <= sorted[sorted.len() - 1].key(prefer_svg));
                }
            } else {
                assert(inner[i].key(prefer_svg) <= inner[j].key(prefer_svg));
            }
        }
        assert forall|r: RankedView| out.contains(r) implies r == x || sorted.contains(r) by {
            let i = choose|i: int| 0 <= i < out.len() && out[i] == r;
            if i < inner.len() {
                assert(inner.contains(r));
                if r != x {
                    let k = choose|k: int| 0 <= k < front.len() && front[k] == r;
                    assert(sorted[k] == r);
                }
            } else {
                assert(sorted[sorted.len() - 1] == r);
            }
        }
    }
}

/// Inserting `x` adds it behind the entries of its own rank and leaves those
/// of every other rank as they were.
proof fn lemma_insert_of_rank(sorted: Seq<RankedView>, x: RankedView, prefer_svg: bool, key: int)
    ensures
        of_rank(insert_ranked(sorted, x, prefer_svg), key, prefer_svg) == if x.key(prefer_svg)
            == key {
            of_rank(sorted, key, prefer_svg).push(x)
        } else {
            of_rank(sorted, key, prefer_svg)
        },
    decreases sorted.len(),
{
    let out = insert_ranked(sorted, x, prefer_svg);
    if sorted.len() == 0 {
        assert(out.drop_last() =~= sorted);
        assert(out.last() == x);
    } else if sorted.last().key(prefer_svg) <= x.key(prefer_svg) {
        assert(out.drop_last() =~= sorted);
        assert(out.last() == x);
    } else {
        let inner = insert_ranked(sorted.drop_last(), x, prefer_svg);
        lemma_insert_of_rank(sorted.drop_last(), x, prefer_svg, key);
        assert(out.drop_last() =~= inner);
        assert(out.last() == sorted.last());
    }
}

/// The ranking is in rank order: no directory comes before one that is
/// closer to the request, nor, at equal distance, before one of the kind
/// that the caller prefers.
pub proof fn lemma_ranked_order(entries: Seq<RankedView>, prefer_svg: bool)
    ensures
        in_rank_order(sorted_by_rank(entries, prefer_svg), prefer_svg),
        sorted_by_rank(entries, prefer_svg).len() == entries.len(),
    decreases entries.len(),
{
    if entries.len() > 0 {
        lemma_ranked_order(entries.drop_last(), prefer_svg);
        lemma_insert_keeps_order(
            sorted_by_rank(entries.drop_last(), prefer_svg),
            entries.last(),
            prefer_svg,
        );
    }
}

/// The ranking is stable: it holds the entries of any one rank in the order
/// in which they came in.
pub proof fn lemma_ranked_stable(entries: Seq<RankedView>, prefer_svg: bool, key: int)
    ensures
        of_rank(sorted_by_rank(entries, prefer_svg), key, prefer_svg) == of_rank(
            entries,
            key,
            prefer_svg,
        ),
    decreases entries.len(),
{
    if entries.len() > 0 {
        lemma_ranked_stable(entries.drop_last(), prefer_svg, key);
        lemma_insert_of_rank(
            sorted_by_rank(entries.drop_last(), prefer_svg),
            entries.last(),
            prefer_svg,
            key,
        );
    }
}

/// At equal distance the ranking puts the kind of directory that the caller
/// prefers first: with `prefer_svg` no scalable directory comes after a
/// directory of another kind that is as far from the request, and without
/// it none comes before one.
pub proof fn lemma_ranked_preference(
    dirs: Seq<DirectoryView>,
    size: int,
    scale: int,
    prefer_svg: bool,
    i: int,
    j: int,
)
    requires
        0 <= i < j < ranked(dirs, size, scale, prefer_svg).len(),
    ensures
        ({
            let list = ranked(dirs, size, scale, prefer_svg);
            &&& list[i].gap <= list[j].gap
            &&& list[i].gap == list[j].gap ==> list[i].scalable == prefer_svg || list[j].scalable
                != prefer_svg
        }),
{
    let list = ranked(dirs, size, scale, prefer_svg);
    lemma_ranked_order(measured_all(dirs, size, scale), prefer_svg);
    assert(list[i].key(prefer_svg) <= list[j].key(prefer_svg));
}

/// Ranks the directories of an index for a request.
pub fn rank_directories<'a>(
    dirs: &Vec<Directory<'a>>,
    size: u16,
    scale: u16,
    prefer_svg: bool,
) -> (list: Vec<(&'a str, u64, bool)>)
    ensures
        ranked_views(list@) == ranked(views(dirs@), size as int, scale as int, prefer_svg),
{
    let mut list: Vec<(&'a str, u64, bool)> = Vec::new();
    let mut i: usize = 0;
    let ghost all = measured_all(views(dirs@), size as int, scale as int);
    assert(all.take(0) =~= Seq::empty());
    assert(ranked_views(list@) =~= Seq::empty());
    while i < dirs.len()
        invariant
            i <= dirs@.len(),
            all == measured_all(views(dirs@), size as int, scale as int),
            ranked_views(list@) == sorted_by_rank(all.take(i as int), prefer_svg),
            list@.len() == i,
            forall|k: int| 0 <= k < list@.len() ==> (#[trigger] list@[k]).1 <= 0x2_0000_0000,
        decreases dirs@.len() - i,
    {
        let dir = &dirs[i];
        let scalable: bool = match dir.type_ {
            DirectoryType::Scalable => true,
            _ => false,
        };
        let entry = (dir.name, dir.size_gap(size, scale), scalable);
        let rank: u64 = rank_of(&entry, prefer_svg);
        let mut at: usize = list.len();
        while at > 0 && rank_of(&list[at - 1], prefer_svg) > rank
            invariant
                at <= list@.len(),
                rank == ranked_view(entry).key(prefer_svg),
                forall|k: int| 0 <= k < list@.len() ==> (#[trigger] list@[k]).1 <= 0x2_0000_0000,
                forall|k: int|
                    at <= k < list@.len() ==> ranked_views(list@)[k].key(prefer_svg) > rank,
            decreases at,
        {
            at -= 1;
        }
        proof {
            let upto = all.take(i + 1);
            assert(upto.drop_last() =~= all.take(i as int));
            assert(upto.last() == ranked_view(entry));
            lemma_insert_at(ranked_views(list@), ranked_view(entry), prefer_svg, at as int);
        }
        let ghost before = list@;
        list.insert(at, entry);
        assert(ranked_views(list@) =~= ranked_views(before).insert(at as int, ranked_view(entry)));
        i += 1;
    }
    assert(all.take(i as int) =~= all);
    list
}

/// The number that a ranked directory is ranked by.
fn rank_of(entry: &(&str, u64, bool), prefer_svg: bool) -> (rank: u64)
    requires
        entry.1 <= 0x2_0000_0000,
    ensures
        rank == ranked_view(*entry).key(prefer_svg),
{
    if entry.2 == prefer_svg {
        2 * entry.1
    } else {
        2 * entry.1 + 1
    }
}

} // verus!
