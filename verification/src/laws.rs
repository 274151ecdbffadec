//! What holds of every lookup, proved from the definitions that the
//! contracts of the lookup functions use.

use crate::bytes::lemma_first_index;
use crate::cache::{fresh, CachedView, GRACE_MS};
use crate::disk::DiskView;
use crate::search::{
    declared_parents, distinct, explore, extends, fallback_themes, lemma_explore_extends,
    lemma_extends_trans, lemma_hicolor_once, lemma_search_order_distinct, lemma_unset_update,
    lemma_visit_names_extends, none_done, search_order, unset, visit, visit_names, QueryView,
};
use crate::theme::parse::hicolor;
use crate::theme::registry::RegistryView;
use crate::theme::{first_hit, lemma_first_hit, lemma_first_hit_append, ThemeView};
use vstd::prelude::*;

verus! {

/// What a lookup finds exists, and is the first of its candidates that
/// does. It finds nothing only where none of them exists.
pub proof fn lemma_found_is_first_candidate(
    q: QueryView,
    reg: RegistryView,
    bases: Seq<Seq<u8>>,
    disk: DiskView,
)
    requires
        q.name.len() > 0,
        q.active(reg) is Some,
    ensures
        match q.resolve(reg, bases, disk) {
            Some(path) => exists|i: int|
                0 <= i < q.candidates(reg, bases, disk).len() && q.candidates(reg, bases, disk)[i]
                    == path && disk.has(path) && forall|j: int|
                    0 <= j < i ==> !disk.has(#[trigger] q.candidates(reg, bases, disk)[j]),
            None => forall|j: int|
                0 <= j < q.candidates(reg, bases, disk).len() ==> !disk.has(
                    #[trigger] q.candidates(reg, bases, disk)[j],
                ),
        },
{
    lemma_first_hit(disk, q.candidates(reg, bases, disk));
}

/// An exact match beats every closest match. Where a theme that the lookup
/// goes through holds the icon in a directory that serves the requested
/// size exactly, the lookup returns such a file, the first in its order,
/// whatever files of other sizes there are.
pub proof fn lemma_exact_match_preferred(
    q: QueryView,
    reg: RegistryView,
    bases: Seq<Seq<u8>>,
    disk: DiskView,
    at: int,
)
    requires
        q.name.len() > 0,
        q.active(reg) is Some,
        0 <= at < q.exact_all(disk, q.order(reg, disk)).len(),
        disk.has(q.exact_all(disk, q.order(reg, disk))[at]),
    ensures
        q.resolve(reg, bases, disk) is Some,
        q.exact_all(disk, q.order(reg, disk)).contains(q.resolve(reg, bases, disk)->0),
        q.resolve(reg, bases, disk) == first_hit(disk, q.exact_all(disk, q.order(reg, disk))),
{
    let order = q.order(reg, disk);
    let exact = q.exact_all(disk, order);
    let closest = q.closest_all(disk, order);
    lemma_first_hit(disk, exact);
    lemma_first_hit_append(disk, exact, closest);
    lemma_first_hit_append(disk, exact + closest, q.loose(bases));
    lemma_first_hit_append(disk, exact + closest + q.loose(bases), q.beside());
}

/// No theme is searched twice in one lookup: the themes that it goes
/// through lie in directories that differ, also where themes inherit from
/// each other in a circle.
pub proof fn lemma_no_theme_twice(q: QueryView, reg: RegistryView, disk: DiskView)
    ensures
        distinct(q.order(reg, disk)),
{
    lemma_search_order_distinct(reg, disk, q.active(reg)->0, fallback_themes());
}

/// The search goes by breadth: it starts with the installations of the
/// theme it was asked for, and goes on with the themes that these name as
/// parents, in the order in which they are named, before any theme that
/// only the parents name.
pub proof fn lemma_parents_first(q: QueryView, reg: RegistryView, disk: DiskView)
    requires
        q.active(reg) is Some,
    ensures
        extends(
            visit_names(
                reg,
                visit(Seq::empty(), reg.themes(q.active(reg)->0)),
                declared_parents(disk, reg.themes(q.active(reg)->0)),
            ),
            q.order(reg, disk),
        ),
{
    let theme = q.active(reg)->0;
    let own = visit(Seq::empty(), reg.themes(theme));
    let done = none_done(reg.entries.len());
    let at = reg.slot(theme);
    lemma_first_index(reg.names(), theme);
    let named = declared_parents(disk, reg.entries[at].themes);
    let first = visit_names(reg, own, named);
    let queue = seq![theme];
    assert(queue.drop_first() + named =~= named);
    let inherited = explore(reg, disk, queue, done, own);
    assert(inherited == explore(reg, disk, named, done.update(at, true), first));
    lemma_explore_extends(reg, disk, named, done.update(at, true), first);
    lemma_visit_names_extends(reg, inherited, fallback_themes());
    lemma_extends_trans(first, inherited, q.order(reg, disk));
}

/// Every lookup that has a theme to start from goes through each
/// installation of `hicolor` once, and only once, whether or not a theme
/// names `hicolor` as a parent.
pub proof fn lemma_hicolor_searched_once(q: QueryView, reg: RegistryView, disk: DiskView, i: int)
    requires
        0 <= i < reg.themes(hicolor()).len(),
    ensures
        exists|k: int|
            0 <= k < q.order(reg, disk).len() && (#[trigger] q.order(reg, disk)[k]).path
                == reg.themes(hicolor())[i].path && forall|m: int|
                0 <= m < q.order(reg, disk).len() && m != k ==> (#[trigger] q.order(
                    reg,
                    disk,
                )[m]).path != reg.themes(hicolor())[i].path,
{
    assert(fallback_themes()[1] == hicolor());
    let theme = q.active(reg)->0;
    lemma_hicolor_once(reg, disk, theme, fallback_themes(), i);
    let order = search_order(reg, disk, theme, fallback_themes());
    let path = reg.themes(hicolor())[i].path;
    let k = choose|k: int|
        0 <= k < order.len() && (#[trigger] order[k]).path == path && forall|m: int|
            0 <= m < order.len() && m != k ==> (#[trigger] order[m]).path != path;
    assert(q.order(reg, disk)[k].path == path);
}

/// A lookup with the cache that is repeated returns what it returned the
/// first time, on the same themes and disk.
///
/// One case is left out: a miss that the cache held before the first
/// lookup, that still counted then and no longer counts at the second,
/// while the disk holds the icon.
pub proof fn lemma_repeated_lookup(
    q: QueryView,
    reg: RegistryView,
    bases: Seq<Seq<u8>>,
    disk: DiskView,
    cached: CachedView,
    first: u64,
    second: u64,
)
    requires
        q.cache,
        !(cached matches CachedView::NotFound(recorded) && fresh(recorded, first) && !fresh(
            recorded,
            second,
        ) && q.resolve(reg, bases, disk) is Some),
    ensures
        q.answer(reg, bases, disk, q.leaves(reg, bases, disk, cached, first), second) == q.answer(
            reg,
            bases,
            disk,
            cached,
            first,
        ),
{
}

/// Of two lookups with the cache, one after the other, at most one searches
/// the disk: where the first one did, the cache answers the second, with
/// what the first one found, whatever the disk holds by then.
///
/// One case is left out: a first lookup that found nothing, repeated when
/// its miss no longer counts.
pub proof fn lemma_repeated_lookup_reads_cache(
    q: QueryView,
    reg: RegistryView,
    bases: Seq<Seq<u8>>,
    disk: DiskView,
    later: DiskView,
    cached: CachedView,
    first: u64,
    second: u64,
)
    requires
        q.cache,
        q.name.len() > 0,
        q.active(reg) is Some,
        !q.answered_by(cached, first),
        q.answer(reg, bases, disk, cached, first) is Some || fresh(first, second),
    ensures
        q.answered_by(q.leaves(reg, bases, disk, cached, first), second),
        q.answer(reg, bases, later, q.leaves(reg, bases, disk, cached, first), second) == q.answer(
            reg,
            bases,
            disk,
            cached,
            first,
        ),
{
}

/// A miss in the cache counts for `GRACE_MS` milliseconds: a lookup with
/// the cache that is made before they have passed finds nothing, whatever
/// the disk holds, and one that is made later searches the disk.
pub proof fn lemma_miss_expires(
    q: QueryView,
    reg: RegistryView,
    bases: Seq<Seq<u8>>,
    disk: DiskView,
    recorded: u64,
    now: u64,
)
    requires
        q.cache,
        q.name.len() > 0,
        recorded <= now,
    ensures
        now - recorded < GRACE_MS ==> q.answer(
            reg,
            bases,
            disk,
            CachedView::NotFound(recorded),
            now,
        ) is None,
        now - recorded >= GRACE_MS ==> q.answer(
            reg,
            bases,
            disk,
            CachedView::NotFound(recorded),
            now,
        ) == q.resolve(reg, bases, disk),
{
}

/// Once the misses are forgotten, a lookup that the cache held a miss for
/// searches the disk again, however new the miss was. What `reset_none`
/// leaves of an entry is `without_miss`.
pub proof fn lemma_forgotten_miss_is_searched(
    q: QueryView,
    reg: RegistryView,
    bases: Seq<Seq<u8>>,
    disk: DiskView,
    recorded: u64,
    now: u64,
)
    requires
        q.name.len() > 0,
    ensures
        q.answer(reg, bases, disk, CachedView::NotFound(recorded).without_miss(), now)
            == q.resolve(reg, bases, disk),
{
}

/// Once the cache is cleared, every lookup searches the disk again,
/// whatever the cache held for it. What `clear` leaves of an entry is
/// `Unknown`.
pub proof fn lemma_cleared_entry_is_searched(
    q: QueryView,
    reg: RegistryView,
    bases: Seq<Seq<u8>>,
    disk: DiskView,
    now: u64,
)
    requires
        q.name.len() > 0,
    ensures
        q.answer(reg, bases, disk, CachedView::Unknown, now) == q.resolve(reg, bases, disk),
{
}

/// Whether two disks hold the same in every file that can be read.
pub open spec fn same_reads(a: DiskView, b: DiskView) -> bool {
    forall|path: Seq<u8>| a.read(path) == b.read(path)
}

/// Whether two disks agree on which of `files` exist.
pub open spec fn same_files(a: DiskView, b: DiskView, files: Seq<Seq<u8>>) -> bool {
    forall|i: int| 0 <= i < files.len() ==> a.has(#[trigger] files[i]) == b.has(files[i])
}

/// The files that a lookup tries depend on the disk only through what the
/// index files hold.
pub proof fn lemma_candidates_from_indexes(
    q: QueryView,
    reg: RegistryView,
    bases: Seq<Seq<u8>>,
    a: DiskView,
    b: DiskView,
)
    requires
        same_reads(a, b),
    ensures
        q.order(reg, a) == q.order(reg, b),
        q.candidates(reg, bases, a) == q.candidates(reg, bases, b),
{
    let theme = q.active(reg)->0;
    let own = visit(Seq::empty(), reg.themes(theme));
    lemma_explore_from_indexes(reg, a, b, seq![theme], none_done(reg.entries.len()), own);
    let order = q.order(reg, a);
    lemma_matches_from_indexes(q, a, b, order);
}

/// A lookup gives the same answer on two disks that hold the same in the
/// index files and agree on which of the files that the lookup tries
/// exist: nothing else on a disk matters to it.
pub proof fn lemma_lookup_reads_its_candidates(
    q: QueryView,
    reg: RegistryView,
    bases: Seq<Seq<u8>>,
    a: DiskView,
    b: DiskView,
)
    requires
        same_reads(a, b),
        same_files(a, b, q.candidates(reg, bases, a)),
    ensures
        q.resolve(reg, bases, a) == q.resolve(reg, bases, b),
{
    lemma_candidates_from_indexes(q, reg, bases, a, b);
    lemma_first_hit_same_files(a, b, q.candidates(reg, bases, a));
}

/// The first of `files` that exists is the same on two disks that agree on
/// which of them exist.
pub proof fn lemma_first_hit_same_files(a: DiskView, b: DiskView, files: Seq<Seq<u8>>)
    requires
        same_files(a, b, files),
    ensures
        first_hit(a, files) == first_hit(b, files),
    decreases files.len(),
{
    if files.len() > 0 {
        assert(a.has(files[0]) == b.has(files[0]));
        assert forall|i: int| 0 <= i < files.drop_first().len() implies a.has(
            #[trigger] files.drop_first()[i],
        ) == b.has(files.drop_first()[i]) by {
            assert(files.drop_first()[i] == files[i + 1]);
        }
        lemma_first_hit_same_files(a, b, files.drop_first());
    }
}

/// The parents that themes name depend on the disk only through what the
/// index files hold.
proof fn lemma_parents_from_indexes(a: DiskView, b: DiskView, themes: Seq<ThemeView>)
    requires
        same_reads(a, b),
    ensures
        declared_parents(a, themes) == declared_parents(b, themes),
    decreases themes.len(),
{
    if themes.len() > 0 {
        lemma_parents_from_indexes(a, b, themes.drop_first());
    }
}

/// The search through the parents depends on the disk only through what
/// the index files hold.
proof fn lemma_explore_from_indexes(
    reg: RegistryView,
    a: DiskView,
    b: DiskView,
    queue: Seq<Seq<u8>>,
    done: Seq<bool>,
    order: Seq<ThemeView>,
)
    requires
        same_reads(a, b),
    ensures
        explore(reg, a, queue, done, order) == explore(reg, b, queue, done, order),
    decreases unset(done), queue.len(),
{
    if queue.len() > 0 && done.len() == reg.entries.len() {
        let at = reg.slot(queue[0]);
        if !(0 <= at < reg.entries.len()) || done[at] {
            lemma_explore_from_indexes(reg, a, b, queue.drop_first(), done, order);
        } else {
            let named = declared_parents(a, reg.entries[at].themes);
            lemma_parents_from_indexes(a, b, reg.entries[at].themes);
            lemma_unset_update(done, at);
            lemma_explore_from_indexes(
                reg,
                a,
                b,
                queue.drop_first() + named,
                done.update(at, true),
                visit_names(reg, order, named),
            );
        }
    }
}

/// The exact and the closest matches of themes depend on the disk only
/// through what the index files hold.
proof fn lemma_matches_from_indexes(q: QueryView, a: DiskView, b: DiskView, order: Seq<ThemeView>)
    requires
        same_reads(a, b),
    ensures
        q.exact_all(a, order) == q.exact_all(b, order),
        q.closest_all(a, order) == q.closest_all(b, order),
    decreases order.len(),
{
    if order.len() > 0 {
        lemma_matches_from_indexes(q, a, b, order.drop_first());
    }
}

} // verus!
