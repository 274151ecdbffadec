//! The order in which a lookup goes through the installed themes.
//!
//! The search starts with the installations of the requested theme, goes on
//! through the themes that it inherits from, level by level, and ends with a
//! fixed list of fallback themes. No installation is searched twice and no
//! theme has its parents looked up twice, so cycles among the themes end
//! the search instead of trapping it.

use crate::bytes::{join, last_index, DOT, SLASH};
use crate::cache::{fresh, CachedView, KeyView};
use crate::disk::DiskView;
use crate::theme::parse::{hicolor, parents};
use crate::theme::registry::RegistryView;
use crate::theme::{
    directory_candidates, extensions, first_hit, lemma_first_hit_append, ThemeView,
};
use vstd::prelude::*;
use vstd::string::StringSliceAdditionalSpecFns;

verus! {

/// The directories of the themes in `order`.
pub open spec fn searched_paths(order: Seq<ThemeView>) -> Seq<Seq<u8>> {
    order.map_values(|t: ThemeView| t.path)
}

/// Whether `b` is `a` with more themes behind it, or `a` itself.
pub open spec fn extends(a: Seq<ThemeView>, b: Seq<ThemeView>) -> bool {
    a.len() <= b.len() && b.take(a.len() as int) == a
}

/// Whether no two themes of `order` have the same directory.
pub open spec fn distinct(order: Seq<ThemeView>) -> bool {
    forall|i: int, j: int|
        0 <= i < j < order.len() ==> (#[trigger] order[i]).path != (#[trigger] order[j]).path
}

/// `order` after a visit to `theme`: the theme is added, unless one with its
/// directory has been searched already.
pub open spec fn visit_one(order: Seq<ThemeView>, theme: ThemeView) -> Seq<ThemeView> {
    if searched_paths(order).contains(theme.path) {
        order
    } else {
        order.push(theme)
    }
}

/// `order` after a visit to each of `themes`, in their order.
pub open spec fn visit(order: Seq<ThemeView>, themes: Seq<ThemeView>) -> Seq<ThemeView>
    decreases themes.len(),
{
    if themes.len() == 0 {
        order
    } else {
        visit(visit_one(order, themes[0]), themes.drop_first())
    }
}

/// `order` after a visit to the installations of each theme that `names`
/// names, in their order. A name that no installed theme has adds nothing.
pub open spec fn visit_names(reg: RegistryView, order: Seq<ThemeView>, names: Seq<Seq<u8>>) -> Seq<
    ThemeView,
>
    decreases names.len(),
{
    if names.len() == 0 {
        order
    } else {
        visit_names(reg, visit(order, reg.themes(names[0])), names.drop_first())
    }
}

/// The parents that the index of `theme` names; none where it cannot be read.
pub open spec fn theme_parents(disk: DiskView, theme: ThemeView) -> Seq<Seq<u8>> {
    match disk.read(theme.index) {
        Some(file) => parents(file),
        None => Seq::empty(),
    }
}

/// The parents that the indexes of `themes` name, theme after theme.
pub open spec fn declared_parents(disk: DiskView, themes: Seq<ThemeView>) -> Seq<Seq<u8>>
    decreases themes.len(),
{
    if themes.len() == 0 {
        Seq::empty()
    } else {
        theme_parents(disk, themes[0]) + declared_parents(disk, themes.drop_first())
    }
}

/// How many of `flags` are not set.
pub open spec fn unset(flags: Seq<bool>) -> nat
    decreases flags.len(),
{
    if flags.len() == 0 {
        0
    } else if flags.last() {
        unset(flags.drop_last())
    } else {
        unset(flags.drop_last()) + 1
    }
}

/// Setting a flag that is not set leaves one fewer unset.
pub proof fn lemma_unset_update(flags: Seq<bool>, at: int)
    requires
        0 <= at < flags.len(),
        !flags[at],
    ensures
        unset(flags.update(at, true)) + 1 == unset(flags),
    decreases flags.len(),
{
    let after = flags.update(at, true);
    if at == flags.len() - 1 {
        assert(after.drop_last() =~= flags.drop_last());
    } else {
        assert(after.drop_last() =~= flags.drop_last().update(at, true));
        lemma_unset_update(flags.drop_last(), at);
    }
}

/// `order` once the themes named in `queue`, and the themes that these
/// inherit from, and so on, have had their parents searched.
///
/// The queue is worked through from the front. A name that no installed
/// theme has is passed over, and so is a theme marked in `done`. Any other
/// theme is marked, the themes that its installations name as parents are
/// visited in the order in which they are named, and their names join the
/// queue at the end. So the parents of a theme are searched before the
/// parents of its parents.
pub open spec fn explore(
    reg: RegistryView,
    disk: DiskView,
    queue: Seq<Seq<u8>>,
    done: Seq<bool>,
    order: Seq<ThemeView>,
) -> Seq<ThemeView>
    decreases unset(done), queue.len(),
    via explore_decreases
{
    if queue.len() == 0 || done.len() != reg.entries.len() {
        order
    } else {
        let at = reg.slot(queue[0]);
        if !(0 <= at < reg.entries.len()) || done[at] {
            explore(reg, disk, queue.drop_first(), done, order)
        } else {
            let named = declared_parents(disk, reg.entries[at].themes);
            explore(
                reg,
                disk,
                queue.drop_first() + named,
                done.update(at, true),
                visit_names(reg, order, named),
            )
        }
    }
}

/// Marking a theme that was not marked leaves fewer themes unmarked, so
/// the search through the parents ends.
#[via_fn]
proof fn explore_decreases(
    reg: RegistryView,
    disk: DiskView,
    queue: Seq<Seq<u8>>,
    done: Seq<bool>,
    order: Seq<ThemeView>,
) {
    if queue.len() > 0 && done.len() == reg.entries.len() {
        let at = reg.slot(queue[0]);
        if 0 <= at < reg.entries.len() && !done[at] {
            lemma_unset_update(done, at);
        }
    }
}

/// `n` flags, none of them set.
pub open spec fn none_done(n: nat) -> Seq<bool> {
    Seq::new(n, |i: int| false)
}

/// The themes that a lookup in `theme` goes through, in its order: the
/// installations of `theme`, then what `theme` inherits from, then the
/// themes that `fallbacks` names.
pub open spec fn search_order(
    reg: RegistryView,
    disk: DiskView,
    theme: Seq<u8>,
    fallbacks: Seq<Seq<u8>>,
) -> Seq<ThemeView> {
    let own = visit(Seq::empty(), reg.themes(theme));
    let inherited = explore(reg, disk, seq![theme], none_done(reg.entries.len()), own);
    visit_names(reg, inherited, fallbacks)
}

/// The themes that every lookup tries after the requested theme and what it
/// inherits from: `Cosmic`, `hicolor`, `gnome`, `Yaru`.
pub open spec fn fallback_themes() -> Seq<Seq<u8>> {
    seq!["Cosmic".spec_bytes(), hicolor(), "gnome".spec_bytes(), "Yaru".spec_bytes()]
}

/// A visit keeps what was searched, in its order.
pub proof fn lemma_visit_extends(order: Seq<ThemeView>, themes: Seq<ThemeView>)
    ensures
        extends(order, visit(order, themes)),
    decreases themes.len(),
{
    if themes.len() > 0 {
        let next = visit_one(order, themes[0]);
        lemma_visit_extends(next, themes.drop_first());
        let end = visit(next, themes.drop_first());
        assert(end.take(order.len() as int) =~= end.take(next.len() as int).take(
            order.len() as int,
        ));
        assert(next.take(order.len() as int) =~= order);
    } else {
        assert(order.take(order.len() as int) =~= order);
    }
}

/// Going on from what was searched keeps it: `extends` is transitive.
pub proof fn lemma_extends_trans(a: Seq<ThemeView>, b: Seq<ThemeView>, c: Seq<ThemeView>)
    requires
        extends(a, b),
        extends(b, c),
    ensures
        extends(a, c),
        c.skip(a.len() as int) == b.skip(a.len() as int) + c.skip(b.len() as int),
{
    assert(c.take(a.len() as int) =~= c.take(b.len() as int).take(a.len() as int));
    assert(c.skip(a.len() as int) =~= b.skip(a.len() as int) + c.skip(b.len() as int)) by {
        let left = c.skip(a.len() as int);
        let right = b.skip(a.len() as int) + c.skip(b.len() as int);
        assert(left.len() == right.len());
        assert forall|i: int| 0 <= i < left.len() implies left[i] == right[i] by {
            if i < b.len() - a.len() {
                assert(c.take(b.len() as int)[i + a.len()] == b[i + a.len()]);
            }
        }
    }
}

/// A visit by names keeps what was searched, in its order.
pub proof fn lemma_visit_names_extends(
    reg: RegistryView,
    order: Seq<ThemeView>,
    names: Seq<Seq<u8>>,
)
    ensures
        extends(order, visit_names(reg, order, names)),
    decreases names.len(),
{
    if names.len() > 0 {
        let next = visit(order, reg.themes(names[0]));
        lemma_visit_extends(order, reg.themes(names[0]));
        lemma_visit_names_extends(reg, next, names.drop_first());
        lemma_extends_trans(order, next, visit_names(reg, next, names.drop_first()));
    } else {
        assert(order.take(order.len() as int) =~= order);
    }
}

/// The search through the parents keeps what was searched, in its order.
pub proof fn lemma_explore_extends(
    reg: RegistryView,
    disk: DiskView,
    queue: Seq<Seq<u8>>,
    done: Seq<bool>,
    order: Seq<ThemeView>,
)
    ensures
        extends(order, explore(reg, disk, queue, done, order)),
    decreases unset(done), queue.len(),
{
    if queue.len() == 0 || done.len() != reg.entries.len() {
        assert(order.take(order.len() as int) =~= order);
    } else {
        let at = reg.slot(queue[0]);
        if !(0 <= at < reg.entries.len()) || done[at] {
            lemma_explore_extends(reg, disk, queue.drop_first(), done, order);
        } else {
            let named = declared_parents(disk, reg.entries[at].themes);
            let next = visit_names(reg, order, named);
            lemma_unset_update(done, at);
            lemma_visit_names_extends(reg, order, named);
            lemma_explore_extends(
                reg,
                disk,
                queue.drop_first() + named,
                done.update(at, true),
                next,
            );
            lemma_extends_trans(
                order,
                next,
                explore(reg, disk, queue.drop_first() + named, done.update(at, true), next),
            );
        }
    }
}

/// A visit to a theme keeps the directories apart.
pub proof fn lemma_visit_one_distinct(order: Seq<ThemeView>, theme: ThemeView)
    requires
        distinct(order),
    ensures
        distinct(visit_one(order, theme)),
        searched_paths(visit_one(order, theme)).contains(theme.path),
{
    let after = visit_one(order, theme);
    if !searched_paths(order).contains(theme.path) {
        assert forall|i: int, j: int| 0 <= i < j < after.len() implies (#[trigger] after[i]).path
            != (#[trigger] after[j]).path by {
            if j == order.len() {
                assert(searched_paths(order)[i] == order[i].path);
            } else {
                assert(order[i].path != order[j].path);
            }
        }
        assert(searched_paths(after)[order.len() as int] == theme.path);
    }
}

/// Visits keep the directories apart, and reach the directory of each theme
/// they go to.
pub proof fn lemma_visit_distinct(order: Seq<ThemeView>, themes: Seq<ThemeView>)
    requires
        distinct(order),
    ensures
        distinct(visit(order, themes)),
        forall|i: int|
            0 <= i < themes.len() ==> searched_paths(visit(order, themes)).contains(
                (#[trigger] themes[i]).path,
            ),
        forall|p: Seq<u8>|
            searched_paths(order).contains(p) ==> #[trigger] searched_paths(
                visit(order, themes),
            ).contains(p),
    decreases themes.len(),
{
    if themes.len() > 0 {
        let next = visit_one(order, themes[0]);
        let rest = themes.drop_first();
        lemma_visit_one_distinct(order, themes[0]);
        lemma_visit_distinct(next, rest);
        let end = visit(next, rest);
        assert forall|p: Seq<u8>| searched_paths(order).contains(p) implies #[trigger]
            searched_paths(end).contains(p) by {
            let i = choose|i: int| 0 <= i < order.len() && searched_paths(order)[i] == p;
            assert(searched_paths(next)[i] == p);
            assert(searched_paths(next).contains(p));
        }
        assert forall|i: int| 0 <= i < themes.len() implies searched_paths(end).contains(
            (#[trigger] themes[i]).path,
        ) by {
            if i > 0 {
                assert(rest[i - 1] == themes[i]);
            }
        }
    }
}

/// A visit by names keeps the directories apart, and reaches every
/// installation of every theme that is named.
pub proof fn lemma_visit_names_distinct(
    reg: RegistryView,
    order: Seq<ThemeView>,
    names: Seq<Seq<u8>>,
)
    requires
        distinct(order),
    ensures
        distinct(visit_names(reg, order, names)),
        forall|n: int, i: int|
            0 <= n < names.len() && 0 <= i < reg.themes(names[n]).len() ==> searched_paths(
                visit_names(reg, order, names),
            ).contains((#[trigger] reg.themes(names[n])[i]).path),
        forall|p: Seq<u8>|
            searched_paths(order).contains(p) ==> #[trigger] searched_paths(
                visit_names(reg, order, names),
            ).contains(p),
    decreases names.len(),
{
    if names.len() > 0 {
        let next = visit(order, reg.themes(names[0]));
        let rest = names.drop_first();
        lemma_visit_distinct(order, reg.themes(names[0]));
        lemma_visit_names_distinct(reg, next, rest);
        let end = visit_names(reg, next, rest);
        assert forall|n: int, i: int|
            0 <= n < names.len() && 0 <= i < reg.themes(names[n]).len() implies searched_paths(
            end,
        ).contains((#[trigger] reg.themes(names[n])[i]).path) by {
            if n > 0 {
                assert(rest[n - 1] == names[n]);
            } else {
                assert(searched_paths(next).contains(reg.themes(names[0])[i].path));
            }
        }
    }
}

/// The search through the parents keeps the directories apart.
pub proof fn lemma_explore_distinct(
    reg: RegistryView,
    disk: DiskView,
    queue: Seq<Seq<u8>>,
    done: Seq<bool>,
    order: Seq<ThemeView>,
)
    requires
        distinct(order),
    ensures
        distinct(explore(reg, disk, queue, done, order)),
    decreases unset(done), queue.len(),
{
    if queue.len() > 0 && done.len() == reg.entries.len() {
        let at = reg.slot(queue[0]);
        if !(0 <= at < reg.entries.len()) || done[at] {
            lemma_explore_distinct(reg, disk, queue.drop_first(), done, order);
        } else {
            let named = declared_parents(disk, reg.entries[at].themes);
            lemma_unset_update(done, at);
            lemma_visit_names_distinct(reg, order, named);
            lemma_explore_distinct(
                reg,
                disk,
                queue.drop_first() + named,
                done.update(at, true),
                visit_names(reg, order, named),
            );
        }
    }
}

/// No theme is searched twice: the themes that a lookup goes through lie in
/// directories that differ, whatever the themes inherit from, and be it
/// from each other.
pub proof fn lemma_search_order_distinct(
    reg: RegistryView,
    disk: DiskView,
    theme: Seq<u8>,
    fallbacks: Seq<Seq<u8>>,
)
    ensures
        distinct(search_order(reg, disk, theme, fallbacks)),
{
    let own = visit(Seq::empty(), reg.themes(theme));
    lemma_visit_distinct(Seq::empty(), reg.themes(theme));
    let inherited = explore(reg, disk, seq![theme], none_done(reg.entries.len()), own);
    lemma_explore_distinct(reg, disk, seq![theme], none_done(reg.entries.len()), own);
    lemma_visit_names_distinct(reg, inherited, fallbacks);
}

/// Every lookup goes through each installation of `hicolor` once, and only
/// once, whether or not a theme names it as a parent: each of its
/// directories stands in the search order at exactly one place.
pub proof fn lemma_hicolor_once(
    reg: RegistryView,
    disk: DiskView,
    theme: Seq<u8>,
    fallbacks: Seq<Seq<u8>>,
    i: int,
)
    requires
        fallbacks.contains(hicolor()),
        0 <= i < reg.themes(hicolor()).len(),
    ensures
        exists|k: int|
            0 <= k < search_order(reg, disk, theme, fallbacks).len() && (#[trigger] search_order(
                reg,
                disk,
                theme,
                fallbacks,
            )[k]).path == reg.themes(hicolor())[i].path && forall|m: int|
                0 <= m < search_order(reg, disk, theme, fallbacks).len() && m != k ==> (
                #[trigger] search_order(reg, disk, theme, fallbacks)[m]).path != reg.themes(
                    hicolor(),
                )[i].path,
{
    let order = search_order(reg, disk, theme, fallbacks);
    let own = visit(Seq::empty(), reg.themes(theme));
    let inherited = explore(reg, disk, seq![theme], none_done(reg.entries.len()), own);
    lemma_search_order_distinct(reg, disk, theme, fallbacks);
    lemma_visit_distinct(Seq::empty(), reg.themes(theme));
    lemma_explore_distinct(reg, disk, seq![theme], none_done(reg.entries.len()), own);
    lemma_visit_names_distinct(reg, inherited, fallbacks);
    let n = choose|n: int| 0 <= n < fallbacks.len() && fallbacks[n] == hicolor();
    let path = reg.themes(hicolor())[i].path;
    assert(reg.themes(fallbacks[n])[i].path == path);
    assert(searched_paths(order).contains(path));
    let k = choose|k: int| 0 <= k < order.len() && searched_paths(order)[k] == path;
    assert(order[k].path == path);
    assert forall|m: int| 0 <= m < order.len() && m != k implies (#[trigger] order[m]).path
        != path by {
        if m < k {
            assert(order[m].path != order[k].path);
        } else {
            assert(order[k].path != order[m].path);
        }
    }
}

/// What a lookup asks for.
pub struct QueryView {
    pub name: Seq<u8>,
    pub theme: Seq<u8>,
    pub size: u16,
    pub scale: u16,
    pub prefer_svg: bool,
    pub cache: bool,
}

impl QueryView {
    /// What the outcome of the lookup is stored under in the cache.
    pub open spec fn key(self) -> KeyView {
        KeyView { theme: self.theme, icon: self.name, size: self.size, scale: self.scale }
    }

    /// The theme that the lookup starts from: the requested one where it is
    /// installed, else `hicolor`, and none where that is missing too.
    pub open spec fn active(self, reg: RegistryView) -> Option<Seq<u8>> {
        if reg.has(self.theme) {
            Some(self.theme)
        } else if reg.has(hicolor()) {
            Some(hicolor())
        } else {
            None
        }
    }

    /// The themes that the lookup goes through, in its order.
    pub open spec fn order(self, reg: RegistryView, disk: DiskView) -> Seq<ThemeView> {
        search_order(reg, disk, self.active(reg)->0, fallback_themes())
    }

    /// The files in the themes of `order` that hold the icon at exactly the
    /// requested size, if they exist: theme after theme.
    pub open spec fn exact_all(self, disk: DiskView, order: Seq<ThemeView>) -> Seq<Seq<u8>>
        decreases order.len(),
    {
        if order.len() == 0 {
            Seq::empty()
        } else {
            order[0].exact_candidates(
                disk,
                self.name,
                self.size as int,
                self.scale as int,
                self.prefer_svg,
            ) + self.exact_all(disk, order.drop_first())
        }
    }

    /// The files in the themes of `order` that hold the icon at any size, if
    /// they exist: theme after theme, and in each the closest directory
    /// first.
    pub open spec fn closest_all(self, disk: DiskView, order: Seq<ThemeView>) -> Seq<Seq<u8>>
        decreases order.len(),
    {
        if order.len() == 0 {
            Seq::empty()
        } else {
            order[0].closest_candidates(
                disk,
                self.name,
                self.size as int,
                self.scale as int,
                self.prefer_svg,
            ) + self.closest_all(disk, order.drop_first())
        }
    }

    /// The files directly in the base directories that hold the icon, if
    /// they exist: for each extension in the order of preference, one in
    /// each base directory.
    pub open spec fn loose(self, bases: Seq<Seq<u8>>) -> Seq<Seq<u8>> {
        loose_candidates(bases, self.name, extensions(self.prefer_svg))
    }

    /// The files that hold the icon where its name is a path, if they exist:
    /// in the directory of that path, under the name of the file without
    /// its extension, with each extension in the order of preference.
    pub open spec fn beside(self) -> Seq<Seq<u8>> {
        if looks_like_path(self.name) && path_stem(self.name).len() > 0 {
            directory_candidates(path_parent(self.name), path_stem(self.name), self.prefer_svg)
        } else {
            Seq::empty()
        }
    }

    /// Every file that may hold the icon, in the order in which the lookup
    /// tries them: the exact matches in every theme, then the closest
    /// matches in every theme, then the base directories, then the
    /// directory that the name itself points into.
    pub open spec fn candidates(
        self,
        reg: RegistryView,
        bases: Seq<Seq<u8>>,
        disk: DiskView,
    ) -> Seq<Seq<u8>> {
        self.exact_all(disk, self.order(reg, disk)) + self.closest_all(
            disk,
            self.order(reg, disk),
        ) + self.loose(bases) + self.beside()
    }

    /// What the lookup finds on the disk: the first of its candidates that
    /// exists. Nothing where neither the requested theme nor `hicolor` is
    /// installed, or the name is empty.
    pub open spec fn resolve(
        self,
        reg: RegistryView,
        bases: Seq<Seq<u8>>,
        disk: DiskView,
    ) -> Option<Seq<u8>> {
        if self.name.len() == 0 || self.active(reg) is None {
            None
        } else {
            first_hit(disk, self.candidates(reg, bases, disk))
        }
    }

    /// Whether the cache answers the lookup at `now`, so that the disk is
    /// not read: it holds the path, or a miss that still counts.
    pub open spec fn answered_by(self, cached: CachedView, now: u64) -> bool {
        self.cache && match cached {
            CachedView::Found(_) => true,
            CachedView::NotFound(recorded) => fresh(recorded, now),
            CachedView::Unknown => false,
        }
    }

    /// What the lookup returns at `now` where the cache holds `cached` under
    /// its key.
    pub open spec fn answer(
        self,
        reg: RegistryView,
        bases: Seq<Seq<u8>>,
        disk: DiskView,
        cached: CachedView,
        now: u64,
    ) -> Option<Seq<u8>> {
        if self.name.len() == 0 {
            None
        } else if self.answered_by(cached, now) {
            match cached {
                CachedView::Found(path) => Some(path),
                _ => None,
            }
        } else {
            self.resolve(reg, bases, disk)
        }
    }

    /// Whether the lookup at `now` stores its outcome in the cache: it is
    /// asked to, the cache has no answer, and there is a theme to start from.
    pub open spec fn stores(self, reg: RegistryView, cached: CachedView, now: u64) -> bool {
        &&& self.cache
        &&& self.name.len() > 0
        &&& !self.answered_by(cached, now)
        &&& self.active(reg) is Some
    }

    /// What the cache holds under the key of the lookup once it has run at
    /// `now`, where it held `cached` before: the outcome of the search
    /// where the lookup stores it, with `now` for a miss, and else what it
    /// held.
    pub open spec fn leaves(
        self,
        reg: RegistryView,
        bases: Seq<Seq<u8>>,
        disk: DiskView,
        cached: CachedView,
        now: u64,
    ) -> CachedView {
        if self.stores(reg, cached, now) {
            CachedView::of_outcome(self.resolve(reg, bases, disk), now)
        } else {
            cached
        }
    }
}

/// The file `file` in each of `bases`, in their order.
pub open spec fn in_each(bases: Seq<Seq<u8>>, file: Seq<u8>) -> Seq<Seq<u8>> {
    bases.map_values(|base: Seq<u8>| join(base, file))
}

/// The files named `name` with one of `exts` directly in one of `bases`:
/// for each extension in order, one in each base directory in order.
pub open spec fn loose_candidates(bases: Seq<Seq<u8>>, name: Seq<u8>, exts: Seq<Seq<u8>>) -> Seq<
    Seq<u8>,
>
    decreases exts.len(),
{
    if exts.len() == 0 {
        Seq::empty()
    } else {
        in_each(bases, name + exts[0]) + loose_candidates(bases, name, exts.drop_first())
    }
}

/// Whether an icon name is a path: it holds a `/`.
pub open spec fn looks_like_path(name: Seq<u8>) -> bool {
    last_index(name, SLASH) >= 0
}

/// The directory of a path: what stands before its last `/`, and `/` itself
/// where nothing does.
pub open spec fn path_parent(name: Seq<u8>) -> Seq<u8> {
    let cut = last_index(name, SLASH);
    if cut <= 0 {
        seq![SLASH]
    } else {
        name.take(cut)
    }
}

/// The file name of a path without its extension: what stands behind the
/// last `/`, up to its last `.` where that is not its first byte.
pub open spec fn path_stem(name: Seq<u8>) -> Seq<u8> {
    let file = name.skip(last_index(name, SLASH) + 1);
    let dot = last_index(file, DOT);
    if dot <= 0 {
        file
    } else {
        file.take(dot)
    }
}

/// The exact matches of themes searched one after the other are those of
/// the first themes followed by those of the others.
pub proof fn lemma_exact_all_append(
    q: QueryView,
    disk: DiskView,
    a: Seq<ThemeView>,
    b: Seq<ThemeView>,
)
    ensures
        q.exact_all(disk, a + b) == q.exact_all(disk, a) + q.exact_all(disk, b),
    decreases a.len(),
{
    if a.len() == 0 {
        assert(a + b =~= b);
        assert(q.exact_all(disk, a) + q.exact_all(disk, b) =~= q.exact_all(disk, b));
    } else {
        assert((a + b).drop_first() =~= a.drop_first() + b);
        lemma_exact_all_append(q, disk, a.drop_first(), b);
        let head = a[0].exact_candidates(
            disk,
            q.name,
            q.size as int,
            q.scale as int,
            q.prefer_svg,
        );
        assert(head + (q.exact_all(disk, a.drop_first()) + q.exact_all(disk, b)) =~= (head
            + q.exact_all(disk, a.drop_first())) + q.exact_all(disk, b));
    }
}

/// The first exact match in the themes that were added to `before` to give
/// `after`.
pub open spec fn found_between(
    q: QueryView,
    disk: DiskView,
    before: Seq<ThemeView>,
    after: Seq<ThemeView>,
) -> Option<Seq<u8>> {
    first_hit(disk, q.exact_all(disk, after.skip(before.len() as int)))
}

/// One more stretch of a search that has found nothing so far: where the
/// themes from `start` to `before` hold no exact match, the first one
/// between `start` and `after` is the first one between `before` and
/// `after`, and where there is one it is the first between `start` and any
/// `end` that the search may go on to.
pub proof fn lemma_search_step(
    q: QueryView,
    disk: DiskView,
    start: Seq<ThemeView>,
    before: Seq<ThemeView>,
    after: Seq<ThemeView>,
    end: Seq<ThemeView>,
)
    requires
        extends(start, before),
        extends(before, after),
        extends(after, end),
        found_between(q, disk, start, before) is None,
    ensures
        found_between(q, disk, start, after) == found_between(q, disk, before, after),
        found_between(q, disk, before, after) is Some ==> found_between(q, disk, start, end)
            == found_between(q, disk, before, after),
        extends(start, after),
        extends(start, end),
{
    lemma_extends_trans(start, before, after);
    lemma_extends_trans(start, after, end);
    let first = before.skip(start.len() as int);
    let second = after.skip(before.len() as int);
    let third = end.skip(after.len() as int);
    lemma_exact_all_append(q, disk, first, second);
    lemma_first_hit_append(disk, q.exact_all(disk, first), q.exact_all(disk, second));
    lemma_exact_all_append(q, disk, first + second, third);
    lemma_first_hit_append(disk, q.exact_all(disk, first + second), q.exact_all(disk, third));
}

} // verus!
