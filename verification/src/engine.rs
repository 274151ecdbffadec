//! The search of a lookup on the disk: through the themes for an exact
//! match, through the same themes for the closest match, through the base
//! directories, and beside the file that the name points at.

use crate::bytes::{append, bytes_eq, find_last, join, join_path, path_views, DOT, SLASH};
use crate::disk::{slice_views, Disk, DiskView};
use crate::search::{
    declared_parents, explore, extends, fallback_themes, found_between, in_each,
    lemma_exact_all_append, lemma_explore_extends, lemma_extends_trans, lemma_search_step,
    lemma_unset_update, lemma_visit_extends, lemma_visit_names_extends, loose_candidates,
    none_done, searched_paths, theme_parents, unset, visit, visit_names, visit_one, QueryView,
};
use crate::theme::registry::{theme_views, RegistryView, ThemeRegistry};
use crate::theme::{
    directory_candidates, extension, extensions, first_hit, lemma_first_hit_append, path_view,
    try_build_ext, try_build_icon_path, Theme, ThemeView,
};
use crate::LookupBuilder;
use vstd::prelude::*;
use vstd::slice::slice_subrange;
use vstd::string::StringSliceAdditionalSpecFns;

verus! {

/// What each theme of `list` is.
pub open spec fn theme_refs(list: Seq<&Theme>) -> Seq<ThemeView> {
    list.map_values(|t: &Theme| t@)
}

/// Whether a theme in the directory `path` is among `searched`.
fn was_searched(searched: &Vec<&Theme>, path: &[u8]) -> (yes: bool)
    ensures
        yes == searched_paths(theme_refs(searched@)).contains(path@),
{
    let mut i: usize = 0;
    while i < searched.len()
        invariant
            i <= searched@.len(),
            forall|j: int| 0 <= j < i ==> searched_paths(theme_refs(searched@))[j] != path@,
        decreases searched@.len() - i,
    {
        if bytes_eq(searched[i].path().as_slice(), path) {
            assert(searched_paths(theme_refs(searched@))[i as int] == path@);
            return true;
        }
        i += 1;
    }
    false
}

/// `n` flags, none of them set.
fn flags(n: usize) -> (done: Vec<bool>)
    ensures
        done@ == none_done(n as nat),
{
    let mut done: Vec<bool> = Vec::new();
    while done.len() < n
        invariant
            done@.len() <= n,
            forall|i: int| 0 <= i < done@.len() ==> !done@[i],
        decreases n - done@.len(),
    {
        done.push(false);
    }
    assert(done@ =~= none_done(n as nat));
    done
}

/// The names of the themes that every lookup falls back to.
pub fn fallback_names() -> (names: Vec<&'static [u8]>)
    ensures
        slice_views(names@) == fallback_themes(),
{
    let mut names: Vec<&'static [u8]> = Vec::new();
    names.push("Cosmic".as_bytes());
    names.push("hicolor".as_bytes());
    names.push("gnome".as_bytes());
    names.push("Yaru".as_bytes());
    assert(slice_views(names@) =~= fallback_themes());
    names
}

impl<'a> LookupBuilder<'a> {
    /// Goes to one installed theme, unless it has been searched, and with
    /// `probe` searches it for an exact match.
    pub fn search_theme<'r>(
        &self,
        disk: &Disk,
        searched: &mut Vec<&'r Theme>,
        theme: &'r Theme,
        probe: bool,
    ) -> (found: Option<Vec<u8>>)
        ensures
            theme_refs(final(searched)@) == visit_one(theme_refs(old(searched)@), theme@),
            path_view(found) == if probe {
                found_between(
                    self@,
                    disk@,
                    theme_refs(old(searched)@),
                    visit_one(theme_refs(old(searched)@), theme@),
                )
            } else {
                None
            },
    {
        let ghost before = theme_refs(searched@);
        if was_searched(searched, theme.path().as_slice()) {
            assert(before.skip(before.len() as int) =~= Seq::empty());
            return None;
        }
        searched.push(theme);
        proof {
            let after = theme_refs(searched@);
            assert(after =~= before.push(theme@));
            assert(after.skip(before.len() as int) =~= seq![theme@]);
            lemma_exact_all_one(self@, disk@, theme@);
        }
        if probe {
            theme.try_get_icon_exact_size(disk, self.name, self.size, self.scale, self.force_svg)
        } else {
            None
        }
    }

    /// Goes to the installations `themes` in their order, and with `probe`
    /// searches each for an exact match until one has it.
    pub fn search_themes<'r>(
        &self,
        disk: &Disk,
        searched: &mut Vec<&'r Theme>,
        themes: &'r Vec<Theme>,
        probe: bool,
    ) -> (found: Option<Vec<u8>>)
        ensures
            found is None ==> theme_refs(final(searched)@) == visit(
                theme_refs(old(searched)@),
                theme_views(themes@),
            ),
            path_view(found) == if probe {
                found_between(
                    self@,
                    disk@,
                    theme_refs(old(searched)@),
                    visit(theme_refs(old(searched)@), theme_views(themes@)),
                )
            } else {
                None
            },
    {
        let ghost start = theme_refs(searched@);
        let ghost all = theme_views(themes@);
        let ghost end = visit(start, all);
        let mut i: usize = 0;
        proof {
            assert(all.skip(0) =~= all);
            assert(start.take(start.len() as int) =~= start);
            assert(start.skip(start.len() as int) =~= Seq::empty());
        }
        while i < themes.len()
            invariant
                i <= themes@.len(),
                all == theme_views(themes@),
                start == theme_refs(old(searched)@),
                end == visit(start, all),
                end == visit(theme_refs(searched@), all.skip(i as int)),
                extends(start, theme_refs(searched@)),
                probe ==> found_between(self@, disk@, start, theme_refs(searched@)) is None,
            decreases themes@.len() - i,
        {
            let ghost before = theme_refs(searched@);
            let found = self.search_theme(disk, searched, &themes[i], probe);
            proof {
                let after = theme_refs(searched@);
                assert(all.skip(i as int)[0] == themes@[i as int]@);
                assert(all.skip(i as int).drop_first() =~= all.skip(i + 1));
                assert(after.take(before.len() as int) =~= before);
                lemma_visit_extends(after, all.skip(i + 1));
                if probe {
                    lemma_search_step(self@, disk@, start, before, after, end);
                } else {
                    lemma_extends_trans(start, before, after);
                }
            }
            if found.is_some() {
                return found;
            }
            i += 1;
        }
        None
    }

    /// Goes to the installations of the theme `name`, and with `probe`
    /// searches them for an exact match.
    pub fn search_inherited_theme<'r>(
        &self,
        themes: &'r ThemeRegistry,
        disk: &Disk,
        searched: &mut Vec<&'r Theme>,
        name: &[u8],
        probe: bool,
    ) -> (found: Option<Vec<u8>>)
        ensures
            found is None ==> theme_refs(final(searched)@) == visit(
                theme_refs(old(searched)@),
                themes@.themes(name@),
            ),
            path_view(found) == if probe {
                found_between(
                    self@,
                    disk@,
                    theme_refs(old(searched)@),
                    visit(theme_refs(old(searched)@), themes@.themes(name@)),
                )
            } else {
                None
            },
    {
        match themes.get(name) {
            Some(list) => self.search_themes(disk, searched, list, probe),
            None => {
                let ghost before = theme_refs(searched@);
                assert(before.skip(before.len() as int) =~= Seq::empty());
                None
            },
        }
    }

    /// Goes to the themes that `names` names, in their order, and with
    /// `probe` searches them for an exact match.
    pub fn search_named<'r>(
        &self,
        themes: &'r ThemeRegistry,
        disk: &Disk,
        searched: &mut Vec<&'r Theme>,
        names: &Vec<&[u8]>,
        probe: bool,
    ) -> (found: Option<Vec<u8>>)
        ensures
            found is None ==> theme_refs(final(searched)@) == visit_names(
                themes@,
                theme_refs(old(searched)@),
                slice_views(names@),
            ),
            path_view(found) == if probe {
                found_between(
                    self@,
                    disk@,
                    theme_refs(old(searched)@),
                    visit_names(themes@, theme_refs(old(searched)@), slice_views(names@)),
                )
            } else {
                None
            },
    {
        let ghost start = theme_refs(searched@);
        let ghost all = slice_views(names@);
        let ghost end = visit_names(themes@, start, all);
        let mut i: usize = 0;
        proof {
            assert(all.skip(0) =~= all);
            assert(start.take(start.len() as int) =~= start);
            assert(start.skip(start.len() as int) =~= Seq::empty());
        }
        while i < names.len()
            invariant
                i <= names@.len(),
                all == slice_views(names@),
                start == theme_refs(old(searched)@),
                end == visit_names(themes@, start, all),
                end == visit_names(themes@, theme_refs(searched@), all.skip(i as int)),
                extends(start, theme_refs(searched@)),
                probe ==> found_between(self@, disk@, start, theme_refs(searched@)) is None,
            decreases names@.len() - i,
        {
            let ghost before = theme_refs(searched@);
            let found = self.search_inherited_theme(themes, disk, searched, names[i], probe);
            proof {
                let after = visit(before, themes@.themes(names@[i as int]@));
                assert(all.skip(i as int)[0] == names@[i as int]@);
                assert(all.skip(i as int).drop_first() =~= all.skip(i + 1));
                lemma_visit_extends(before, themes@.themes(names@[i as int]@));
                lemma_visit_names_extends(themes@, after, all.skip(i + 1));
                if probe {
                    lemma_search_step(self@, disk@, start, before, after, end);
                } else {
                    lemma_extends_trans(start, before, after);
                }
            }
            if found.is_some() {
                return found;
            }
            i += 1;
        }
        None
    }

    /// Goes to the themes that the installations of the theme at `at` name
    /// as parents, with `probe` searches them for an exact match, and puts
    /// their names at the end of `queue`.
    pub fn search_theme_inherits<'r>(
        &self,
        themes: &'r ThemeRegistry,
        disk: &'r Disk,
        searched: &mut Vec<&'r Theme>,
        queue: &mut Vec<&'r [u8]>,
        at: usize,
        probe: bool,
    ) -> (found: Option<Vec<u8>>)
        requires
            at < themes.entries@.len(),
        ensures
            found is None ==> theme_refs(final(searched)@) == visit_names(
                themes@,
                theme_refs(old(searched)@),
                declared_parents(disk@, themes@.entries[at as int].themes),
            ),
            found is None ==> slice_views(final(queue)@) == slice_views(old(queue)@)
                + declared_parents(disk@, themes@.entries[at as int].themes),
            path_view(found) == if probe {
                found_between(
                    self@,
                    disk@,
                    theme_refs(old(searched)@),
                    visit_names(
                        themes@,
                        theme_refs(old(searched)@),
                        declared_parents(disk@, themes@.entries[at as int].themes),
                    ),
                )
            } else {
                None
            },
    {
        let installs = &themes.entries[at].themes;
        let ghost start = theme_refs(searched@);
        let ghost waiting = slice_views(queue@);
        let ghost all = themes@.entries[at as int].themes;
        let ghost end = visit_names(themes@, start, declared_parents(disk@, all));
        let mut i: usize = 0;
        proof {
            assert(all == theme_views(installs@));
            assert(all.skip(0) =~= all);
            assert(start.take(start.len() as int) =~= start);
            assert(start.skip(start.len() as int) =~= Seq::empty());
            assert(all.take(0) =~= Seq::empty());
            assert(waiting + declared_parents(disk@, all.take(0)) =~= waiting);
        }
        while i < installs.len()
            invariant
                i <= installs@.len(),
                at < themes.entries@.len(),
                all == theme_views(installs@),
                all == themes@.entries[at as int].themes,
                start == theme_refs(old(searched)@),
                waiting == slice_views(old(queue)@),
                end == visit_names(themes@, start, declared_parents(disk@, all)),
                end == visit_names(
                    themes@,
                    theme_refs(searched@),
                    declared_parents(disk@, all.skip(i as int)),
                ),
                slice_views(queue@) == waiting + declared_parents(disk@, all.take(i as int)),
                extends(start, theme_refs(searched@)),
                probe ==> found_between(self@, disk@, start, theme_refs(searched@)) is None,
            decreases installs@.len() - i,
        {
            let ghost before = theme_refs(searched@);
            let names: Vec<&'r [u8]> = match disk.read(installs[i].index.as_slice()) {
                Some(file) => installs[i].inherits(file),
                None => Vec::new(),
            };
            proof {
                assert(disk@.read(installs@[i as int]@.index) is None ==> slice_views(names@)
                    =~= Seq::empty());
                assert(slice_views(names@) == theme_parents(disk@, all[i as int]));
            }
            let found = self.search_named(themes, disk, searched, &names, probe);
            proof {
                let own = slice_views(names@);
                let rest = declared_parents(disk@, all.skip(i + 1));
                let after = visit_names(themes@, before, own);
                assert(all.skip(i as int)[0] == all[i as int]);
                assert(all.skip(i as int).drop_first() =~= all.skip(i + 1));
                lemma_visit_names_append(themes@, before, own, rest);
                lemma_visit_names_extends(themes@, before, own);
                lemma_visit_names_extends(themes@, after, rest);
                if probe {
                    lemma_search_step(self@, disk@, start, before, after, end);
                } else {
                    lemma_extends_trans(start, before, after);
                }
            }
            if found.is_some() {
                return found;
            }
            let ghost queued = slice_views(queue@);
            let mut j: usize = 0;
            while j < names.len()
                invariant
                    j <= names@.len(),
                    slice_views(queue@) == queued + slice_views(names@).take(j as int),
                decreases names@.len() - j,
            {
                let ghost so_far = slice_views(queue@);
                queue.push(names[j]);
                assert(slice_views(queue@) =~= so_far.push(names@[j as int]@));
                assert(queued + slice_views(names@).take(j + 1) =~= (queued + slice_views(
                    names@,
                ).take(j as int)).push(names@[j as int]@));
                j += 1;
            }
            proof {
                assert(slice_views(names@).take(j as int) =~= slice_views(names@));
                lemma_declared_parents_push(disk@, all.take(i as int), all[i as int]);
                assert(all.take(i as int).push(all[i as int]) =~= all.take(i + 1));
                let earlier = declared_parents(disk@, all.take(i as int));
                let own = slice_views(names@);
                assert((waiting + earlier) + own =~= waiting + (earlier + own));
            }
            i += 1;
        }
        assert(all.take(i as int) =~= all);
        None
    }

    /// Goes through what the theme at `at` inherits from, its parents, then
    /// theirs, and so on, each theme's parents once, and with `probe`
    /// searches every theme it reaches for an exact match.
    pub fn search_inherits<'r>(
        &self,
        themes: &'r ThemeRegistry,
        disk: &'r Disk,
        searched: &mut Vec<&'r Theme>,
        at: usize,
        probe: bool,
    ) -> (found: Option<Vec<u8>>)
        requires
            at < themes.entries@.len(),
            themes@.slot(themes@.entries[at as int].name) == at,
        ensures
            found is None ==> theme_refs(final(searched)@) == explore(
                themes@,
                disk@,
                seq![themes@.entries[at as int].name],
                none_done(themes@.entries.len()),
                theme_refs(old(searched)@),
            ),
            path_view(found) == if probe {
                found_between(
                    self@,
                    disk@,
                    theme_refs(old(searched)@),
                    explore(
                        themes@,
                        disk@,
                        seq![themes@.entries[at as int].name],
                        none_done(themes@.entries.len()),
                        theme_refs(old(searched)@),
                    ),
                )
            } else {
                None
            },
    {
        let ghost start = theme_refs(searched@);
        let ghost end = explore(
            themes@,
            disk@,
            seq![themes@.entries[at as int].name],
            none_done(themes@.entries.len()),
            start,
        );
        let mut done = flags(themes.entries.len());
        let mut queue: Vec<&'r [u8]> = Vec::new();
        queue.push(themes.entries[at].name.as_slice());
        let mut head: usize = 0;
        proof {
            assert(slice_views(queue@) =~= seq![themes@.entries[at as int].name]);
            assert(slice_views(queue@).skip(0) =~= slice_views(queue@));
            assert(start.take(start.len() as int) =~= start);
            assert(start.skip(start.len() as int) =~= Seq::empty());
        }
        while head < queue.len()
            invariant
                head <= queue@.len(),
                at < themes.entries@.len(),
                done@.len() == themes.entries@.len(),
                start == theme_refs(old(searched)@),
                end == explore(
                    themes@,
                    disk@,
                    seq![themes@.entries[at as int].name],
                    none_done(themes@.entries.len()),
                    start,
                ),
                end == explore(
                    themes@,
                    disk@,
                    slice_views(queue@).skip(head as int),
                    done@,
                    theme_refs(searched@),
                ),
                extends(start, theme_refs(searched@)),
                probe ==> found_between(self@, disk@, start, theme_refs(searched@)) is None,
            decreases unset(done@), queue@.len() - head,
        {
            let name = queue[head];
            let slot = themes.find(name);
            let ghost before = theme_refs(searched@);
            let ghost waiting = slice_views(queue@).skip(head as int);
            proof {
                assert(waiting[0] == name@);
                assert(waiting.drop_first() =~= slice_views(queue@).skip(head + 1));
            }
            head += 1;
            if slot < themes.entries.len() && !done[slot] {
                let ghost named = declared_parents(disk@, themes@.entries[slot as int].themes);
                let ghost flagged = done@;
                done.set(slot, true);
                let ghost queued = slice_views(queue@);
                let found = self.search_theme_inherits(
                    themes,
                    disk,
                    searched,
                    &mut queue,
                    slot,
                    probe,
                );
                proof {
                    let after = visit_names(themes@, before, named);
                    lemma_unset_update(flagged, slot as int);
                    lemma_visit_names_extends(themes@, before, named);
                    lemma_explore_extends(
                        themes@,
                        disk@,
                        waiting.drop_first() + named,
                        done@,
                        after,
                    );
                    if probe {
                    lemma_search_step(self@, disk@, start, before, after, end);
                } else {
                    lemma_extends_trans(start, before, after);
                }
                    if found is None {
                        assert(slice_views(queue@).skip(head as int) =~= waiting.drop_first()
                            + named);
                    }
                }
                if found.is_some() {
                    return found;
                }
            }
        }
        proof {
            assert(slice_views(queue@).skip(head as int) =~= Seq::empty());
        }
        None
    }

    /// Searches the themes `searched` for the closest match, in their order.
    fn search_closest(&self, disk: &Disk, searched: &Vec<&Theme>) -> (found: Option<Vec<u8>>)
        ensures
            path_view(found) == first_hit(
                disk@,
                self@.closest_all(disk@, theme_refs(searched@)),
            ),
    {
        let ghost all = theme_refs(searched@);
        let mut i: usize = 0;
        assert(all.skip(0) =~= all);
        while i < searched.len()
            invariant
                i <= searched@.len(),
                all == theme_refs(searched@),
                first_hit(disk@, self@.closest_all(disk@, all)) == first_hit(
                    disk@,
                    self@.closest_all(disk@, all.skip(i as int)),
                ),
            decreases searched@.len() - i,
        {
            let found = searched[i].try_get_icon(
                disk,
                self.name,
                self.size,
                self.scale,
                self.force_svg,
            );
            proof {
                let rest = all.skip(i as int);
                assert(rest[0] == searched@[i as int]@);
                assert(rest.drop_first() =~= all.skip(i + 1));
                lemma_first_hit_append(
                    disk@,
                    rest[0].closest_candidates(
                        disk@,
                        self@.name,
                        self@.size as int,
                        self@.scale as int,
                        self@.prefer_svg,
                    ),
                    self@.closest_all(disk@, all.skip(i + 1)),
                );
            }
            if found.is_some() {
                return found;
            }
            i += 1;
        }
        None
    }

    /// Looks for the icon directly in the base directories: with each
    /// extension in the order of preference, in each directory.
    fn search_base_paths(&self, disk: &Disk, base_paths: &Vec<Vec<u8>>) -> (found: Option<Vec<u8>>)
        ensures
            path_view(found) == first_hit(disk@, self@.loose(path_views(base_paths@))),
    {
        let ghost bases = path_views(base_paths@);
        let ghost exts = extensions(self@.prefer_svg);
        let ghost all = loose_candidates(bases, self@.name, exts);
        let mut e: usize = 0;
        assert(exts.skip(0) =~= exts);
        while e < 3
            invariant
                e <= 3,
                bases == path_views(base_paths@),
                exts == extensions(self@.prefer_svg),
                all == loose_candidates(bases, self@.name, exts),
                first_hit(disk@, all) == first_hit(
                    disk@,
                    loose_candidates(bases, self@.name, exts.skip(e as int)),
                ),
            decreases 3 - e,
        {
            let ext = extension(self.force_svg, e);
            let ghost file = self@.name + ext.spec_bytes();
            let ghost row = in_each(bases, file);
            let ghost below = loose_candidates(bases, self@.name, exts.skip(e + 1));
            proof {
                assert(exts.skip(e as int)[0] == ext.spec_bytes());
                assert(exts.skip(e as int).drop_first() =~= exts.skip(e + 1));
                lemma_first_hit_append(disk@, row, below);
                assert(row.skip(0) =~= row);
            }
            let mut b: usize = 0;
            while b < base_paths.len()
                invariant
                    b <= base_paths@.len(),
                    bases == path_views(base_paths@),
                    file == self@.name + ext.spec_bytes(),
                    row == in_each(bases, file),
                    first_hit(disk@, all) == first_hit(disk@, row + below),
                    all == loose_candidates(bases, self@.name, extensions(self@.prefer_svg)),
                    first_hit(disk@, row) == first_hit(disk@, row.skip(b as int)),
                decreases base_paths@.len() - b,
            {
                proof {
                    assert(row.skip(b as int)[0] == join(base_paths@[b as int]@, file));
                    assert(row.skip(b as int).drop_first() =~= row.skip(b + 1));
                    lemma_first_hit_append(disk@, row, below);
                }
                match try_build_ext(disk, base_paths[b].as_slice(), self.name.as_bytes(), ext) {
                    Some(path) => {
                        return Some(path);
                    },
                    None => {},
                }
                b += 1;
            }
            e += 1;
        }
        None
    }

    /// Looks for the icon beside the file that its name points at, where
    /// the name is a path.
    fn search_beside(&self, disk: &Disk) -> (found: Option<Vec<u8>>)
        ensures
            path_view(found) == first_hit(disk@, self@.beside()),
    {
        let name = self.name.as_bytes();
        let cut: usize = match find_last(name, SLASH) {
            Some(cut) => cut,
            None => {
                return None;
            },
        };
        let length: usize = name.len();
        let file = slice_subrange(name, cut + 1, length);
        assert(file@ =~= name@.skip(cut + 1));
        let stem = match find_last(file, DOT) {
            Some(dot) => if dot == 0 {
                file
            } else {
                let stem = slice_subrange(file, 0, dot);
                assert(stem@ =~= file@.take(dot as int));
                stem
            },
            None => file,
        };
        if stem.len() == 0 {
            return None;
        }
        if cut == 0 {
            let root: [u8; 1] = [SLASH];
            assert(root@ =~= seq![SLASH]);
            try_build_icon_path(disk, root.as_slice(), stem, self.force_svg)
        } else {
            let parent = slice_subrange(name, 0, cut);
            assert(parent@ =~= name@.take(cut as int));
            try_build_icon_path(disk, parent, stem, self.force_svg)
        }
    }

    /// Looks for the icon on the disk, from the theme at `at` on.
    pub(crate) fn search<'r>(
        &self,
        themes: &'r ThemeRegistry,
        base_paths: &Vec<Vec<u8>>,
        disk: &'r Disk,
        at: usize,
    ) -> (found: Option<Vec<u8>>)
        requires
            at < themes.entries@.len(),
            themes@.slot(themes@.entries[at as int].name) == at,
            self@.active(themes@) == Some(themes@.entries[at as int].name),
        ensures
            path_view(found) == first_hit(
                disk@,
                self@.candidates(themes@, path_views(base_paths@), disk@),
            ),
    {
        let ghost q = self@;
        let ghost reg = themes@;
        let ghost bases = path_views(base_paths@);
        let ghost active = reg.entries[at as int].name;
        let ghost none = Seq::<ThemeView>::empty();
        let ghost own = visit(none, reg.themes(active));
        let ghost inherited = explore(reg, disk@, seq![active], none_done(reg.entries.len()), own);
        let ghost order = q.order(reg, disk@);
        let ghost exact = q.exact_all(disk@, order);
        let ghost closest = q.closest_all(disk@, order);
        proof {
            assert(order == visit_names(reg, inherited, fallback_themes()));
            lemma_visit_extends(none, reg.themes(active));
            lemma_explore_extends(reg, disk@, seq![active], none_done(reg.entries.len()), own);
            lemma_visit_names_extends(reg, inherited, fallback_themes());
            assert(order.skip(0) =~= order);
            assert(none.skip(0) =~= none);
            assert(none.take(0) =~= none);
            assert(order.take(order.len() as int) =~= order);
            lemma_first_hit_append(disk@, exact, closest);
            lemma_first_hit_append(disk@, exact + closest, q.loose(bases));
            lemma_first_hit_append(disk@, exact + closest + q.loose(bases), q.beside());
            lemma_extends_trans(own, inherited, order);
            lemma_search_step(q, disk@, none, none, own, order);
        }
        let mut searched: Vec<&'r Theme> = Vec::new();
        assert(theme_refs(searched@) =~= none);
        let found = self.search_themes(disk, &mut searched, &themes.entries[at].themes, true);
        if found.is_some() {
            return found;
        }
        proof {
            lemma_search_step(q, disk@, none, own, inherited, order);
        }
        let found = self.search_inherits(themes, disk, &mut searched, at, true);
        if found.is_some() {
            return found;
        }
        proof {
            lemma_search_step(q, disk@, none, inherited, order, order);
        }
        let names = fallback_names();
        let found = self.search_named(themes, disk, &mut searched, &names, true);
        if found.is_some() {
            return found;
        }
        let found = self.search_closest(disk, &searched);
        if found.is_some() {
            return found;
        }
        let found = self.search_base_paths(disk, base_paths);
        if found.is_some() {
            return found;
        }
        self.search_beside(disk)
    }

    /// The themes that the lookup goes through, from the theme at `at` on.
    pub(crate) fn order<'r>(
        &self,
        themes: &'r ThemeRegistry,
        disk: &'r Disk,
        at: usize,
    ) -> (searched: Vec<&'r Theme>)
        requires
            at < themes.entries@.len(),
            themes@.slot(themes@.entries[at as int].name) == at,
            self@.active(themes@) == Some(themes@.entries[at as int].name),
        ensures
            theme_refs(searched@) == self@.order(themes@, disk@),
    {
        let mut searched: Vec<&'r Theme> = Vec::new();
        assert(theme_refs(searched@) =~= Seq::<ThemeView>::empty());
        let _ = self.search_themes(disk, &mut searched, &themes.entries[at].themes, false);
        let _ = self.search_inherits(themes, disk, &mut searched, at, false);
        let names = fallback_names();
        let _ = self.search_named(themes, disk, &mut searched, &names, false);
        searched
    }

    /// Adds to `out` the files directly in the base directories that may
    /// hold the icon.
    pub(crate) fn list_base_paths(&self, out: &mut Vec<Vec<u8>>, base_paths: &Vec<Vec<u8>>)
        ensures
            path_views(final(out)@) == path_views(old(out)@) + self@.loose(path_views(base_paths@)),
    {
        let ghost bases = path_views(base_paths@);
        let ghost exts = extensions(self@.prefer_svg);
        let ghost start = path_views(out@);
        let ghost all = loose_candidates(bases, self@.name, exts);
        let mut e: usize = 0;
        assert(exts.skip(0) =~= exts);
        while e < 3
            invariant
                e <= 3,
                bases == path_views(base_paths@),
                exts == extensions(self@.prefer_svg),
                start + all == path_views(out@) + loose_candidates(
                    bases,
                    self@.name,
                    exts.skip(e as int),
                ),
            decreases 3 - e,
        {
            let ext = extension(self.force_svg, e);
            let file = append(self.name.as_bytes(), ext.as_bytes());
            let ghost before = path_views(out@);
            let ghost row = in_each(bases, file@);
            let ghost below = loose_candidates(bases, self@.name, exts.skip(e + 1));
            proof {
                assert(exts.skip(e as int)[0] == ext.spec_bytes());
                assert(exts.skip(e as int).drop_first() =~= exts.skip(e + 1));
            }
            let mut b: usize = 0;
            while b < base_paths.len()
                invariant
                    b <= base_paths@.len(),
                    bases == path_views(base_paths@),
                    row == in_each(bases, file@),
                    path_views(out@) == before + row.take(b as int),
                decreases base_paths@.len() - b,
            {
                let ghost so_far = path_views(out@);
                out.push(join_path(base_paths[b].as_slice(), file.as_slice()));
                proof {
                    assert(path_views(out@) =~= so_far.push(row[b as int]));
                    assert(before + row.take(b + 1) =~= (before + row.take(b as int)).push(
                        row[b as int],
                    ));
                }
                b += 1;
            }
            proof {
                assert(row.take(b as int) =~= row);
                assert((before + row) + below =~= before + (row + below));
            }
            e += 1;
        }
        proof {
            assert(path_views(out@) + Seq::<Seq<u8>>::empty() =~= path_views(out@));
        }
    }

    /// Adds to `out` the files beside the one that the name points at, where
    /// the name is a path.
    pub(crate) fn list_beside(&self, out: &mut Vec<Vec<u8>>)
        ensures
            path_views(final(out)@) == path_views(old(out)@) + self@.beside(),
    {
        let name = self.name.as_bytes();
        proof {
            assert(path_views(out@) + Seq::<Seq<u8>>::empty() =~= path_views(out@));
        }
        let cut: usize = match find_last(name, SLASH) {
            Some(cut) => cut,
            None => {
                return ;
            },
        };
        let length: usize = name.len();
        let file = slice_subrange(name, cut + 1, length);
        assert(file@ =~= name@.skip(cut + 1));
        let stem = match find_last(file, DOT) {
            Some(dot) => if dot == 0 {
                file
            } else {
                let stem = slice_subrange(file, 0, dot);
                assert(stem@ =~= file@.take(dot as int));
                stem
            },
            None => file,
        };
        if stem.len() == 0 {
            return ;
        }
        let root: [u8; 1] = [SLASH];
        assert(root@ =~= seq![SLASH]);
        let parent = if cut == 0 {
            root.as_slice()
        } else {
            let parent = slice_subrange(name, 0, cut);
            assert(parent@ =~= name@.take(cut as int));
            parent
        };
        let ghost before = path_views(out@);
        let ghost here = directory_candidates(parent@, stem@, self@.prefer_svg);
        let mut e: usize = 0;
        assert(before + here.take(0) =~= before);
        while e < 3
            invariant
                e <= 3,
                here == directory_candidates(parent@, stem@, self@.prefer_svg),
                path_views(out@) == before + here.take(e as int),
            decreases 3 - e,
        {
            let ext = extension(self.force_svg, e);
            let file = append(stem, ext.as_bytes());
            let ghost so_far = path_views(out@);
            out.push(join_path(parent, file.as_slice()));
            proof {
                assert(path_views(out@) =~= so_far.push(here[e as int]));
                assert(before + here.take(e + 1) =~= (before + here.take(e as int)).push(
                    here[e as int],
                ));
            }
            e += 1;
        }
        assert(here.take(3) =~= here);
    }
}

/// The exact matches of some themes and one more.
pub proof fn lemma_exact_all_push(
    q: QueryView,
    disk: DiskView,
    order: Seq<ThemeView>,
    theme: ThemeView,
)
    ensures
        q.exact_all(disk, order.push(theme)) == q.exact_all(disk, order) + theme.exact_candidates(
            disk,
            q.name,
            q.size as int,
            q.scale as int,
            q.prefer_svg,
        ),
{
    lemma_exact_all_one(q, disk, theme);
    lemma_exact_all_append(q, disk, order, seq![theme]);
    assert(order + seq![theme] =~= order.push(theme));
}

/// The closest matches of some themes and one more.
pub proof fn lemma_closest_all_push(
    q: QueryView,
    disk: DiskView,
    order: Seq<ThemeView>,
    theme: ThemeView,
)
    ensures
        q.closest_all(disk, order.push(theme)) == q.closest_all(disk, order)
            + theme.closest_candidates(
            disk,
            q.name,
            q.size as int,
            q.scale as int,
            q.prefer_svg,
        ),
    decreases order.len(),
{
    let own = theme.closest_candidates(
        disk,
        q.name,
        q.size as int,
        q.scale as int,
        q.prefer_svg,
    );
    let all = order.push(theme);
    if order.len() == 0 {
        assert(all[0] == theme);
        assert(all.drop_first() =~= Seq::<ThemeView>::empty());
        assert(q.closest_all(disk, Seq::<ThemeView>::empty()) =~= Seq::<Seq<u8>>::empty());
        assert(q.closest_all(disk, all) =~= own);
        assert(q.closest_all(disk, order) + own =~= own);
    } else {
        assert(all.drop_first() =~= order.drop_first().push(theme));
        lemma_closest_all_push(q, disk, order.drop_first(), theme);
        let head = order[0].closest_candidates(
            disk,
            q.name,
            q.size as int,
            q.scale as int,
            q.prefer_svg,
        );
        assert(head + (q.closest_all(disk, order.drop_first()) + own) =~= (head + q.closest_all(
            disk,
            order.drop_first(),
        )) + own);
    }
}

/// The exact matches of one theme alone.
proof fn lemma_exact_all_one(q: QueryView, disk: DiskView, theme: ThemeView)
    ensures
        q.exact_all(disk, seq![theme]) == theme.exact_candidates(
            disk,
            q.name,
            q.size as int,
            q.scale as int,
            q.prefer_svg,
        ),
{
    let one = seq![theme];
    assert(one[0] == theme);
    assert(one.drop_first() =~= Seq::<ThemeView>::empty());
    assert(q.exact_all(disk, Seq::<ThemeView>::empty()) =~= Seq::<Seq<u8>>::empty());
    assert(q.exact_all(disk, one) =~= theme.exact_candidates(
        disk,
        q.name,
        q.size as int,
        q.scale as int,
        q.prefer_svg,
    ));
}

/// Visiting the themes named in `a` and then those named in `b` is visiting
/// those named in `a` followed by `b`.
pub proof fn lemma_visit_names_append(
    reg: RegistryView,
    order: Seq<ThemeView>,
    a: Seq<Seq<u8>>,
    b: Seq<Seq<u8>>,
)
    ensures
        visit_names(reg, order, a + b) == visit_names(reg, visit_names(reg, order, a), b),
    decreases a.len(),
{
    if a.len() == 0 {
        assert(a + b =~= b);
    } else {
        assert((a + b).drop_first() =~= a.drop_first() + b);
        lemma_visit_names_append(reg, visit(order, reg.themes(a[0])), a.drop_first(), b);
    }
}

/// The parents that `themes` and one more theme name are those of `themes`
/// followed by those of that theme.
pub proof fn lemma_declared_parents_push(
    disk: DiskView,
    themes: Seq<ThemeView>,
    theme: ThemeView,
)
    ensures
        declared_parents(disk, themes.push(theme)) == declared_parents(disk, themes)
            + theme_parents(disk, theme),
    decreases themes.len(),
{
    if themes.len() == 0 {
        assert(themes.push(theme).drop_first() =~= Seq::<ThemeView>::empty());
        assert(themes.push(theme)[0] == theme);
        assert(declared_parents(disk, Seq::<ThemeView>::empty()) =~= Seq::<Seq<u8>>::empty());
        assert(declared_parents(disk, themes.push(theme)) =~= theme_parents(disk, theme));
        assert(declared_parents(disk, themes) + theme_parents(disk, theme) =~= theme_parents(
            disk,
            theme,
        ));
    } else {
        assert(themes.push(theme).drop_first() =~= themes.drop_first().push(theme));
        lemma_declared_parents_push(disk, themes.drop_first(), theme);
        assert(theme_parents(disk, themes[0]) + (declared_parents(disk, themes.drop_first())
            + theme_parents(disk, theme)) =~= (theme_parents(disk, themes[0]) + declared_parents(
            disk,
            themes.drop_first(),
        )) + theme_parents(disk, theme));
    }
}

} // verus!
