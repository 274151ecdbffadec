//! Themes as they are installed, and the search for an icon in one of them.

use crate::bytes::{append, join, join_path, path_views};
use crate::disk::{Disk, DiskView};
use crate::theme::directories::{Directory, DirectoryView};
use crate::theme::parse::{directories, get_all_directories, views};
use crate::theme::paths::ThemePath;
use crate::theme::rank::{measured_all, rank_directories, ranked, ranked_views, RankedView};
use vstd::prelude::*;
use vstd::string::StringSliceAdditionalSpecFns;

pub mod directories;
pub mod parse;
pub mod paths;
pub mod rank;
pub mod registry;

verus! {

/// One theme as installed in one place: its directory and the index file
/// that describes it.
#[derive(Debug)]
pub struct Theme {
    pub path: ThemePath,
    pub index: Vec<u8>,
}

/// What a `Theme` is.
pub struct ThemeView {
    pub path: Seq<u8>,
    pub index: Seq<u8>,
}

impl View for Theme {
    type V = ThemeView;

    open spec fn view(&self) -> ThemeView {
        ThemeView { path: self.path@, index: self.index@ }
    }
}

/// The first of `candidates` that exists on `disk`.
pub open spec fn first_hit(disk: DiskView, candidates: Seq<Seq<u8>>) -> Option<Seq<u8>>
    decreases candidates.len(),
{
    if candidates.len() == 0 {
        None
    } else if disk.has(candidates[0]) {
        Some(candidates[0])
    } else {
        first_hit(disk, candidates.drop_first())
    }
}

/// The first hit among `a` followed by `b` is the first hit in `a`, or else
/// the first hit in `b`.
pub proof fn lemma_first_hit_append(disk: DiskView, a: Seq<Seq<u8>>, b: Seq<Seq<u8>>)
    ensures
        first_hit(disk, a + b) == if first_hit(disk, a) is Some {
            first_hit(disk, a)
        } else {
            first_hit(disk, b)
        },
    decreases a.len(),
{
    if a.len() == 0 {
        assert(a + b =~= b);
    } else {
        assert((a + b).drop_first() =~= a.drop_first() + b);
        lemma_first_hit_append(disk, a.drop_first(), b);
    }
}

/// A hit is one of the candidates, it exists, and no candidate before it does.
pub proof fn lemma_first_hit(disk: DiskView, candidates: Seq<Seq<u8>>)
    ensures
        match first_hit(disk, candidates) {
            Some(path) => exists|i: int|
                0 <= i < candidates.len() && candidates[i] == path && disk.has(path) && forall|
                    j: int,
                |
                    0 <= j < i ==> !disk.has(#[trigger] candidates[j]),
            None => forall|j: int|
                0 <= j < candidates.len() ==> !disk.has(#[trigger] candidates[j]),
        },
    decreases candidates.len(),
{
    if candidates.len() > 0 && !disk.has(candidates[0]) {
        let rest = candidates.drop_first();
        lemma_first_hit(disk, rest);
        match first_hit(disk, rest) {
            Some(path) => {
                let i = choose|i: int|
                    0 <= i < rest.len() && rest[i] == path && disk.has(path) && forall|j: int|
                        0 <= j < i ==> !disk.has(#[trigger] rest[j]);
                assert(candidates[i + 1] == path);
                assert forall|j: int| 0 <= j < i + 1 implies !disk.has(
                    #[trigger] candidates[j],
                ) by {
                    if j > 0 {
                        assert(rest[j - 1] == candidates[j]);
                    }
                }
            },
            None => {
                assert forall|j: int| 0 <= j < candidates.len() implies !disk.has(
                    #[trigger] candidates[j],
                ) by {
                    if j > 0 {
                        assert(rest[j - 1] == candidates[j]);
                    }
                }
            },
        }
    } else if candidates.len() > 0 {
        assert(candidates[0] == candidates[0]);
    }
}

/// The file extensions that a lookup tries, in its order of preference.
pub open spec fn extensions(prefer_svg: bool) -> Seq<Seq<u8>> {
    if prefer_svg {
        seq![".svg".spec_bytes(), ".png".spec_bytes(), ".xpm".spec_bytes()]
    } else {
        seq![".png".spec_bytes(), ".svg".spec_bytes(), ".xpm".spec_bytes()]
    }
}

/// The files in the directory `dir` that may hold the icon `name`: one for
/// each extension, in the order of preference.
pub open spec fn directory_candidates(dir: Seq<u8>, name: Seq<u8>, prefer_svg: bool) -> Seq<
    Seq<u8>,
> {
    extensions(prefer_svg).map_values(|ext: Seq<u8>| join(dir, name + ext))
}

/// The files below `root` that may hold the icon `name`, directory by
/// directory in the order of `dirs`, and in each by extension.
pub open spec fn tree_candidates(
    root: Seq<u8>,
    dirs: Seq<Seq<u8>>,
    name: Seq<u8>,
    prefer_svg: bool,
) -> Seq<Seq<u8>>
    decreases dirs.len(),
{
    if dirs.len() == 0 {
        Seq::empty()
    } else {
        directory_candidates(join(root, dirs[0]), name, prefer_svg) + tree_candidates(
            root,
            dirs.drop_first(),
            name,
            prefer_svg,
        )
    }
}

/// Without directories none serves a request exactly, and none is ranked.
pub proof fn lemma_no_directories(size: int, scale: int, prefer_svg: bool)
    ensures
        exact(Seq::empty(), size, scale) == Seq::<DirectoryView>::empty(),
        ranked_names(ranked(Seq::empty(), size, scale, prefer_svg)) == Seq::<Seq<u8>>::empty(),
{
    let none = Seq::<DirectoryView>::empty();
    assert(measured_all(none, size, scale) =~= Seq::empty());
    assert(ranked_names(ranked(none, size, scale, prefer_svg)) =~= Seq::empty());
}

/// Those of `dirs` that serve `size` at `scale` exactly, in order.
pub open spec fn exact(dirs: Seq<DirectoryView>, size: int, scale: int) -> Seq<DirectoryView>
    decreases dirs.len(),
{
    if dirs.len() == 0 {
        Seq::empty()
    } else if dirs.last().matches(size, scale) {
        exact(dirs.drop_last(), size, scale).push(dirs.last())
    } else {
        exact(dirs.drop_last(), size, scale)
    }
}

/// The names of ranked directories.
pub open spec fn ranked_names(list: Seq<RankedView>) -> Seq<Seq<u8>> {
    list.map_values(|r: RankedView| r.name)
}

/// What the path is, where there is one.
pub open spec fn path_view(path: Option<Vec<u8>>) -> Option<Seq<u8>> {
    match path {
        Some(p) => Some(p@),
        None => None,
    }
}

impl ThemeView {
    /// The directories that the index of the theme describes; none where
    /// the index cannot be read.
    pub open spec fn directories(self, disk: DiskView) -> Seq<DirectoryView> {
        match disk.read(self.index) {
            Some(file) => directories(file),
            None => Seq::empty(),
        }
    }

    /// The files of this theme that hold the icon `name` at exactly `size`
    /// and `scale`, if they exist: those of each directory that serves the
    /// request exactly, with each extension in the order of preference. The
    /// directories of the kind that the caller prefers come first, and else
    /// they come as the index declares them.
    pub open spec fn exact_candidates(
        self,
        disk: DiskView,
        name: Seq<u8>,
        size: int,
        scale: int,
        prefer_svg: bool,
    ) -> Seq<Seq<u8>> {
        tree_candidates(
            self.path,
            ranked_names(
                ranked(exact(self.directories(disk), size, scale), size, scale, prefer_svg),
            ),
            name,
            prefer_svg,
        )
    }

    /// The files of this theme that hold the icon `name` at any size, if
    /// they exist: those of every directory, closest directory first, and
    /// in each directory with each extension in the order of preference.
    pub open spec fn closest_candidates(
        self,
        disk: DiskView,
        name: Seq<u8>,
        size: int,
        scale: int,
        prefer_svg: bool,
    ) -> Seq<Seq<u8>> {
        tree_candidates(
            self.path,
            ranked_names(ranked(self.directories(disk), size, scale, prefer_svg)),
            name,
            prefer_svg,
        )
    }
}

/// The file extension that is tried in place `i`.
pub(crate) fn extension(prefer_svg: bool, i: usize) -> (ext: &'static str)
    requires
        i < 3,
    ensures
        ext.spec_bytes() == extensions(prefer_svg)[i as int],
{
    if i == 2 {
        ".xpm"
    } else if (i == 0) == prefer_svg {
        ".svg"
    } else {
        ".png"
    }
}

/// Looks in the directory `dir` for the icon `name` with the extension `ext`.
pub fn try_build_ext(disk: &Disk, dir: &[u8], name: &[u8], ext: &'static str) -> (found: Option<
    Vec<u8>,
>)
    ensures
        found matches Some(path) ==> path@ == join(dir@, name@ + ext.spec_bytes()),
        found is Some <==> disk@.has(join(dir@, name@ + ext.spec_bytes())),
{
    let file = append(name, ext.as_bytes());
    let path = join_path(dir, file.as_slice());
    if disk.has(path.as_slice()) {
        Some(path)
    } else {
        None
    }
}

/// Looks in the directory `dir` for the icon `name`, with each extension in
/// the order of preference.
pub fn try_build_icon_path(disk: &Disk, dir: &[u8], name: &[u8], prefer_svg: bool) -> (found:
    Option<Vec<u8>>)
    ensures
        path_view(found) == first_hit(disk@, directory_candidates(dir@, name@, prefer_svg)),
{
    let ghost candidates = directory_candidates(dir@, name@, prefer_svg);
    let mut i: usize = 0;
    assert(candidates.skip(0) =~= candidates);
    while i < 3
        invariant
            i <= 3,
            candidates == directory_candidates(dir@, name@, prefer_svg),
            first_hit(disk@, candidates) == first_hit(disk@, candidates.skip(i as int)),
        decreases 3 - i,
    {
        let ext = extension(prefer_svg, i);
        proof {
            let rest = candidates.skip(i as int);
            assert(rest[0] == join(dir@, name@ + ext.spec_bytes()));
            assert(rest.drop_first() =~= candidates.skip(i + 1));
        }
        match try_build_ext(disk, dir, name, ext) {
            Some(path) => {
                return Some(path);
            },
            None => {},
        }
        i += 1;
    }
    None
}

impl Theme {
    /// Adds to `out` the files in the directories `dir_names` of this theme
    /// that may hold the icon `name`: directory by directory, and in each by
    /// extension.
    pub fn list_fold_icon_path(
        &self,
        out: &mut Vec<Vec<u8>>,
        dir_names: &Vec<(&str, u64, bool)>,
        name: &str,
        prefer_svg: bool,
    )
        ensures
            path_views(final(out)@) == path_views(old(out)@) + tree_candidates(
                self@.path,
                ranked_names(ranked_views(dir_names@)),
                name.spec_bytes(),
                prefer_svg,
            ),
    {
        let ghost dirs = ranked_names(ranked_views(dir_names@));
        let ghost start = path_views(out@);
        let ghost all = tree_candidates(self@.path, dirs, name.spec_bytes(), prefer_svg);
        let mut i: usize = 0;
        assert(dirs.skip(0) =~= dirs);
        while i < dir_names.len()
            invariant
                i <= dir_names@.len(),
                dirs == ranked_names(ranked_views(dir_names@)),
                start + all == path_views(out@) + tree_candidates(
                    self@.path,
                    dirs.skip(i as int),
                    name.spec_bytes(),
                    prefer_svg,
                ),
            decreases dir_names@.len() - i,
        {
            let dir = join_path(self.path().as_slice(), dir_names[i].0.as_bytes());
            let ghost before = path_views(out@);
            let ghost rest = tree_candidates(
                self@.path,
                dirs.skip(i + 1),
                name.spec_bytes(),
                prefer_svg,
            );
            let ghost here = directory_candidates(dir@, name.spec_bytes(), prefer_svg);
            proof {
                assert(dirs.skip(i as int)[0] == dir_names@[i as int].0.spec_bytes());
                assert(dirs.skip(i as int).drop_first() =~= dirs.skip(i + 1));
            }
            let mut e: usize = 0;
            while e < 3
                invariant
                    e <= 3,
                    here == directory_candidates(dir@, name.spec_bytes(), prefer_svg),
                    path_views(out@) == before + here.take(e as int),
                decreases 3 - e,
            {
                let ext = extension(prefer_svg, e);
                let file = append(name.as_bytes(), ext.as_bytes());
                let ghost so_far = path_views(out@);
                out.push(join_path(dir.as_slice(), file.as_slice()));
                proof {
                    assert(path_views(out@) =~= so_far.push(here[e as int]));
                    assert(before + here.take(e + 1) =~= (before + here.take(e as int)).push(
                        here[e as int],
                    ));
                }
                e += 1;
            }
            proof {
                assert(here.take(3) =~= here);
                assert((before + here) + rest =~= before + (here + rest));
            }
            i += 1;
        }
        proof {
            assert(path_views(out@) + Seq::<Seq<u8>>::empty() =~= path_views(out@));
        }
    }

    /// Adds to `out` the files of this theme that hold the icon `name` at
    /// exactly `size` and `scale`, if they exist.
    pub fn list_exact_candidates(
        &self,
        out: &mut Vec<Vec<u8>>,
        disk: &Disk,
        name: &str,
        size: u16,
        scale: u16,
        prefer_svg: bool,
    )
        ensures
            path_views(final(out)@) == path_views(old(out)@) + self@.exact_candidates(
                disk@,
                name.spec_bytes(),
                size as int,
                scale as int,
                prefer_svg,
            ),
    {
        match disk.read(self.index.as_slice()) {
            Some(file) => {
                let list = self.exact_match_size(file, size, scale, prefer_svg);
                self.list_fold_icon_path(out, &list, name, prefer_svg);
            },
            None => {
                proof {
                    lemma_no_directories(size as int, scale as int, prefer_svg);
                    assert(path_views(out@) + Seq::<Seq<u8>>::empty() =~= path_views(out@));
                }
            },
        }
    }

    /// Adds to `out` the files of this theme that hold the icon `name` at
    /// any size, if they exist.
    pub fn list_closest_candidates(
        &self,
        out: &mut Vec<Vec<u8>>,
        disk: &Disk,
        name: &str,
        size: u16,
        scale: u16,
        prefer_svg: bool,
    )
        ensures
            path_views(final(out)@) == path_views(old(out)@) + self@.closest_candidates(
                disk@,
                name.spec_bytes(),
                size as int,
                scale as int,
                prefer_svg,
            ),
    {
        match disk.read(self.index.as_slice()) {
            Some(file) => {
                let list = self.closest_match_size(file, size, scale, prefer_svg);
                self.list_fold_icon_path(out, &list, name, prefer_svg);
            },
            None => {
                proof {
                    lemma_no_directories(size as int, scale as int, prefer_svg);
                    assert(path_views(out@) + Seq::<Seq<u8>>::empty() =~= path_views(out@));
                }
            },
        }
    }

    /// The directory of the theme.
    pub fn path(&self) -> (path: &Vec<u8>)
        ensures
            path@ == self@.path,
    {
        &self.path.0
    }

    /// Looks for the icon `name` in the directories `dir_names` of this
    /// theme, in their order: every extension is tried in a directory, in
    /// the order of preference, before the next directory is looked at.
    pub fn try_fold_icon_path(
        &self,
        disk: &Disk,
        dir_names: &Vec<(&str, u64, bool)>,
        name: &str,
        prefer_svg: bool,
    ) -> (found: Option<Vec<u8>>)
        ensures
            path_view(found) == first_hit(
                disk@,
                tree_candidates(
                    self@.path,
                    ranked_names(ranked_views(dir_names@)),
                    name.spec_bytes(),
                    prefer_svg,
                ),
            ),
    {
        let ghost dirs = ranked_names(ranked_views(dir_names@));
        let ghost all = tree_candidates(self@.path, dirs, name.spec_bytes(), prefer_svg);
        let mut i: usize = 0;
        assert(dirs.skip(0) =~= dirs);
        while i < dir_names.len()
            invariant
                i <= dir_names@.len(),
                dirs == ranked_names(ranked_views(dir_names@)),
                all == tree_candidates(self@.path, dirs, name.spec_bytes(), prefer_svg),
                first_hit(disk@, all) == first_hit(
                    disk@,
                    tree_candidates(self@.path, dirs.skip(i as int), name.spec_bytes(), prefer_svg),
                ),
            decreases dir_names@.len() - i,
        {
            let dir = join_path(self.path().as_slice(), dir_names[i].0.as_bytes());
            let found = try_build_icon_path(disk, dir.as_slice(), name.as_bytes(), prefer_svg);
            proof {
                let rest = dirs.skip(i as int);
                assert(rest[0] == dir_names@[i as int].0.spec_bytes());
                assert(rest.drop_first() =~= dirs.skip(i + 1));
                lemma_first_hit_append(
                    disk@,
                    directory_candidates(dir@, name.spec_bytes(), prefer_svg),
                    tree_candidates(self@.path, dirs.skip(i + 1), name.spec_bytes(), prefer_svg),
                );
            }
            if found.is_some() {
                return found;
            }
            i += 1;
        }
        None
    }

    /// The directories of the index `file` in the order in which a request
    /// for `size` at `scale` tries them, closest first, each with its
    /// distance and whether it is scalable.
    pub fn closest_match_size<'a>(
        &self,
        file: &'a [u8],
        size: u16,
        scale: u16,
        prefer_svg: bool,
    ) -> (list: Vec<(&'a str, u64, bool)>)
        ensures
            ranked_views(list@) == ranked(
                directories(file@),
                size as int,
                scale as int,
                prefer_svg,
            ),
    {
        let dirs = get_all_directories(file);
        rank_directories(&dirs, size, scale, prefer_svg)
    }

    /// The directories of the index `file` that serve `size` at `scale`
    /// exactly, in the order in which they are tried: the kind that the
    /// caller prefers first, and else as the index declares them.
    pub fn exact_match_size<'a>(
        &self,
        file: &'a [u8],
        size: u16,
        scale: u16,
        prefer_svg: bool,
    ) -> (list: Vec<(&'a str, u64, bool)>)
        ensures
            ranked_views(list@) == ranked(
                exact(directories(file@), size as int, scale as int),
                size as int,
                scale as int,
                prefer_svg,
            ),
    {
        let dirs = get_all_directories(file);
        let mut kept: Vec<Directory<'a>> = Vec::new();
        let mut i: usize = 0;
        assert(views(dirs@).take(0) =~= Seq::empty());
        assert(views(kept@) =~= Seq::empty());
        while i < dirs.len()
            invariant
                i <= dirs@.len(),
                views(kept@) == exact(views(dirs@).take(i as int), size as int, scale as int),
            decreases dirs@.len() - i,
        {
            let dir = dirs[i];
            proof {
                let upto = views(dirs@).take(i + 1);
                assert(upto.drop_last() =~= views(dirs@).take(i as int));
                assert(upto.last() == dir@);
            }
            if dir.matches_size(size, scale) {
                let ghost before = views(kept@);
                kept.push(dir);
                assert(views(kept@) =~= before.push(dir@));
            }
            i += 1;
        }
        assert(views(dirs@).take(i as int) =~= views(dirs@));
        rank_directories(&kept, size, scale, prefer_svg)
    }

    /// Looks for the icon `name` in this theme, whose index holds `file`, in
    /// the directory closest to `size` at `scale` that has it.
    pub fn try_get_icon_closest_size(
        &self,
        disk: &Disk,
        file: &[u8],
        name: &str,
        size: u16,
        scale: u16,
        prefer_svg: bool,
    ) -> (found: Option<Vec<u8>>)
        ensures
            path_view(found) == first_hit(
                disk@,
                tree_candidates(
                    self@.path,
                    ranked_names(ranked(directories(file@), size as int, scale as int, prefer_svg)),
                    name.spec_bytes(),
                    prefer_svg,
                ),
            ),
    {
        let list = self.closest_match_size(file, size, scale, prefer_svg);
        self.try_fold_icon_path(disk, &list, name, prefer_svg)
    }

    /// Looks for the icon `name` in this theme, in the directory closest to
    /// `size` at `scale` that has it. Nothing is found where the index of
    /// the theme cannot be read.
    pub fn try_get_icon(
        &self,
        disk: &Disk,
        name: &str,
        size: u16,
        scale: u16,
        prefer_svg: bool,
    ) -> (found: Option<Vec<u8>>)
        ensures
            path_view(found) == first_hit(
                disk@,
                self@.closest_candidates(
                    disk@,
                    name.spec_bytes(),
                    size as int,
                    scale as int,
                    prefer_svg,
                ),
            ),
    {
        match disk.read(self.index.as_slice()) {
            Some(file) => self.try_get_icon_closest_size(disk, file, name, size, scale, prefer_svg),
            None => {
                proof {
                    lemma_no_directories(size as int, scale as int, prefer_svg);
                }
                None
            },
        }
    }

    /// Looks for the icon `name` in this theme, in the directories that
    /// serve `size` at `scale` exactly. Nothing is found where the index of
    /// the theme cannot be read.
    pub fn try_get_icon_exact_size(
        &self,
        disk: &Disk,
        name: &str,
        size: u16,
        scale: u16,
        prefer_svg: bool,
    ) -> (found: Option<Vec<u8>>)
        ensures
            path_view(found) == first_hit(
                disk@,
                self@.exact_candidates(
                    disk@,
                    name.spec_bytes(),
                    size as int,
                    scale as int,
                    prefer_svg,
                ),
            ),
    {
        match disk.read(self.index.as_slice()) {
            Some(file) => {
                let list = self.exact_match_size(file, size, scale, prefer_svg);
                self.try_fold_icon_path(disk, &list, name, prefer_svg)
            },
            None => {
                proof {
                    lemma_no_directories(size as int, scale as int, prefer_svg);
                }
                None
            },
        }
    }
}

} // verus!
