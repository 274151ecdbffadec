//! Where themes are: the directory of one theme, and the base directories
//! that hold themes and loose icons.

use crate::bytes::{join, join_path};
use crate::disk::{Disk, DiskView};
use crate::bytes::path_views;
use vstd::prelude::*;
use vstd::string::StringSliceAdditionalSpecFns;

verus! {

/// The directory of one installed theme.
#[derive(Debug, Clone)]
pub struct ThemePath(pub Vec<u8>);

impl View for ThemePath {
    type V = Seq<u8>;

    open spec fn view(&self) -> Seq<u8> {
        self.0@
    }
}

/// The two places for icons in a data directory: `icons` and `pixmaps`.
pub open spec fn icon_dirs(data_dir: Seq<u8>) -> Seq<Seq<u8>> {
    seq![join(data_dir, "icons".spec_bytes()), join(data_dir, "pixmaps".spec_bytes())]
}

/// The places for icons in each of `data_dirs`, in their order.
pub open spec fn icon_dirs_of(data_dirs: Seq<Seq<u8>>) -> Seq<Seq<u8>>
    decreases data_dirs.len(),
{
    if data_dirs.len() == 0 {
        Seq::empty()
    } else {
        icon_dirs_of(data_dirs.drop_last()) + icon_dirs(data_dirs.last())
    }
}

/// The directories that may hold themes and loose icons: `icons` and
/// `pixmaps` in each of the shared data directories and then in the data
/// directory of the user, and `.icons` in the home directory.
pub open spec fn base_candidates(
    data_dirs: Seq<Seq<u8>>,
    data_home: Option<Seq<u8>>,
    home: Option<Seq<u8>>,
) -> Seq<Seq<u8>> {
    icon_dirs_of(data_dirs) + (match data_home {
        Some(dir) => icon_dirs(dir),
        None => Seq::empty(),
    }) + (match home {
        Some(dir) => seq![join(dir, ".icons".spec_bytes())],
        None => Seq::empty(),
    })
}

/// Those of `paths` that exist on `disk`, in order.
pub open spec fn existing(disk: DiskView, paths: Seq<Seq<u8>>) -> Seq<Seq<u8>>
    decreases paths.len(),
{
    if paths.len() == 0 {
        Seq::empty()
    } else if disk.has(paths.last()) {
        existing(disk, paths.drop_last()).push(paths.last())
    } else {
        existing(disk, paths.drop_last())
    }
}

/// The bytes of the path, where there is one.
pub open spec fn slice_view(path: Option<&[u8]>) -> Option<Seq<u8>> {
    match path {
        Some(p) => Some(p@),
        None => None,
    }
}

/// The directories that may hold themes and loose icons, whether they
/// exist or not.
pub fn base_path_candidates(
    data_dirs: &Vec<Vec<u8>>,
    data_home: Option<&[u8]>,
    home: Option<&[u8]>,
) -> (all: Vec<Vec<u8>>)
    ensures
        path_views(all@) == base_candidates(
            path_views(data_dirs@),
            slice_view(data_home),
            slice_view(home),
        ),
{
    let mut all: Vec<Vec<u8>> = Vec::new();
    let mut i: usize = 0;
    assert(path_views(data_dirs@).take(0) =~= Seq::empty());
    assert(path_views(all@) =~= Seq::empty());
    while i < data_dirs.len()
        invariant
            i <= data_dirs@.len(),
            path_views(all@) == icon_dirs_of(path_views(data_dirs@).take(i as int)),
        decreases data_dirs@.len() - i,
    {
        let ghost before = path_views(all@);
        let dir = data_dirs[i].as_slice();
        all.push(join_path(dir, "icons".as_bytes()));
        all.push(join_path(dir, "pixmaps".as_bytes()));
        proof {
            let upto = path_views(data_dirs@).take(i + 1);
            assert(upto.drop_last() =~= path_views(data_dirs@).take(i as int));
            assert(upto.last() == dir@);
            assert(path_views(all@) =~= before + icon_dirs(dir@));
        }
        i += 1;
    }
    assert(path_views(data_dirs@).take(i as int) =~= path_views(data_dirs@));
    let ghost shared = path_views(all@);
    match data_home {
        Some(dir) => {
            all.push(join_path(dir, "icons".as_bytes()));
            all.push(join_path(dir, "pixmaps".as_bytes()));
            assert(path_views(all@) =~= shared + icon_dirs(dir@));
        },
        None => {
            assert(path_views(all@) =~= shared + Seq::empty());
        },
    }
    let ghost data = path_views(all@);
    match home {
        Some(dir) => {
            all.push(join_path(dir, ".icons".as_bytes()));
            assert(path_views(all@) =~= data + seq![join(dir@, ".icons".spec_bytes())]);
        },
        None => {
            assert(path_views(all@) =~= data + Seq::empty());
        },
    }
    all
}

/// The base directories of a lookup: those of the directories that may
/// hold themes and loose icons that exist.
pub fn icon_theme_base_paths(
    data_dirs: &Vec<Vec<u8>>,
    data_home: Option<&[u8]>,
    home: Option<&[u8]>,
    disk: &Disk,
) -> (base_paths: Vec<Vec<u8>>)
    ensures
        path_views(base_paths@) == existing(
            disk@,
            base_candidates(path_views(data_dirs@), slice_view(data_home), slice_view(home)),
        ),
{
    let all = base_path_candidates(data_dirs, data_home, home);
    let mut base_paths: Vec<Vec<u8>> = Vec::new();
    let mut k: usize = 0;
    let ghost candidates = path_views(all@);
    assert(candidates.take(0) =~= Seq::empty());
    assert(path_views(base_paths@) =~= Seq::empty());
    while k < all.len()
        invariant
            k <= all@.len(),
            candidates == path_views(all@),
            path_views(base_paths@) == existing(disk@, candidates.take(k as int)),
        decreases all@.len() - k,
    {
        proof {
            let upto = candidates.take(k + 1);
            assert(upto.drop_last() =~= candidates.take(k as int));
            assert(upto.last() == all@[k as int]@);
        }
        if disk.has(all[k].as_slice()) {
            let ghost before = path_views(base_paths@);
            base_paths.push(vstd::slice::slice_to_vec(all[k].as_slice()));
            assert(path_views(base_paths@) =~= before.push(all@[k as int]@));
        }
        k += 1;
    }
    assert(candidates.take(k as int) =~= candidates);
    base_paths
}

} // verus!
