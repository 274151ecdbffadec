//! The themes that are installed, by name, found by one scan of the base
//! directories.

use crate::bytes::{
    bytes_eq, bytes_less, first_index, join, join_path, lemma_first_index,
    lemma_first_index_unique, lemma_lex_total, lemma_lex_transitive, lex_less, path_views,
};
use crate::disk::{child_name, slice_views, Disk, DiskView};
use crate::theme::paths::ThemePath;
use crate::theme::{Theme, ThemeView};
use vstd::prelude::*;
use vstd::slice::{slice_subrange, slice_to_vec};
use vstd::string::StringSliceAdditionalSpecFns;

verus! {

/// The installations of one theme, in the order in which they were found.
#[derive(Debug)]
pub struct ThemeEntry {
    pub name: Vec<u8>,
    pub themes: Vec<Theme>,
}

/// What a `ThemeEntry` is.
pub struct EntryView {
    pub name: Seq<u8>,
    pub themes: Seq<ThemeView>,
}

/// What each theme of `list` is.
pub open spec fn theme_views(list: Seq<Theme>) -> Seq<ThemeView> {
    list.map_values(|t: Theme| t@)
}

impl View for ThemeEntry {
    type V = EntryView;

    open spec fn view(&self) -> EntryView {
        EntryView { name: self.name@, themes: theme_views(self.themes@) }
    }
}

/// The installed themes by name. Where a name stands twice, the first entry
/// counts.
#[derive(Debug)]
pub struct ThemeRegistry {
    pub entries: Vec<ThemeEntry>,
}

/// What a `ThemeRegistry` is: its entries, in order.
pub struct RegistryView {
    pub entries: Seq<EntryView>,
}

impl View for ThemeRegistry {
    type V = RegistryView;

    open spec fn view(&self) -> RegistryView {
        RegistryView { entries: self.entries@.map_values(|e: ThemeEntry| e@) }
    }
}

impl RegistryView {
    /// The names of the entries, in order.
    pub open spec fn names(self) -> Seq<Seq<u8>> {
        self.entries.map_values(|e: EntryView| e.name)
    }

    /// Where the entry of `name` stands, or `entries.len()` without one.
    pub open spec fn slot(self, name: Seq<u8>) -> int {
        first_index(self.names(), name)
    }

    /// Whether a theme of that name is installed.
    pub open spec fn has(self, name: Seq<u8>) -> bool {
        self.slot(name) < self.entries.len()
    }

    /// The installations of the theme `name`; none where it is not
    /// installed.
    pub open spec fn themes(self, name: Seq<u8>) -> Seq<ThemeView> {
        if self.has(name) {
            self.entries[self.slot(name)].themes
        } else {
            Seq::empty()
        }
    }

    /// The index file of the first installation of `name`, which stands in
    /// for installations that have none of their own.
    pub open spec fn canonical_index(self, name: Seq<u8>) -> Option<Seq<u8>> {
        if self.themes(name).len() > 0 {
            Some(self.themes(name)[0].index)
        } else {
            None
        }
    }

    /// The registry with one more installation of `name`, behind those it
    /// has.
    pub open spec fn with(self, name: Seq<u8>, theme: ThemeView) -> RegistryView {
        if self.has(name) {
            let at = self.slot(name);
            RegistryView {
                entries: self.entries.update(
                    at,
                    EntryView { name, themes: self.entries[at].themes.push(theme) },
                ),
            }
        } else {
            RegistryView { entries: self.entries.push(EntryView { name, themes: seq![theme] }) }
        }
    }
}

/// `sorted` with `entry` put where its name belongs in the order of byte
/// strings; where an entry of that name is there already, that one stays
/// and `entry` is left out.
pub open spec fn put_by_name(sorted: Seq<EntryView>, entry: EntryView) -> Seq<EntryView>
    decreases sorted.len(),
{
    if sorted.len() == 0 {
        seq![entry]
    } else if lex_less(entry.name, sorted.last().name) {
        put_by_name(sorted.drop_last(), entry).push(sorted.last())
    } else if sorted.last().name == entry.name {
        sorted
    } else {
        sorted.push(entry)
    }
}

/// `entries` in the order of their names, each name once: of entries with
/// the same name the first one.
pub open spec fn by_name(entries: Seq<EntryView>) -> Seq<EntryView>
    decreases entries.len(),
{
    if entries.len() == 0 {
        Seq::empty()
    } else {
        put_by_name(by_name(entries.drop_last()), entries.last())
    }
}

/// Whether the names of `entries` stand in rising order, so that none
/// stands twice.
pub open spec fn in_name_order(entries: Seq<EntryView>) -> bool {
    forall|i: int, j: int|
        0 <= i < j < entries.len() ==> lex_less(
            (#[trigger] entries[i]).name,
            (#[trigger] entries[j]).name,
        )
}

/// Putting an entry where it belongs keeps the order of the names, and
/// adds no entry but that one.
proof fn lemma_put_keeps_order(sorted: Seq<EntryView>, entry: EntryView)
    requires
        in_name_order(sorted),
    ensures
        in_name_order(put_by_name(sorted, entry)),
        forall|e: EntryView| #[trigger]
            put_by_name(sorted, entry).contains(e) ==> e == entry || sorted.contains(e),
    decreases sorted.len(),
{
    let out = put_by_name(sorted, entry);
    if sorted.len() == 0 {
    } else if lex_less(entry.name, sorted.last().name) {
        let front = sorted.drop_last();
        assert forall|i: int, j: int| 0 <= i < j < front.len() implies lex_less(
            (#[trigger] front[i]).name,
            (#[trigger] front[j]).name,
        ) by {
            assert(lex_less(sorted[i].name, sorted[j].name));
        }
        lemma_put_keeps_order(front, entry);
        let inner = put_by_name(front, entry);
        assert forall|i: int, j: int| 0 <= i < j < out.len() implies lex_less(
            (#[trigger] out[i]).name,
            (#[trigger] out[j]).name,
        ) by {
            if j == inner.len() {
                assert(inner.contains(inner[i]));
                if inner[i] != entry {
                    let k = choose|k: int| 0 <= k < front.len() && front[k] == inner[i];
                    assert(lex_less(sorted[k].name, sorted[sorted.len() - 1].name));
                }
            } else {
                assert(lex_less(inner[i].name, inner[j].name));
            }
        }
        assert forall|e: EntryView| out.contains(e) implies e == entry || sorted.contains(e) by {
            let i = choose|i: int| 0 <= i < out.len() && out[i] == e;
            if i < inner.len() {
                assert(inner.contains(e));
                if e != entry {
                    let k = choose|k: int| 0 <= k < front.len() && front[k] == e;
                    assert(sorted[k] == e);
                }
            } else {
                assert(sorted[sorted.len() - 1] == e);
            }
        }
    } else if sorted.last().name == entry.name {
    } else {
        lemma_lex_total(sorted.last().name, entry.name);
        assert forall|i: int, j: int| 0 <= i < j < out.len() implies lex_less(
            (#[trigger] out[i]).name,
            (#[trigger] out[j]).name,
        ) by {
            if j == sorted.len() {
                if i < sorted.len() - 1 {
                    assert(lex_less(sorted[i].name, sorted[sorted.len() - 1].name));
                    lemma_lex_transitive(sorted[i].name, sorted.last().name, entry.name);
                }
            } else {
                assert(lex_less(sorted[i].name, sorted[j].name));
            }
        }
        assert forall|e: EntryView| out.contains(e) implies e == entry || sorted.contains(e) by {
            let i = choose|i: int| 0 <= i < out.len() && out[i] == e;
            if i < sorted.len() {
                assert(sorted[i] == e);
            }
        }
    }
}

/// The entries by name stand in the rising order of their names, and each
/// of them is an entry of the registry.
pub proof fn lemma_by_name_ordered(entries: Seq<EntryView>)
    ensures
        in_name_order(by_name(entries)),
        forall|e: EntryView| #[trigger] by_name(entries).contains(e) ==> entries.contains(e),
    decreases entries.len(),
{
    if entries.len() > 0 {
        let front = entries.drop_last();
        lemma_by_name_ordered(front);
        lemma_put_keeps_order(by_name(front), entries.last());
        assert forall|e: EntryView| #[trigger]
            by_name(entries).contains(e) implies entries.contains(e) by {
            if e == entries.last() {
                assert(entries[entries.len() - 1] == e);
            } else {
                assert(by_name(front).contains(e));
                let k = choose|k: int| 0 <= k < front.len() && front[k] == e;
                assert(entries[k] == e);
            }
        }
    }
}

/// Putting an entry at `at` is `put_by_name` where every entry from `at`
/// on has a name that comes after its name and the one before `at` has
/// not; it is left out where the one before `at` has its name.
proof fn lemma_put_at(sorted: Seq<EntryView>, entry: EntryView, at: int)
    requires
        0 <= at <= sorted.len(),
        forall|j: int| at <= j < sorted.len() ==> lex_less(entry.name, (#[trigger] sorted[j]).name),
        at > 0 ==> !lex_less(entry.name, sorted[at - 1].name),
    ensures
        put_by_name(sorted, entry) == if at > 0 && sorted[at - 1].name == entry.name {
            sorted
        } else {
            sorted.insert(at, entry)
        },
    decreases sorted.len(),
{
    if sorted.len() == 0 {
        assert(sorted.insert(0, entry) =~= seq![entry]);
    } else if at == sorted.len() {
        assert(sorted.insert(at, entry) =~= sorted.push(entry));
    } else {
        assert(lex_less(entry.name, sorted[sorted.len() - 1].name));
        lemma_put_at(sorted.drop_last(), entry, at);
        if at > 0 && sorted[at - 1].name == entry.name {
            assert(sorted.drop_last().push(sorted.last()) =~= sorted);
        } else {
            assert(sorted.drop_last().insert(at, entry).push(sorted.last()) =~= sorted.insert(
                at,
                entry,
            ));
        }
    }
}

/// What each entry of `list` is.
pub open spec fn entry_refs(list: Seq<&ThemeEntry>) -> Seq<EntryView> {
    list.map_values(|e: &ThemeEntry| e@)
}

/// The index file that a theme in `path` has of its own.
pub open spec fn index_file(path: Seq<u8>) -> Seq<u8> {
    join(path, "index.theme".spec_bytes())
}

/// The theme installed at `path`: there is one where `path` is a directory
/// with an index. Its index is its own file `index.theme` where that exists,
/// and else `fallback`.
pub open spec fn theme_at(disk: DiskView, path: Seq<u8>, fallback: Option<Seq<u8>>) -> Option<
    ThemeView,
> {
    if !disk.is_dir(path) {
        None
    } else if disk.has(index_file(path)) {
        Some(ThemeView { path, index: index_file(path) })
    } else {
        match fallback {
            Some(index) => Some(ThemeView { path, index }),
            None => None,
        }
    }
}

/// A scan of the base directories as far as it has come: the themes found,
/// and the directories without an index of their own that had no fallback
/// when they were seen, each with the base directory it lies in.
pub struct ScanView {
    pub found: RegistryView,
    pub later: Seq<(Seq<u8>, Seq<u8>)>,
}

impl ScanView {
    /// The scan after it has looked at `child`, which lies in `base`.
    pub open spec fn step(self, disk: DiskView, base: Seq<u8>, child: Seq<u8>) -> ScanView {
        let name = child_name(base, child);
        match theme_at(disk, child, self.found.canonical_index(name)) {
            Some(theme) => ScanView { found: self.found.with(name, theme), ..self },
            None => if disk.is_dir(child) {
                ScanView { later: self.later.push((base, child)), ..self }
            } else {
                self
            },
        }
    }

    /// The scan after it has looked at each of `children`, which lie in
    /// `base`.
    pub open spec fn steps(self, disk: DiskView, base: Seq<u8>, children: Seq<Seq<u8>>) -> ScanView
        decreases children.len(),
    {
        if children.len() == 0 {
            self
        } else {
            self.step(disk, base, children[0]).steps(disk, base, children.drop_first())
        }
    }

    /// The scan after it has gone through each of `bases`.
    pub open spec fn bases(self, disk: DiskView, bases: Seq<Seq<u8>>) -> ScanView
        decreases bases.len(),
    {
        if bases.len() == 0 {
            self
        } else {
            self.steps(disk, bases[0], disk.children(bases[0])).bases(disk, bases.drop_first())
        }
    }
}

/// The themes found once the directories in `later` have had their second
/// look: by then a theme of their name may lend them its index.
pub open spec fn revisited(found: RegistryView, disk: DiskView, later: Seq<(Seq<u8>, Seq<u8>)>)
    -> RegistryView
    decreases later.len(),
{
    if later.len() == 0 {
        found
    } else {
        let name = child_name(later[0].0, later[0].1);
        let next = match theme_at(disk, later[0].1, found.canonical_index(name)) {
            Some(theme) => found.with(name, theme),
            None => found,
        };
        revisited(next, disk, later.drop_first())
    }
}

/// The themes installed below the base directories `bases`, each under the
/// name of its directory.
///
/// Every directory that lies directly in a base directory and has an index
/// is a theme. The first installation of a name lends its index to those of
/// the same name that have none, also to those seen before it.
pub open spec fn installed(bases: Seq<Seq<u8>>, disk: DiskView) -> RegistryView {
    let nothing = ScanView { found: RegistryView { entries: Seq::empty() }, later: Seq::empty() };
    let scan = nothing.bases(disk, bases);
    revisited(scan.found, disk, scan.later)
}

/// The path of the index file that a theme in `dir` has of its own.
pub fn index_path(dir: &[u8]) -> (index: Vec<u8>)
    ensures
        index@ == index_file(dir@),
{
    join_path(dir, "index.theme".as_bytes())
}

impl Theme {
    /// The theme installed at `path`, with the index file `index` where it
    /// has none of its own.
    pub fn from_path(disk: &Disk, path: &[u8], index: Option<&Vec<u8>>) -> (theme: Option<Theme>)
        ensures
            match theme {
                Some(t) => theme_at(
                    disk@,
                    path@,
                    match index {
                        Some(i) => Some(i@),
                        None => None,
                    },
                ) == Some(t@),
                None => theme_at(
                    disk@,
                    path@,
                    match index {
                        Some(i) => Some(i@),
                        None => None,
                    },
                ) is None,
            },
    {
        if !disk.is_dir(path) {
            return None;
        }
        let own = index_path(path);
        if disk.has(own.as_slice()) {
            return Some(Theme { path: ThemePath(slice_to_vec(path)), index: own });
        }
        match index {
            Some(index) => {
                let index = slice_to_vec(index.as_slice());
                Some(Theme { path: ThemePath(slice_to_vec(path)), index })
            },
            None => None,
        }
    }
}

impl ThemeRegistry {
    /// A registry without themes.
    pub fn new() -> (registry: ThemeRegistry)
        ensures
            registry@.entries.len() == 0,
    {
        let registry = ThemeRegistry { entries: Vec::new() };
        assert(registry@.entries =~= Seq::empty());
        registry
    }

    /// Where the entry of `name` stands.
    pub fn find(&self, name: &[u8]) -> (slot: usize)
        ensures
            slot == self@.slot(name@),
            slot <= self.entries@.len(),
    {
        let mut i: usize = 0;
        while i < self.entries.len()
            invariant
                i <= self.entries@.len(),
                forall|j: int| 0 <= j < i ==> self@.names()[j] != name@,
            decreases self.entries@.len() - i,
        {
            if bytes_eq(self.entries[i].name.as_slice(), name) {
                proof {
                    lemma_first_index_unique(self@.names(), name@, i as int);
                }
                return i;
            }
            i += 1;
        }
        proof {
            lemma_first_index_unique(self@.names(), name@, i as int);
        }
        i
    }

    /// The entries in the order of their names, each name once.
    pub fn sorted(&self) -> (list: Vec<&ThemeEntry>)
        ensures
            entry_refs(list@) == by_name(self@.entries),
    {
        let mut list: Vec<&ThemeEntry> = Vec::new();
        let mut i: usize = 0;
        let ghost all = self@.entries;
        assert(all.take(0) =~= Seq::empty());
        assert(entry_refs(list@) =~= Seq::empty());
        while i < self.entries.len()
            invariant
                i <= self.entries@.len(),
                all == self@.entries,
                entry_refs(list@) == by_name(all.take(i as int)),
            decreases self.entries@.len() - i,
        {
            let entry = &self.entries[i];
            let mut at: usize = list.len();
            while at > 0 && bytes_less(entry.name.as_slice(), list[at - 1].name.as_slice())
                invariant
                    at <= list@.len(),
                    forall|j: int|
                        at <= j < list@.len() ==> lex_less(
                            entry@.name,
                            (#[trigger] entry_refs(list@)[j]).name,
                        ),
                decreases at,
            {
                at -= 1;
            }
            proof {
                let upto = all.take(i + 1);
                assert(upto.drop_last() =~= all.take(i as int));
                assert(upto.last() == entry@);
                if at > 0 {
                    assert(entry_refs(list@)[at - 1].name == list@[at - 1].name@);
                }
                lemma_put_at(entry_refs(list@), entry@, at as int);
            }
            if at > 0 && bytes_eq(list[at - 1].name.as_slice(), entry.name.as_slice()) {
            } else {
                let ghost before = list@;
                list.insert(at, entry);
                assert(entry_refs(list@) =~= entry_refs(before).insert(at as int, entry@));
            }
            i += 1;
        }
        assert(all.take(i as int) =~= all);
        list
    }

    /// The installations of the theme `name`.
    pub fn get(&self, name: &[u8]) -> (themes: Option<&Vec<Theme>>)
        ensures
            themes is Some <==> self@.has(name@),
            themes matches Some(list) ==> theme_views(list@) == self@.themes(name@),
    {
        let slot = self.find(name);
        if slot < self.entries.len() {
            Some(&self.entries[slot].themes)
        } else {
            None
        }
    }

    /// Adds an installation of `name`, behind those there are.
    pub fn insert(&mut self, name: &[u8], theme: Theme)
        ensures
            final(self)@ == old(self)@.with(name@, theme@),
    {
        let slot = self.find(name);
        if slot < self.entries.len() {
            let ghost before = self.entries@[slot as int];
            let mut entry = self.entries.remove(slot);
            entry.themes.push(theme);
            assert(theme_views(entry.themes@) =~= theme_views(before.themes@).push(theme@));
            proof {
                lemma_first_index(old(self)@.names(), name@);
                assert(old(self)@.names()[slot as int] == name@);
            }
            self.entries.insert(slot, entry);
            assert(self@.entries =~= old(self)@.with(name@, theme@).entries);
        } else {
            let mut themes: Vec<Theme> = Vec::new();
            themes.push(theme);
            assert(theme_views(themes@) =~= seq![theme@]);
            self.entries.push(ThemeEntry { name: slice_to_vec(name), themes });
            assert(self@.entries =~= old(self)@.with(name@, theme@).entries);
        }
    }

    /// The index file that installations of `name` without one of their own
    /// go by.
    fn canonical_index(&self, name: &[u8]) -> (index: Option<&Vec<u8>>)
        ensures
            match index {
                Some(i) => self@.canonical_index(name@) == Some(i@),
                None => self@.canonical_index(name@) is None,
            },
    {
        match self.get(name) {
            Some(themes) => if themes.len() > 0 {
                Some(&themes[0].index)
            } else {
                None
            },
            None => None,
        }
    }
}

/// The part of `child` behind the directory `base` that it lies in.
fn name_in<'a>(base: &[u8], child: &'a [u8]) -> (name: &'a [u8])
    ensures
        name@ == child_name(base@, child@),
{
    let bare: bool = base.len() == 0 || base[base.len() - 1] == crate::bytes::SLASH;
    let least: usize = child.len();
    let start: usize = if bare {
        base.len()
    } else if base.len() < least {
        base.len() + 1
    } else {
        least
    };
    let from: usize = if start <= least {
        start
    } else {
        least
    };
    let name = slice_subrange(child, from, child.len());
    assert(name@ =~= child_name(base@, child@));
    name
}

/// Scans the base directories for installed themes.
pub fn get_all_themes(base_paths: &Vec<Vec<u8>>, disk: &Disk) -> (registry: ThemeRegistry)
    ensures
        registry@ == installed(path_views(base_paths@), disk@),
{
    let mut registry = ThemeRegistry::new();
    let mut later: Vec<(&[u8], &[u8])> = Vec::new();
    let ghost bases = path_views(base_paths@);
    let ghost start = ScanView {
        found: RegistryView { entries: Seq::empty() },
        later: Seq::empty(),
    };
    let mut b: usize = 0;
    assert(registry@.entries =~= start.found.entries);
    assert(later_views(later@) =~= start.later);
    assert(bases.skip(0) =~= bases);
    while b < base_paths.len()
        invariant
            b <= base_paths@.len(),
            bases == path_views(base_paths@),
            start.bases(disk@, bases) == (ScanView {
                found: registry@,
                later: later_views(later@),
            }).bases(disk@, bases.skip(b as int)),
        decreases base_paths@.len() - b,
    {
        let base = base_paths[b].as_slice();
        let children = disk.read_dir(base);
        let mut c: usize = 0;
        let ghost entered = ScanView { found: registry@, later: later_views(later@) };
        let ghost listed = slice_views(children@);
        proof {
            assert(bases.skip(b as int)[0] == base@);
            assert(bases.skip(b as int).drop_first() =~= bases.skip(b + 1));
            assert(listed.skip(0) =~= listed);
        }
        while c < children.len()
            invariant
                c <= children@.len(),
                listed == slice_views(children@),
                entered.steps(disk@, base@, listed) == (ScanView {
                    found: registry@,
                    later: later_views(later@),
                }).steps(disk@, base@, listed.skip(c as int)),
            decreases children@.len() - c,
        {
            let child = children[c];
            let name = name_in(base, child);
            proof {
                assert(listed.skip(c as int)[0] == child@);
                assert(listed.skip(c as int).drop_first() =~= listed.skip(c + 1));
            }
            let theme = Theme::from_path(disk, child, registry.canonical_index(name));
            match theme {
                Some(theme) => {
                    registry.insert(name, theme);
                },
                None => {
                    if disk.is_dir(child) {
                        let ghost before = later_views(later@);
                        later.push((base, child));
                        assert(later_views(later@) =~= before.push((base@, child@)));
                    }
                },
            }
            c += 1;
        }
        b += 1;
    }
    let mut i: usize = 0;
    let ghost scan = start.bases(disk@, bases);
    assert(later_views(later@).skip(0) =~= later_views(later@));
    while i < later.len()
        invariant
            i <= later@.len(),
            revisited(scan.found, disk@, scan.later) == revisited(
                registry@,
                disk@,
                later_views(later@).skip(i as int),
            ),
        decreases later@.len() - i,
    {
        let base = later[i].0;
        let child = later[i].1;
        let name = name_in(base, child);
        proof {
            let rest = later_views(later@).skip(i as int);
            assert(rest[0] == (base@, child@));
            assert(rest.drop_first() =~= later_views(later@).skip(i + 1));
        }
        let theme = Theme::from_path(disk, child, registry.canonical_index(name));
        match theme {
            Some(theme) => {
                registry.insert(name, theme);
            },
            None => {},
        }
        i += 1;
    }
    registry
}

/// What each pair of a base directory and a directory in it holds.
pub open spec fn later_views(list: Seq<(&[u8], &[u8])>) -> Seq<(Seq<u8>, Seq<u8>)> {
    list.map_values(|p: (&[u8], &[u8])| (p.0@, p.1@))
}

} // verus!
