//! Finds the file of an icon by its name, in the icon themes that are
//! installed.
//!
//! A lookup is built with [`lookup`] and its methods and run with
//! [`LookupBuilder::find`], on the installed themes, the base directories
//! and the disk as values. It goes through the requested theme, the themes
//! that it inherits from and a list of fallback themes for a directory that
//! serves the requested size exactly, then through the same themes for the
//! closest size, and then through the base directories.

use crate::bytes::{
    lemma_first_index, path_views, string_bytes, string_views, trim, trim_ascii, trim_quotes,
    unquoted, utf8_str, utf8_string,
};
use crate::cache::{is_fresh, Cache, CacheEntry, CachedView, KeyView};
use crate::disk::{Disk, DiskView};
use crate::engine::{lemma_closest_all_push, lemma_exact_all_push, theme_refs};
use crate::search::QueryView;
use crate::theme::parse::{
    find_property, hicolor, icon_theme_section, lines, property, theme_properties,
};
use crate::theme::path_view;
use crate::theme::paths::slice_view;
use crate::theme::registry::{by_name, entry_refs, EntryView, RegistryView, ThemeRegistry};
use vstd::prelude::*;
use vstd::string::StringSliceAdditionalSpecFns;
use vstd::utf8::valid_utf8;

pub mod bytes;
pub mod cache;
pub mod disk;
pub mod engine;
pub mod laws;
pub mod pwa;
pub mod search;
pub mod theme;

verus! {

/// A lookup as far as it has been built: what to look for, and how.
pub struct LookupBuilder<'a> {
    name: &'a str,
    cache: bool,
    force_svg: bool,
    scale: u16,
    size: u16,
    theme: &'a str,
}

impl<'a> View for LookupBuilder<'a> {
    type V = QueryView;

    closed spec fn view(&self) -> QueryView {
        QueryView {
            name: self.name.spec_bytes(),
            theme: self.theme.spec_bytes(),
            size: self.size,
            scale: self.scale,
            prefer_svg: self.force_svg,
            cache: self.cache,
        }
    }
}

/// Starts a lookup of the icon `name`: at size 24 and scale 1, in the theme
/// `hicolor`, PNG files before SVG files, without the cache.
pub fn lookup(name: &str) -> (query: LookupBuilder<'_>)
    ensures
        query@ == (QueryView {
            name: name.spec_bytes(),
            theme: hicolor(),
            size: 24,
            scale: 1,
            prefer_svg: false,
            cache: false,
        }),
{
    LookupBuilder::new(name)
}

impl<'a> LookupBuilder<'a> {
    /// Asks for the icon at `size`.
    pub fn with_size(self, size: u16) -> (query: Self)
        ensures
            query@ == (QueryView { size, ..self@ }),
    {
        Self { size, ..self }
    }

    /// Asks for the icon at `scale`.
    pub fn with_scale(self, scale: u16) -> (query: Self)
        ensures
            query@ == (QueryView { scale, ..self@ }),
    {
        Self { scale, ..self }
    }

    /// Asks for the icon of `theme`.
    pub fn with_theme<'b: 'a>(self, theme: &'b str) -> (query: Self)
        ensures
            query@ == (QueryView { theme: theme.spec_bytes(), ..self@ }),
    {
        Self { theme, ..self }
    }

    /// Lets the lookup read the cache before the disk and store what it
    /// finds.
    pub fn with_cache(self) -> (query: Self)
        ensures
            query@ == (QueryView { cache: true, ..self@ }),
    {
        Self { cache: true, ..self }
    }

    /// Puts SVG files before PNG files, and scalable directories before
    /// others that are as close to the requested size.
    pub fn force_svg(self) -> (query: Self)
        ensures
            query@ == (QueryView { prefer_svg: true, ..self@ }),
    {
        Self { force_svg: true, ..self }
    }

    /// A lookup of the icon `name` with nothing else asked for.
    fn new<'b: 'a>(name: &'b str) -> (query: Self)
        ensures
            query@ == (QueryView {
                name: name.spec_bytes(),
                theme: hicolor(),
                size: 24,
                scale: 1,
                prefer_svg: false,
                cache: false,
            }),
    {
        Self { name, cache: false, force_svg: false, scale: 1, size: 24, theme: "hicolor" }
    }

    /// Where the theme that the lookup starts from stands in `themes`.
    fn start(&self, themes: &ThemeRegistry) -> (at: Option<usize>)
        ensures
            at is Some <==> self@.active(themes@) is Some,
            at matches Some(i) ==> i < themes.entries@.len() && themes@.slot(
                themes@.entries[i as int].name,
            ) == i && self@.active(themes@) == Some(themes@.entries[i as int].name),
    {
        proof {
            lemma_first_index(themes@.names(), self@.theme);
            lemma_first_index(themes@.names(), hicolor());
        }
        let own = themes.find(self.theme.as_bytes());
        if own < themes.entries.len() {
            return Some(own);
        }
        let fallback = themes.find("hicolor".as_bytes());
        if fallback < themes.entries.len() {
            Some(fallback)
        } else {
            None
        }
    }

    /// Whether the lookup at `now` reads nothing of the disk: its name is
    /// empty, or it uses the cache and `cache` holds its answer, a path or
    /// a miss that still counts.
    pub fn answered(&self, cache: &Cache, now: u64) -> (yes: bool)
        ensures
            yes == (self@.name.len() == 0 || self@.answered_by(cache.entry(self@.key()), now)),
    {
        if self.name.as_bytes().len() == 0 {
            return true;
        }
        if !self.cache {
            return false;
        }
        match self.cache_lookup(cache, self.theme) {
            CacheEntry::Found(_) => true,
            CacheEntry::NotFound(recorded) => is_fresh(recorded, now),
            CacheEntry::Unknown => false,
        }
    }

    /// Every file that may hold the icon, in the order in which the lookup
    /// tries them; the lookup finds the first of them that exists. None
    /// where the name is empty or there is no theme to start from.
    ///
    /// Of `disk` only the index files of the themes are read. What the
    /// lookup finds depends on the disk through these files and through
    /// which of the listed files exist, and through nothing else: see
    /// `laws::lemma_lookup_reads_its_candidates`.
    pub fn candidates(
        &self,
        themes: &ThemeRegistry,
        base_paths: &Vec<Vec<u8>>,
        disk: &Disk,
    ) -> (files: Vec<Vec<u8>>)
        ensures
            path_views(files@) == if self@.name.len() == 0 || self@.active(themes@) is None {
                Seq::empty()
            } else {
                self@.candidates(themes@, path_views(base_paths@), disk@)
            },
    {
        let mut files: Vec<Vec<u8>> = Vec::new();
        assert(path_views(files@) =~= Seq::empty());
        if self.name.as_bytes().len() == 0 {
            return files;
        }
        let at = match self.start(themes) {
            Some(at) => at,
            None => {
                return files;
            },
        };
        let searched = self.order(themes, disk, at);
        let ghost order = theme_refs(searched@);
        let mut i: usize = 0;
        proof {
            assert(order.take(0) =~= Seq::empty());
            assert(self@.exact_all(disk@, order.take(0)) =~= Seq::empty());
        }
        while i < searched.len()
            invariant
                i <= searched@.len(),
                order == theme_refs(searched@),
                path_views(files@) == self@.exact_all(disk@, order.take(i as int)),
            decreases searched@.len() - i,
        {
            proof {
                lemma_exact_all_push(self@, disk@, order.take(i as int), order[i as int]);
                assert(order.take(i as int).push(order[i as int]) =~= order.take(i + 1));
            }
            searched[i].list_exact_candidates(
                &mut files,
                disk,
                self.name,
                self.size,
                self.scale,
                self.force_svg,
            );
            i += 1;
        }
        let ghost exact = path_views(files@);
        let mut k: usize = 0;
        proof {
            assert(order.take(i as int) =~= order);
            assert(self@.closest_all(disk@, order.take(0)) =~= Seq::empty());
            assert(exact + Seq::<Seq<u8>>::empty() =~= exact);
        }
        while k < searched.len()
            invariant
                k <= searched@.len(),
                order == theme_refs(searched@),
                path_views(files@) == exact + self@.closest_all(disk@, order.take(k as int)),
            decreases searched@.len() - k,
        {
            let ghost before = self@.closest_all(disk@, order.take(k as int));
            proof {
                lemma_closest_all_push(self@, disk@, order.take(k as int), order[k as int]);
                assert(order.take(k as int).push(order[k as int]) =~= order.take(k + 1));
            }
            searched[k].list_closest_candidates(
                &mut files,
                disk,
                self.name,
                self.size,
                self.scale,
                self.force_svg,
            );
            proof {
                let own = order[k as int].closest_candidates(
                    disk@,
                    self@.name,
                    self@.size as int,
                    self@.scale as int,
                    self@.prefer_svg,
                );
                assert((exact + before) + own =~= exact + (before + own));
            }
            k += 1;
        }
        proof {
            assert(order.take(k as int) =~= order);
        }
        self.list_base_paths(&mut files, base_paths);
        self.list_beside(&mut files);
        files
    }


    /// What the cache holds for this lookup in `theme`.
    fn cache_lookup(&self, cache: &Cache, theme: &str) -> (entry: CacheEntry)
        ensures
            entry@ == cache.entry(
                KeyView {
                    theme: theme.spec_bytes(),
                    icon: self@.name,
                    size: self@.size,
                    scale: self@.scale,
                },
            ),
    {
        cache.get(theme, self.size, self.scale, self.name)
    }

    /// Stores the outcome `icon` of this lookup in `theme`, made at `now`,
    /// and hands it back.
    fn store(&self, cache: &mut Cache, theme: &str, icon: Option<Vec<u8>>, now: u64) -> (kept:
        Option<Vec<u8>>)
        ensures
            kept == icon,
            forall|key: KeyView| #[trigger]
                final(cache).entry(key) == if key == (KeyView {
                    theme: theme.spec_bytes(),
                    icon: self@.name,
                    size: self@.size,
                    scale: self@.scale,
                }) {
                    CachedView::of_outcome(path_view(icon), now)
                } else {
                    old(cache).entry(key)
                },
    {
        cache.insert(theme, self.size, self.scale, self.name, &icon, now);
        icon
    }

    /// Drops every entry of `cache`.
    pub fn cache_clear(&mut self, cache: &mut Cache)
        ensures
            *final(self) == *old(self),
            forall|key: KeyView| (#[trigger] final(cache).entry(key)) is Unknown,
    {
        cache.clear();
    }

    /// Makes `cache` forget every miss, however old.
    pub fn cache_reset_none(&mut self, cache: &mut Cache)
        ensures
            *final(self) == *old(self),
            forall|key: KeyView| #[trigger]
                final(cache).entry(key) == old(cache).entry(key).without_miss(),
    {
        cache.reset_none();
    }

    /// Looks in the cache, where the lookup uses it, and then on the disk.
    fn lookup_in_theme(
        &self,
        themes: &ThemeRegistry,
        base_paths: &Vec<Vec<u8>>,
        disk: &Disk,
        cache: &mut Cache,
        now: u64,
    ) -> (found: Option<Vec<u8>>)
        requires
            self@.name.len() > 0,
        ensures
            path_view(found) == self@.answer(
                themes@,
                path_views(base_paths@),
                disk@,
                old(cache).entry(self@.key()),
                now,
            ),
            forall|key: KeyView| #[trigger]
                final(cache).entry(key) == if key == self@.key() {
                    self@.leaves(
                        themes@,
                        path_views(base_paths@),
                        disk@,
                        old(cache).entry(key),
                        now,
                    )
                } else {
                    old(cache).entry(key)
                },
    {
        if self.cache {
            match self.cache_lookup(cache, self.theme) {
                CacheEntry::Found(icon) => {
                    return Some(icon);
                },
                CacheEntry::NotFound(recorded) => {
                    if is_fresh(recorded, now) {
                        return None;
                    }
                },
                CacheEntry::Unknown => {},
            }
        }
        let at = match self.start(themes) {
            Some(at) => at,
            None => {
                return None;
            },
        };
        let icon = self.search(themes, base_paths, disk, at);
        if self.cache {
            self.store(cache, self.theme, icon, now)
        } else {
            icon
        }
    }

    /// Runs the lookup at the time `now`, in milliseconds: on the installed
    /// themes `themes`, the base directories `base_paths` and the disk
    /// `disk`.
    ///
    /// An empty name finds nothing. A lookup with the cache returns what
    /// `cache` holds, a path or a miss that still counts at `now`, and else
    /// stores what it finds on the disk.
    pub fn find(
        self,
        themes: &ThemeRegistry,
        base_paths: &Vec<Vec<u8>>,
        disk: &Disk,
        cache: &mut Cache,
        now: u64,
    ) -> (found: Option<Vec<u8>>)
        ensures
            path_view(found) == self@.answer(
                themes@,
                path_views(base_paths@),
                disk@,
                old(cache).entry(self@.key()),
                now,
            ),
            forall|key: KeyView| #[trigger]
                final(cache).entry(key) == if key == self@.key() {
                    self@.leaves(
                        themes@,
                        path_views(base_paths@),
                        disk@,
                        old(cache).entry(key),
                        now,
                    )
                } else {
                    old(cache).entry(key)
                },
    {
        if self.name.as_bytes().len() == 0 {
            return None;
        }
        self.lookup_in_theme(themes, base_paths, disk, cache, now)
    }
}

/// The name that the index `file` gives its theme for display: the value of
/// the first `Name` of its section `Icon Theme`, without the whitespace at
/// its ends, where that is text.
pub open spec fn display_name(file: Seq<u8>) -> Option<Seq<u8>> {
    match property(theme_properties(lines(file), false), "Name".spec_bytes()) {
        Some(value) => if valid_utf8(trim(value)) {
            Some(trim(value))
        } else {
            None
        },
        None => None,
    }
}

/// The name for display of the theme whose index is the file `index`; none
/// where the file cannot be read.
pub open spec fn display_name_at(disk: DiskView, index: Seq<u8>) -> Option<Seq<u8>> {
    match disk.read(index) {
        Some(file) => display_name(file),
        None => None,
    }
}

/// The name for display of the theme of each of `entries` that has one, as
/// the index of its first installation gives it.
pub open spec fn display_names(entries: Seq<EntryView>, disk: DiskView) -> Seq<Seq<u8>>
    decreases entries.len(),
{
    if entries.len() == 0 {
        Seq::empty()
    } else {
        let before = display_names(entries.drop_last(), disk);
        if entries.last().themes.len() > 0 {
            match display_name_at(disk, entries.last().themes[0].index) {
                Some(name) => before.push(name),
                None => before,
            }
        } else {
            before
        }
    }
}

/// The bytes of the name, where there is one.
pub open spec fn string_view(name: Option<String>) -> Option<Seq<u8>> {
    match name {
        Some(n) => Some(string_bytes(n)),
        None => None,
    }
}

/// Reads the name for display of the theme whose index is the file `index`.
fn read_display_name(disk: &Disk, index: &[u8]) -> (name: Option<String>)
    ensures
        string_view(name) == display_name_at(disk@, index@),
{
    let file = match disk.read(index) {
        Some(file) => file,
        None => {
            return None;
        },
    };
    let properties = icon_theme_section(file);
    match find_property(&properties, "Name".as_bytes()) {
        Some(value) => utf8_string(trim_ascii(value)),
        None => None,
    }
}

/// The names for display of the installed themes, one for each theme that
/// has one, in the order of the names of the themes' directories.
pub fn list_themes(themes: &ThemeRegistry, disk: &Disk) -> (names: Vec<String>)
    ensures
        string_views(names@) == display_names(by_name(themes@.entries), disk@),
{
    let sorted = themes.sorted();
    let mut names: Vec<String> = Vec::new();
    let mut i: usize = 0;
    let ghost entries = entry_refs(sorted@);
    assert(entries.take(0) =~= Seq::empty());
    assert(string_views(names@) =~= Seq::empty());
    while i < sorted.len()
        invariant
            i <= sorted@.len(),
            entries == entry_refs(sorted@),
            string_views(names@) == display_names(entries.take(i as int), disk@),
        decreases sorted@.len() - i,
    {
        let entry = sorted[i];
        proof {
            let upto = entries.take(i + 1);
            assert(upto.drop_last() =~= entries.take(i as int));
            assert(upto.last() == entry@);
        }
        if entry.themes.len() > 0 {
            assert(entry@.themes[0] == entry.themes@[0]@);
            match read_display_name(disk, entry.themes[0].index.as_slice()) {
                Some(name) => {
                    let ghost before = string_views(names@);
                    names.push(name);
                    assert(string_views(names@) =~= before.push(string_bytes(name)));
                },
                None => {},
            }
        }
        i += 1;
    }
    assert(entries.take(i as int) =~= entries);
    names
}

/// The name for display of the theme that the desktop is set to, as the
/// settings tool printed it in `output`: the name of a theme between single
/// quotes.
///
/// There is none where the tool did not run or failed, so that `output` is
/// `None`, where what it printed is no text, and where the theme it names
/// is not installed or has no name for display.
pub open spec fn desktop_theme(
    output: Option<Seq<u8>>,
    reg: RegistryView,
    disk: DiskView,
) -> Option<Seq<u8>> {
    match output {
        Some(printed) => if valid_utf8(printed) {
            match reg.canonical_index(unquoted(trim(printed))) {
                Some(index) => display_name_at(disk, index),
                None => None,
            }
        } else {
            None
        },
        None => None,
    }
}

/// The name for display of the theme that the desktop is set to, where
/// `output` holds what `gsettings get org.gnome.desktop.interface
/// icon-theme` printed.
pub fn default_theme_gtk(
    output: Option<&[u8]>,
    themes: &ThemeRegistry,
    disk: &Disk,
) -> (name: Option<String>)
    ensures
        string_view(name) == desktop_theme(slice_view(output), themes@, disk@),
{
    let printed = match output {
        Some(printed) => printed,
        None => {
            return None;
        },
    };
    if utf8_str(printed).is_none() {
        return None;
    }
    let theme = trim_quotes(trim_ascii(printed));
    match themes.get(theme) {
        Some(list) => if list.len() > 0 {
            assert(themes@.themes(theme@)[0] == list@[0]@);
            read_display_name(disk, list[0].index.as_slice())
        } else {
            None
        },
        None => None,
    }
}

} // verus!
