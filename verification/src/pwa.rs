//! Icons of packaged web applications, which carry a 32-letter application
//! id in their file names instead of an icon name.

use crate::bytes::{
    append, bytes_eq, contains_bytes, contains_run, decimal_digits, find_last, join, join_path,
    last_index, lemma_ascii_is_text, lemma_decimal_digits, lower, string_bytes, string_views,
    to_decimal, to_lower, utf8_str, utf8_string, DOT, SLASH,
};
use crate::cache::{fresh, is_fresh, Cache, CacheEntry, CachedView, KeyView};
use crate::disk::{slice_views, Disk, DiskView};
use crate::bytes::path_views;
use crate::theme::{first_hit, lemma_first_hit_append, path_view};
use vstd::prelude::*;
use vstd::slice::{slice_subrange, slice_to_vec};
use vstd::string::StringSliceAdditionalSpecFns;
use vstd::utf8::valid_utf8;

verus! {

/// How many letters an application id has.
pub const CRX_LEN: usize = 32;

/// Whether `b` is a letter of application ids: `a` to `p`.
pub open spec fn is_id_letter(b: u8) -> bool {
    97 <= b <= 112
}

/// Whether `s` is an application id: 32 letters from `a` to `p`.
pub open spec fn is_crx(s: Seq<u8>) -> bool {
    s.len() == CRX_LEN && forall|j: int| 0 <= j < s.len() ==> is_id_letter(#[trigger] s[j])
}

/// Whether an application id stands in `bytes` at `at`.
pub open spec fn crx_at(bytes: Seq<u8>, at: int) -> bool {
    0 <= at && at + CRX_LEN <= bytes.len() && is_crx(bytes.subrange(at, at + CRX_LEN))
}

/// The first application id in `bytes` from `at` on.
pub open spec fn crx_from(bytes: Seq<u8>, at: int) -> Option<Seq<u8>>
    decreases bytes.len() - at,
{
    if at < 0 || at + CRX_LEN > bytes.len() {
        None
    } else if crx_at(bytes, at) {
        Some(bytes.subrange(at, at + CRX_LEN))
    } else {
        crx_from(bytes, at + 1)
    }
}

/// The application id that a name carries: the first 32 bytes in a row that
/// are all letters from `a` to `p`, wherever in the name they stand.
pub open spec fn crx_id(bytes: Seq<u8>) -> Option<Seq<u8>> {
    crx_from(bytes, 0)
}

/// A name carries an id where one stands at some place in it, and the id is
/// the one at the first such place.
pub proof fn lemma_crx_from(bytes: Seq<u8>, at: int)
    requires
        0 <= at,
    ensures
        match crx_from(bytes, at) {
            Some(id) => exists|i: int|
                at <= i && #[trigger] crx_at(bytes, i) && id == bytes.subrange(i, i + CRX_LEN)
                    && forall|j: int| at <= j < i ==> !crx_at(bytes, j),
            None => forall|j: int| at <= j ==> !crx_at(bytes, j),
        },
    decreases bytes.len() - at,
{
    if at + CRX_LEN > bytes.len() {
    } else if crx_at(bytes, at) {
    } else {
        lemma_crx_from(bytes, at + 1);
        match crx_from(bytes, at + 1) {
            Some(id) => {
                let i = choose|i: int|
                    at + 1 <= i && #[trigger] crx_at(bytes, i) && id == bytes.subrange(
                        i,
                        i + CRX_LEN,
                    ) && forall|j: int| at + 1 <= j < i ==> !crx_at(bytes, j);
                assert(forall|j: int| at <= j < i ==> !crx_at(bytes, j));
            },
            None => {
                assert(forall|j: int| at <= j ==> !crx_at(bytes, j));
            },
        }
    }
}

/// A name that is an application id and nothing else carries itself.
pub proof fn lemma_crx_bare(bytes: Seq<u8>)
    requires
        is_crx(bytes),
    ensures
        crx_id(bytes) == Some(bytes),
{
    assert(bytes.subrange(0, CRX_LEN as int) =~= bytes);
}

/// An id that follows a prefix without 32 id letters in a row, and that a
/// byte which is no id letter ends, is the id of the name: so it is for
/// `chrome-<id>-Default` and for `crx_<id>`.
pub proof fn lemma_crx_after_prefix(prefix: Seq<u8>, id: Seq<u8>, rest: Seq<u8>)
    requires
        is_crx(id),
        prefix.len() > 0 ==> !is_id_letter(prefix.last()),
        forall|j: int| !crx_at(prefix, j),
    ensures
        crx_id(prefix + id + rest) == Some(id),
{
    let bytes = prefix + id + rest;
    let at = prefix.len() as int;
    assert(bytes.subrange(at, at + CRX_LEN) =~= id);
    assert(crx_at(bytes, at));
    lemma_crx_from(bytes, 0);
    assert forall|j: int| 0 <= j < at implies !crx_at(bytes, j) by {
        if crx_at(bytes, j) {
            let window = bytes.subrange(j, j + CRX_LEN);
            if j + CRX_LEN <= at {
                assert(prefix.subrange(j, j + CRX_LEN) =~= window);
                assert(crx_at(prefix, j));
            } else {
                assert(window[at - 1 - j] == prefix.last());
            }
        }
    }
    let found = crx_from(bytes, 0);
    assert(found is Some);
    let i = choose|i: int|
        0 <= i && #[trigger] crx_at(bytes, i) && found->0 == bytes.subrange(i, i + CRX_LEN)
            && forall|j: int| 0 <= j < i ==> !crx_at(bytes, j);
    assert(i == at);
}

/// Whether `bytes` is an application id.
pub fn is_crx_bytes(bytes: &[u8]) -> (yes: bool)
    ensures
        yes == is_crx(bytes@),
{
    if bytes.len() != CRX_LEN {
        return false;
    }
    let mut i: usize = 0;
    while i < CRX_LEN
        invariant
            i <= CRX_LEN,
            bytes@.len() == CRX_LEN,
            forall|j: int| 0 <= j < i ==> is_id_letter(#[trigger] bytes@[j]),
        decreases CRX_LEN - i,
    {
        if bytes[i] < 97 || bytes[i] > 112 {
            return false;
        }
        i += 1;
    }
    true
}

/// Whether `candidate` is an application id.
pub fn is_crx_id(candidate: &str) -> (yes: bool)
    ensures
        yes == is_crx(candidate.spec_bytes()),
{
    is_crx_bytes(candidate.as_bytes())
}

/// Finds the application id that `value` carries.
///
/// The id is found behind `chrome-`, behind `crx_`, alone, or anywhere else
/// in the name: it is the first run of 32 letters from `a` to `p`.
pub fn extract_crx_id(value: &str) -> (id: Option<String>)
    ensures
        match id {
            Some(text) => crx_id(value.spec_bytes()) == Some(string_bytes(text)),
            None => crx_id(value.spec_bytes()) is None,
        },
{
    match find_crx(value.as_bytes()) {
        Some(window) => {
            proof {
                lemma_crx_from(value.spec_bytes(), 0);
                assert forall|i: int| 0 <= i < window@.len() implies #[trigger] window@[i]
                    < 128 by {
                    assert(is_id_letter(window@[i]));
                }
                lemma_ascii_is_text(window@);
            }
            match utf8_str(window) {
                Some(text) => Some(text.to_owned()),
                None => None,
            }
        },
        None => None,
    }
}

/// Finds the first application id in `bytes`.
pub fn find_crx<'a>(bytes: &'a [u8]) -> (id: Option<&'a [u8]>)
    ensures
        match id {
            Some(window) => crx_id(bytes@) == Some(window@),
            None => crx_id(bytes@) is None,
        },
{
    if bytes.len() < CRX_LEN {
        return None;
    }
    let length: usize = bytes.len();
    let last: usize = length - CRX_LEN;
    let mut at: usize = 0;
    while at <= last
        invariant
            at <= last + 1,
            length == bytes@.len(),
            last + CRX_LEN == length,
            crx_id(bytes@) == crx_from(bytes@, at as int),
        decreases last + 1 - at,
    {
        let window = slice_subrange(bytes, at, at + CRX_LEN);
        if is_crx_bytes(window) {
            return Some(window);
        }
        at += 1;
    }
    None
}

/// The pixel sizes whose directories are always searched, largest first.
pub open spec fn size_numbers() -> Seq<u16> {
    seq![512u16, 256, 192, 128, 96, 64, 48, 32, 24, 22, 16]
}

/// The name of the directory for icons of `px` by `px` pixels: the number
/// in decimal, an `x`, and the number again.
pub open spec fn size_name(px: u16) -> Seq<u8> {
    decimal_digits(px as nat) + seq![120u8] + decimal_digits(px as nat)
}

/// `numbers` without `px`, in order.
pub open spec fn without(numbers: Seq<u16>, px: u16) -> Seq<u16>
    decreases numbers.len(),
{
    if numbers.len() == 0 {
        Seq::empty()
    } else if numbers.last() == px {
        without(numbers.drop_last(), px)
    } else {
        without(numbers.drop_last(), px).push(numbers.last())
    }
}

/// The sizes in the order in which a request for `px` pixels tries them:
/// its own size first, whatever it is, and then the sizes that are always
/// searched, from the largest down, without it.
pub open spec fn ordered_numbers(px: u16) -> Seq<u16> {
    seq![px] + without(size_numbers(), px)
}

/// The size directories in the order in which a request for `px` pixels
/// tries them.
pub open spec fn ordered(px: u16) -> Seq<Seq<u8>> {
    ordered_numbers(px).map_values(|n: u16| size_name(n))
}

/// Removing a number that is not there leaves the numbers as they are, and
/// removing one that is there leaves fewer.
pub proof fn lemma_without(numbers: Seq<u16>, px: u16)
    ensures
        !numbers.contains(px) ==> without(numbers, px) == numbers,
        numbers.contains(px) ==> without(numbers, px).len() < numbers.len(),
        without(numbers, px).len() <= numbers.len(),
        !without(numbers, px).contains(px),
    decreases numbers.len(),
{
    if numbers.len() > 0 {
        let front = numbers.drop_last();
        lemma_without(front, px);
        if numbers.last() == px {
            assert(numbers[numbers.len() - 1] == px);
        } else {
            if numbers.contains(px) {
                let i = choose|i: int| 0 <= i < numbers.len() && numbers[i] == px;
                assert(front[i] == px);
            } else {
                assert forall|i: int| 0 <= i < front.len() implies front[i] != px by {
                    assert(numbers[i] == front[i]);
                }
                assert(front.push(numbers.last()) =~= numbers);
            }
            let out = without(front, px).push(numbers.last());
            assert forall|i: int| 0 <= i < out.len() implies out[i] != px by {
                if i < out.len() - 1 {
                    assert(without(front, px)[i] == out[i]);
                    assert(without(front, px).contains(out[i]));
                }
            }
        }
    }
}

/// The requested size is tried first, whatever it is, and the sizes that
/// are always searched follow: all of them where the requested size is
/// none of them, and else all but that one.
pub proof fn lemma_requested_size_first(px: u16)
    ensures
        ordered(px)[0] == size_name(px),
        ordered(px).len() == 1 + without(size_numbers(), px).len(),
        !size_numbers().contains(px) ==> ordered(px) == seq![size_name(px)]
            + size_numbers().map_values(|n: u16| size_name(n)),
        size_numbers().contains(px) ==> ordered(px).len() <= size_numbers().len(),
        !ordered_numbers(px).skip(1).contains(px),
{
    lemma_without(size_numbers(), px);
    assert(ordered_numbers(px).skip(1) =~= without(size_numbers(), px));
    if !size_numbers().contains(px) {
        assert(ordered(px) =~= seq![size_name(px)] + size_numbers().map_values(
            |n: u16| size_name(n),
        ));
    }
}

/// The sizes that are always searched.
fn common_sizes() -> (numbers: Vec<u16>)
    ensures
        numbers@ == size_numbers(),
{
    let mut numbers: Vec<u16> = Vec::new();
    numbers.push(512);
    numbers.push(256);
    numbers.push(192);
    numbers.push(128);
    numbers.push(96);
    numbers.push(64);
    numbers.push(48);
    numbers.push(32);
    numbers.push(24);
    numbers.push(22);
    numbers.push(16);
    assert(numbers@ =~= size_numbers());
    numbers
}

/// The name of the directory for icons of `px` by `px` pixels.
pub fn size_directory(px: u16) -> (name: String)
    ensures
        string_bytes(name) == size_name(px),
{
    let digits = to_decimal(px);
    let mut bytes: Vec<u8> = Vec::new();
    bytes.extend_from_slice(digits.as_slice());
    bytes.push(120);
    bytes.extend_from_slice(digits.as_slice());
    proof {
        assert(bytes@ =~= size_name(px));
        lemma_decimal_digits(px as nat);
        lemma_ascii_is_text(bytes@);
    }
    match utf8_string(bytes.as_slice()) {
        Some(name) => name,
        None => String::new(),
    }
}

/// The size directories in the order in which a request for `requested_px`
/// pixels tries them: the requested size first, whatever it is.
pub fn ordered_sizes(requested_px: u16) -> (sizes: Vec<String>)
    ensures
        string_views(sizes@) == ordered(requested_px),
{
    let common = common_sizes();
    let mut sizes: Vec<String> = Vec::new();
    sizes.push(size_directory(requested_px));
    let ghost head = seq![requested_px];
    let mut i: usize = 0;
    proof {
        assert(common@.take(0) =~= Seq::empty());
        assert(string_views(sizes@) =~= (head + without(common@.take(0), requested_px)).map_values(
            |n: u16| size_name(n),
        ));
    }
    while i < common.len()
        invariant
            i <= common@.len(),
            head == seq![requested_px],
            string_views(sizes@) == (head + without(
                common@.take(i as int),
                requested_px,
            )).map_values(|n: u16| size_name(n)),
        decreases common@.len() - i,
    {
        proof {
            let upto = common@.take(i + 1);
            assert(upto.drop_last() =~= common@.take(i as int));
            assert(upto.last() == common@[i as int]);
        }
        if common[i] != requested_px {
            let ghost before = string_views(sizes@);
            let ghost kept = without(common@.take(i as int), requested_px);
            let name = size_directory(common[i]);
            sizes.push(name);
            proof {
                assert(string_views(sizes@) =~= before.push(size_name(common@[i as int])));
                assert((head + kept.push(common@[i as int])).map_values(|n: u16| size_name(n))
                    =~= (head + kept).map_values(|n: u16| size_name(n)).push(
                    size_name(common@[i as int]),
                ));
            }
        }
        i += 1;
    }
    assert(common@.take(i as int) =~= common@);
    sizes
}

/// The directory of the application icons of one size below `base`.
pub open spec fn apps_dir(base: Seq<u8>, size: Seq<u8>) -> Seq<u8> {
    join(join(base, size), "apps".spec_bytes())
}

/// The file `file` in the application directory of each size below `base`.
pub open spec fn named_in(base: Seq<u8>, sizes: Seq<Seq<u8>>, file: Seq<u8>) -> Seq<Seq<u8>>
    decreases sizes.len(),
{
    if sizes.len() == 0 {
        Seq::empty()
    } else {
        seq![join(apps_dir(base, sizes[0]), file)] + named_in(base, sizes.drop_first(), file)
    }
}

/// The file `file` in the application directories below each of `bases`:
/// base after base, and below each by size.
pub open spec fn named_all(bases: Seq<Seq<u8>>, sizes: Seq<Seq<u8>>, file: Seq<u8>) -> Seq<Seq<u8>>
    decreases bases.len(),
{
    if bases.len() == 0 {
        Seq::empty()
    } else {
        named_in(bases[0], sizes, file) + named_all(bases.drop_first(), sizes, file)
    }
}

/// What the application directory of one size below `base` lists; nothing
/// where it does not exist.
pub open spec fn listed(disk: DiskView, base: Seq<u8>, size: Seq<u8>) -> Seq<Seq<u8>> {
    if disk.has(apps_dir(base, size)) {
        disk.children(apps_dir(base, size))
    } else {
        Seq::empty()
    }
}

/// What the application directories below `base` list, size after size.
pub open spec fn listed_in(disk: DiskView, base: Seq<u8>, sizes: Seq<Seq<u8>>) -> Seq<Seq<u8>>
    decreases sizes.len(),
{
    if sizes.len() == 0 {
        Seq::empty()
    } else {
        listed(disk, base, sizes[0]) + listed_in(disk, base, sizes.drop_first())
    }
}

/// What the application directories below each of `bases` list: base after
/// base, and below each by size.
pub open spec fn listed_all(disk: DiskView, bases: Seq<Seq<u8>>, sizes: Seq<Seq<u8>>) -> Seq<
    Seq<u8>,
>
    decreases bases.len(),
{
    if bases.len() == 0 {
        Seq::empty()
    } else {
        listed_in(disk, bases[0], sizes) + listed_all(disk, bases.drop_first(), sizes)
    }
}

/// The last part of a path: what stands behind its last `/`.
pub open spec fn file_name(path: Seq<u8>) -> Seq<u8> {
    path.skip(last_index(path, SLASH) + 1)
}

/// The extension of a file name: what stands behind its last `.`, unless
/// the name has none or only begins with one.
pub open spec fn extension_of(name: Seq<u8>) -> Option<Seq<u8>> {
    let dot = last_index(name, DOT);
    if dot <= 0 {
        None
    } else {
        Some(name.skip(dot + 1))
    }
}

/// What the kind of a file is worth: 2 for PNG, 1 for SVG, whatever the case
/// of the letters, and 0 for anything else.
pub open spec fn extension_score(name: Seq<u8>) -> int {
    match extension_of(name) {
        Some(ext) => if lower(ext) == "png".spec_bytes() {
            2
        } else if lower(ext) == "svg".spec_bytes() {
            1
        } else {
            0
        },
        None => 0,
    }
}

/// What the colour scheme in a file name is worth: 2 where the name says
/// the scheme that is preferred, 0 where it says the other one and not the
/// preferred one, 1 where it says neither.
pub open spec fn theme_score(low: Seq<u8>, prefer_dark: bool) -> int {
    let dark = contains_run(low, "dark".spec_bytes());
    let light = contains_run(low, "light".spec_bytes());
    if prefer_dark {
        if dark {
            2
        } else if light {
            0
        } else {
            1
        }
    } else {
        if light {
            2
        } else if dark {
            0
        } else {
            1
        }
    }
}

/// What the purpose in a file name is worth: 2 for `maskable`, 0 for
/// `monochrome` without it, 1 for neither.
pub open spec fn mask_score(low: Seq<u8>) -> int {
    if contains_run(low, "maskable".spec_bytes()) {
        2
    } else if contains_run(low, "monochrome".spec_bytes()) {
        0
    } else {
        1
    }
}

/// What the file at `path` is worth as the icon of the application `crx`.
///
/// A file counts where its name is text, holds the id, and ends in `.png`
/// or `.svg`. Its score is 100 times what its colour scheme is worth, plus
/// 10 times what its purpose is worth, plus what its kind is worth. A file
/// that does not count scores 0.
pub open spec fn score(path: Seq<u8>, crx: Seq<u8>, prefer_dark: bool) -> int {
    let name = file_name(path);
    if !valid_utf8(name) || !contains_run(name, crx) || extension_score(name) == 0 {
        0
    } else {
        100 * theme_score(lower(name), prefer_dark) + 10 * mask_score(lower(name))
            + extension_score(name)
    }
}

/// A file with its score.
pub struct Scored {
    pub path: Seq<u8>,
    pub points: int,
}

/// Whether a file with `points` beats the best so far: it counts, and
/// scores more.
pub open spec fn beats(best: Option<Scored>, points: int) -> bool {
    points > 0 && match best {
        Some(b) => points > b.points,
        None => true,
    }
}

/// The better of the best file so far and the file at `path`: the new one
/// where it counts and scores more.
pub open spec fn better(best: Option<Scored>, path: Seq<u8>, points: int) -> Option<Scored> {
    if beats(best, points) {
        Some(Scored { path, points })
    } else {
        best
    }
}

/// The best of `best` and `files`: the file that scores most, and of those
/// that score the same the one that comes first.
pub open spec fn best_from(
    best: Option<Scored>,
    files: Seq<Seq<u8>>,
    crx: Seq<u8>,
    prefer_dark: bool,
) -> Option<Scored>
    decreases files.len(),
{
    if files.len() == 0 {
        best
    } else {
        best_from(
            better(best, files[0], score(files[0], crx, prefer_dark)),
            files.drop_first(),
            crx,
            prefer_dark,
        )
    }
}

/// The best of some files and then others is the best of all of them.
pub proof fn lemma_best_append(
    best: Option<Scored>,
    a: Seq<Seq<u8>>,
    b: Seq<Seq<u8>>,
    crx: Seq<u8>,
    prefer_dark: bool,
)
    ensures
        best_from(best, a + b, crx, prefer_dark) == best_from(
            best_from(best, a, crx, prefer_dark),
            b,
            crx,
            prefer_dark,
        ),
    decreases a.len(),
{
    if a.len() == 0 {
        assert(a + b =~= b);
    } else {
        assert((a + b).drop_first() =~= a.drop_first() + b);
        lemma_best_append(
            better(best, a[0], score(a[0], crx, prefer_dark)),
            a.drop_first(),
            b,
            crx,
            prefer_dark,
        );
    }
}

/// The best of `files` is one of them that counts, no file scores more, and
/// no file before it scores as much. There is none only where no file
/// counts.
pub proof fn lemma_best_is_best(files: Seq<Seq<u8>>, crx: Seq<u8>, prefer_dark: bool)
    ensures
        match best_from(None, files, crx, prefer_dark) {
            Some(best) => exists|at: int|
                0 <= at < files.len() && #[trigger] files[at] == best.path && best.points
                    == score(best.path, crx, prefer_dark) && best.points > 0 && (forall|j: int|
                    0 <= j < files.len() ==> score(#[trigger] files[j], crx, prefer_dark)
                        <= best.points) && (forall|j: int|
                    0 <= j < at ==> score(#[trigger] files[j], crx, prefer_dark) < best.points),
            None => forall|j: int|
                0 <= j < files.len() ==> score(#[trigger] files[j], crx, prefer_dark) == 0,
        },
{
    lemma_best_from(None, files, crx, prefer_dark, 0, files);
    assert(files.skip(0) =~= files);
}

/// Whether `best` is the best of the first `done` of `all`.
spec fn best_of_first(
    best: Option<Scored>,
    all: Seq<Seq<u8>>,
    done: int,
    crx: Seq<u8>,
    prefer_dark: bool,
) -> bool {
    match best {
        Some(b) => exists|at: int|
            0 <= at < done && #[trigger] all[at] == b.path && b.points == score(
                b.path,
                crx,
                prefer_dark,
            ) && b.points > 0 && (forall|j: int|
                0 <= j < done ==> score(#[trigger] all[j], crx, prefer_dark) <= b.points)
                && (forall|j: int|
                0 <= j < at ==> score(#[trigger] all[j], crx, prefer_dark) < b.points),
        None => forall|j: int| 0 <= j < done ==> score(#[trigger] all[j], crx, prefer_dark) == 0,
    }
}

/// Going on from the best of the first `done` of `all` through the rest of
/// them ends with the best of all.
proof fn lemma_best_from(
    best: Option<Scored>,
    files: Seq<Seq<u8>>,
    crx: Seq<u8>,
    prefer_dark: bool,
    done: int,
    all: Seq<Seq<u8>>,
)
    requires
        0 <= done <= all.len(),
        files == all.skip(done),
        best_of_first(best, all, done, crx, prefer_dark),
        forall|p: Seq<u8>| score(p, crx, prefer_dark) >= 0,
    ensures
        best_of_first(
            best_from(best, files, crx, prefer_dark),
            all,
            all.len() as int,
            crx,
            prefer_dark,
        ),
    decreases files.len(),
{
    if files.len() > 0 {
        let points = score(files[0], crx, prefer_dark);
        let next = better(best, files[0], points);
        assert(files[0] == all[done]);
        assert(files.drop_first() =~= all.skip(done + 1));
        if beats(best, points) {
            assert(next == Some(Scored { path: all[done], points }));
            assert(best_of_first(next, all, done + 1, crx, prefer_dark));
        } else {
            match best {
                Some(b) => {
                    let at = choose|at: int|
                        0 <= at < done && #[trigger] all[at] == b.path && b.points == score(
                            b.path,
                            crx,
                            prefer_dark,
                        ) && b.points > 0 && (forall|j: int|
                            0 <= j < done ==> score(#[trigger] all[j], crx, prefer_dark)
                                <= b.points) && (forall|j: int|
                            0 <= j < at ==> score(#[trigger] all[j], crx, prefer_dark) < b.points);
                    assert(0 <= at < done + 1 && all[at] == b.path);
                    assert(best_of_first(next, all, done + 1, crx, prefer_dark));
                },
                None => {
                    assert(best_of_first(next, all, done + 1, crx, prefer_dark));
                },
            }
        }
        lemma_best_from(next, files.drop_first(), crx, prefer_dark, done + 1, all);
    }
}

/// What the file at `path` is worth as the icon of the application `crx`.
pub fn score_file(path: &[u8], crx: &[u8], prefer_dark: bool) -> (points: u32)
    ensures
        points == score(path@, crx@, prefer_dark),
        points <= 222,
{
    let length: usize = path.len();
    let name = match find_last(path, SLASH) {
        Some(cut) => slice_subrange(path, cut + 1, length),
        None => path,
    };
    assert(name@ =~= file_name(path@));
    if utf8_str(name).is_none() || !contains_bytes(name, crx) {
        return 0;
    }
    let width: usize = name.len();
    let kind: u32 = match find_last(name, DOT) {
        Some(dot) => if dot == 0 {
            0
        } else {
            let ext = slice_subrange(name, dot + 1, width);
            assert(ext@ =~= name@.skip(dot + 1));
            let low = to_lower(ext);
            if bytes_eq(low.as_slice(), "png".as_bytes()) {
                2
            } else if bytes_eq(low.as_slice(), "svg".as_bytes()) {
                1
            } else {
                0
            }
        },
        None => 0,
    };
    if kind == 0 {
        return 0;
    }
    let low = to_lower(name);
    let dark = contains_bytes(low.as_slice(), "dark".as_bytes());
    let light = contains_bytes(low.as_slice(), "light".as_bytes());
    let scheme: u32 = if prefer_dark {
        if dark {
            2
        } else if light {
            0
        } else {
            1
        }
    } else {
        if light {
            2
        } else if dark {
            0
        } else {
            1
        }
    };
    let purpose: u32 = if contains_bytes(low.as_slice(), "maskable".as_bytes()) {
        2
    } else if contains_bytes(low.as_slice(), "monochrome".as_bytes()) {
        0
    } else {
        1
    };
    100 * scheme + 10 * purpose + kind
}

/// The best file so far, where there is one, with its score.
pub open spec fn scored_view(best: Option<(Vec<u8>, u32)>) -> Option<Scored> {
    match best {
        Some(b) => Some(Scored { path: b.0@, points: b.1 as int }),
        None => None,
    }
}

/// Picks the best of `best` and `files`.
fn best_among(
    best: Option<(Vec<u8>, u32)>,
    files: &Vec<&[u8]>,
    crx: &[u8],
    prefer_dark: bool,
) -> (out: Option<(Vec<u8>, u32)>)
    ensures
        scored_view(out) == best_from(scored_view(best), slice_views(files@), crx@, prefer_dark),
{
    let mut best = best;
    let mut i: usize = 0;
    let ghost all = slice_views(files@);
    let ghost start = scored_view(best);
    assert(all.skip(0) =~= all);
    while i < files.len()
        invariant
            i <= files@.len(),
            all == slice_views(files@),
            best_from(start, all, crx@, prefer_dark) == best_from(
                scored_view(best),
                all.skip(i as int),
                crx@,
                prefer_dark,
            ),
        decreases files@.len() - i,
    {
        proof {
            assert(all.skip(i as int)[0] == files@[i as int]@);
            assert(all.skip(i as int).drop_first() =~= all.skip(i + 1));
        }
        let points = score_file(files[i], crx, prefer_dark);
        let wins: bool = points > 0 && match &best {
            Some(b) => points > b.1,
            None => true,
        };
        if wins {
            best = Some((slice_to_vec(files[i]), points));
        }
        i += 1;
    }
    best
}

/// Picks the best of `best` and what the application directories below
/// `base` list.
fn best_in(
    best: Option<(Vec<u8>, u32)>,
    disk: &Disk,
    base: &[u8],
    sizes: &Vec<String>,
    crx: &[u8],
    prefer_dark: bool,
) -> (out: Option<(Vec<u8>, u32)>)
    ensures
        scored_view(out) == best_from(
            scored_view(best),
            listed_in(disk@, base@, string_views(sizes@)),
            crx@,
            prefer_dark,
        ),
{
    let mut best = best;
    let mut i: usize = 0;
    let ghost names = string_views(sizes@);
    let ghost start = scored_view(best);
    assert(names.skip(0) =~= names);
    while i < sizes.len()
        invariant
            i <= sizes@.len(),
            names == string_views(sizes@),
            best_from(start, listed_in(disk@, base@, names), crx@, prefer_dark) == best_from(
                scored_view(best),
                listed_in(disk@, base@, names.skip(i as int)),
                crx@,
                prefer_dark,
            ),
        decreases sizes@.len() - i,
    {
        let dir = join_path(
            join_path(base, sizes[i].as_str().as_bytes()).as_slice(),
            "apps".as_bytes(),
        );
        proof {
            assert(names.skip(i as int)[0] == string_bytes(sizes@[i as int]));
            assert(names.skip(i as int).drop_first() =~= names.skip(i + 1));
            lemma_best_append(
                scored_view(best),
                listed(disk@, base@, names[i as int]),
                listed_in(disk@, base@, names.skip(i + 1)),
                crx@,
                prefer_dark,
            );
        }
        if disk.has(dir.as_slice()) {
            let files = disk.read_dir(dir.as_slice());
            best = best_among(best, &files, crx, prefer_dark);
        }
        i += 1;
    }
    best
}

/// Picks the best of what the application directories below `base_dirs`
/// list.
fn best_all(
    disk: &Disk,
    base_dirs: &Vec<Vec<u8>>,
    sizes: &Vec<String>,
    crx: &[u8],
    prefer_dark: bool,
) -> (out: Option<(Vec<u8>, u32)>)
    ensures
        scored_view(out) == best_from(
            None,
            listed_all(disk@, path_views(base_dirs@), string_views(sizes@)),
            crx@,
            prefer_dark,
        ),
{
    let mut best: Option<(Vec<u8>, u32)> = None;
    let mut i: usize = 0;
    let ghost bases = path_views(base_dirs@);
    let ghost names = string_views(sizes@);
    assert(bases.skip(0) =~= bases);
    while i < base_dirs.len()
        invariant
            i <= base_dirs@.len(),
            bases == path_views(base_dirs@),
            names == string_views(sizes@),
            best_from(None, listed_all(disk@, bases, names), crx@, prefer_dark) == best_from(
                scored_view(best),
                listed_all(disk@, bases.skip(i as int), names),
                crx@,
                prefer_dark,
            ),
        decreases base_dirs@.len() - i,
    {
        proof {
            assert(bases.skip(i as int)[0] == base_dirs@[i as int]@);
            assert(bases.skip(i as int).drop_first() =~= bases.skip(i + 1));
            lemma_best_append(
                scored_view(best),
                listed_in(disk@, bases[i as int], names),
                listed_all(disk@, bases.skip(i + 1), names),
                crx@,
                prefer_dark,
            );
        }
        best = best_in(best, disk, base_dirs[i].as_slice(), sizes, crx, prefer_dark);
        i += 1;
    }
    best
}

/// Looks for `file` in the application directories below `base`, size
/// after size.
fn find_named_in(
    disk: &Disk,
    base: &[u8],
    sizes: &Vec<String>,
    file: &[u8],
) -> (found: Option<Vec<u8>>)
    ensures
        path_view(found) == first_hit(disk@, named_in(base@, string_views(sizes@), file@)),
{
    let mut i: usize = 0;
    let ghost names = string_views(sizes@);
    assert(names.skip(0) =~= names);
    while i < sizes.len()
        invariant
            i <= sizes@.len(),
            names == string_views(sizes@),
            first_hit(disk@, named_in(base@, names, file@)) == first_hit(
                disk@,
                named_in(base@, names.skip(i as int), file@),
            ),
        decreases sizes@.len() - i,
    {
        let dir = join_path(
            join_path(base, sizes[i].as_str().as_bytes()).as_slice(),
            "apps".as_bytes(),
        );
        let path = join_path(dir.as_slice(), file);
        proof {
            let rest = names.skip(i as int);
            assert(rest[0] == string_bytes(sizes@[i as int]));
            assert(rest.drop_first() =~= names.skip(i + 1));
            let here = seq![join(apps_dir(base@, rest[0]), file@)];
            assert(here[0] == path@);
            assert((here + named_in(base@, names.skip(i + 1), file@)).drop_first() =~= named_in(
                base@,
                names.skip(i + 1),
                file@,
            ));
        }
        if disk.has(path.as_slice()) {
            return Some(path);
        }
        i += 1;
    }
    None
}

/// Looks for `file` in the application directories below each of
/// `base_dirs`.
fn find_named(
    disk: &Disk,
    base_dirs: &Vec<Vec<u8>>,
    sizes: &Vec<String>,
    file: &[u8],
) -> (found: Option<Vec<u8>>)
    ensures
        path_view(found) == first_hit(
            disk@,
            named_all(path_views(base_dirs@), string_views(sizes@), file@),
        ),
{
    let mut i: usize = 0;
    let ghost bases = path_views(base_dirs@);
    let ghost names = string_views(sizes@);
    assert(bases.skip(0) =~= bases);
    while i < base_dirs.len()
        invariant
            i <= base_dirs@.len(),
            bases == path_views(base_dirs@),
            names == string_views(sizes@),
            first_hit(disk@, named_all(bases, names, file@)) == first_hit(
                disk@,
                named_all(bases.skip(i as int), names, file@),
            ),
        decreases base_dirs@.len() - i,
    {
        proof {
            assert(bases.skip(i as int)[0] == base_dirs@[i as int]@);
            assert(bases.skip(i as int).drop_first() =~= bases.skip(i + 1));
            lemma_first_hit_append(
                disk@,
                named_in(bases[i as int], names, file@),
                named_all(bases.skip(i + 1), names, file@),
            );
        }
        let found = find_named_in(disk, base_dirs[i].as_slice(), sizes, file);
        if found.is_some() {
            return found;
        }
        i += 1;
    }
    None
}

/// The application directory of each size below `base`, in the order of
/// `sizes`.
pub open spec fn apps_dirs_in(base: Seq<u8>, sizes: Seq<Seq<u8>>) -> Seq<Seq<u8>> {
    sizes.map_values(|size: Seq<u8>| apps_dir(base, size))
}

/// The application directories below each of `bases`: base after base, and
/// below each by size.
pub open spec fn apps_dirs(bases: Seq<Seq<u8>>, sizes: Seq<Seq<u8>>) -> Seq<Seq<u8>>
    decreases bases.len(),
{
    if bases.len() == 0 {
        Seq::empty()
    } else {
        apps_dirs(bases.drop_last(), sizes) + apps_dirs_in(bases.last(), sizes)
    }
}

/// The application directories below `base_dirs`, in the order in which a
/// lookup for `requested_px` pixels reads them.
pub fn app_directories(base_dirs: &Vec<Vec<u8>>, requested_px: u16) -> (dirs: Vec<Vec<u8>>)
    ensures
        path_views(dirs@) == apps_dirs(path_views(base_dirs@), ordered(requested_px)),
{
    let sizes = ordered_sizes(requested_px);
    let ghost names = string_views(sizes@);
    let ghost bases = path_views(base_dirs@);
    let mut dirs: Vec<Vec<u8>> = Vec::new();
    let mut i: usize = 0;
    assert(bases.take(0) =~= Seq::empty());
    assert(path_views(dirs@) =~= Seq::empty());
    while i < base_dirs.len()
        invariant
            i <= base_dirs@.len(),
            names == string_views(sizes@),
            bases == path_views(base_dirs@),
            path_views(dirs@) == apps_dirs(bases.take(i as int), names),
        decreases base_dirs@.len() - i,
    {
        let ghost before = path_views(dirs@);
        let ghost row = apps_dirs_in(bases[i as int], names);
        let mut k: usize = 0;
        assert(before + row.take(0) =~= before);
        while k < sizes.len()
            invariant
                k <= sizes@.len(),
                i < base_dirs@.len(),
                names == string_views(sizes@),
                bases == path_views(base_dirs@),
                row == apps_dirs_in(bases[i as int], names),
                path_views(dirs@) == before + row.take(k as int),
            decreases sizes@.len() - k,
        {
            let ghost so_far = path_views(dirs@);
            dirs.push(
                join_path(
                    join_path(base_dirs[i].as_slice(), sizes[k].as_str().as_bytes()).as_slice(),
                    "apps".as_bytes(),
                ),
            );
            proof {
                assert(path_views(dirs@) =~= so_far.push(row[k as int]));
                assert(before + row.take(k + 1) =~= (before + row.take(k as int)).push(
                    row[k as int],
                ));
            }
            k += 1;
        }
        proof {
            assert(row.take(k as int) =~= row);
            let upto = bases.take(i + 1);
            assert(upto.drop_last() =~= bases.take(i as int));
            assert(upto.last() == bases[i as int]);
        }
        i += 1;
    }
    assert(bases.take(i as int) =~= bases);
    dirs
}

/// What a lookup of the icon of a packaged application is stored under: a
/// theme of its own for each colour scheme, and scale 1.
pub open spec fn pwa_key(name: Seq<u8>, requested_px: u16, prefer_dark: bool) -> KeyView {
    KeyView {
        theme: if prefer_dark {
            "pwa-hicolor-dark".spec_bytes()
        } else {
            "pwa-hicolor-light".spec_bytes()
        },
        icon: name,
        size: requested_px,
        scale: 1,
    }
}

/// The icon that the disk holds for the packaged application that `name`
/// names.
///
/// Nothing where `name` carries no application id. Else the file
/// `<name>.png` in the first application directory that has it, and
/// without one the best file that carries the id in its name.
pub open spec fn pwa_icon(
    name: Seq<u8>,
    requested_px: u16,
    prefer_dark: bool,
    bases: Seq<Seq<u8>>,
    disk: DiskView,
) -> Option<Seq<u8>> {
    match crx_id(name) {
        None => None,
        Some(crx) => match first_hit(
            disk,
            named_all(bases, ordered(requested_px), name + ".png".spec_bytes()),
        ) {
            Some(path) => Some(path),
            None => match best_from(
                None,
                listed_all(disk, bases, ordered(requested_px)),
                crx,
                prefer_dark,
            ) {
                Some(best) => Some(best.path),
                None => None,
            },
        },
    }
}

/// Whether the cache answers a lookup at `now`: it holds the path, or a
/// miss that still counts.
pub open spec fn pwa_answered(use_cache: bool, cached: CachedView, now: u64) -> bool {
    use_cache && match cached {
        CachedView::Found(_) => true,
        CachedView::NotFound(recorded) => fresh(recorded, now),
        CachedView::Unknown => false,
    }
}

/// Whether a lookup of the icon of the packaged application that `name`
/// names reads nothing of the disk at `now`: the name carries no
/// application id, or the lookup uses the cache and `cache` holds its
/// answer.
pub fn answered_without_disk(
    name: &str,
    requested_px: u16,
    prefer_dark: bool,
    use_cache: bool,
    cache: &Cache,
    now: u64,
) -> (yes: bool)
    ensures
        yes == (crx_id(name.spec_bytes()) is None || pwa_answered(
            use_cache,
            cache.entry(pwa_key(name.spec_bytes(), requested_px, prefer_dark)),
            now,
        )),
{
    if find_crx(name.as_bytes()).is_none() {
        return true;
    }
    if !use_cache {
        return false;
    }
    let theme_key: &'static str = if prefer_dark {
        "pwa-hicolor-dark"
    } else {
        "pwa-hicolor-light"
    };
    match cache.get(theme_key, requested_px, 1, name) {
        CacheEntry::Found(_) => true,
        CacheEntry::NotFound(recorded) => is_fresh(recorded, now),
        CacheEntry::Unknown => false,
    }
}

/// The files that hold the icon of the application under its own name, if
/// they exist, in the order in which a lookup for `requested_px` pixels
/// below `base_dirs` tries them.
pub fn named_candidates(base_dirs: &Vec<Vec<u8>>, requested_px: u16, name: &str) -> (files: Vec<
    Vec<u8>,
>)
    ensures
        path_views(files@) == named_all(
            path_views(base_dirs@),
            ordered(requested_px),
            name.spec_bytes() + ".png".spec_bytes(),
        ),
{
    let dirs = app_directories(base_dirs, requested_px);
    let file = append(name.as_bytes(), ".png".as_bytes());
    let mut files: Vec<Vec<u8>> = Vec::new();
    let mut i: usize = 0;
    while i < dirs.len()
        invariant
            i <= dirs@.len(),
            files@.len() == i,
            forall|k: int|
                0 <= k < i ==> (#[trigger] files@[k])@ == join(dirs@[k]@, file@),
        decreases dirs@.len() - i,
    {
        files.push(join_path(dirs[i].as_slice(), file.as_slice()));
        i += 1;
    }
    proof {
        assert(path_views(files@) =~= in_each_dir(path_views(dirs@), file@));
        lemma_named_in_each_dir(path_views(base_dirs@), ordered(requested_px), file@);
    }
    files
}

/// The file `file` in each of `dirs`.
pub open spec fn in_each_dir(dirs: Seq<Seq<u8>>, file: Seq<u8>) -> Seq<Seq<u8>> {
    dirs.map_values(|dir: Seq<u8>| join(dir, file))
}

/// The files named `file` in the application directories, as the lookup
/// tries them, are the file in each application directory in its order.
pub proof fn lemma_named_in_each_dir(bases: Seq<Seq<u8>>, sizes: Seq<Seq<u8>>, file: Seq<u8>)
    ensures
        named_all(bases, sizes, file) == in_each_dir(apps_dirs(bases, sizes), file),
    decreases bases.len(),
{
    if bases.len() == 0 {
        assert(named_all(bases, sizes, file) =~= in_each_dir(apps_dirs(bases, sizes), file));
    } else {
        lemma_named_in_base(bases[0], sizes, file);
        lemma_named_in_each_dir(bases.drop_first(), sizes, file);
        lemma_apps_dirs_front(bases, sizes);
        assert(in_each_dir(
            apps_dirs_in(bases[0], sizes) + apps_dirs(bases.drop_first(), sizes),
            file,
        ) =~= in_each_dir(apps_dirs_in(bases[0], sizes), file) + in_each_dir(
            apps_dirs(bases.drop_first(), sizes),
            file,
        ));
    }
}

/// The same below one base directory.
proof fn lemma_named_in_base(base: Seq<u8>, sizes: Seq<Seq<u8>>, file: Seq<u8>)
    ensures
        named_in(base, sizes, file) == in_each_dir(apps_dirs_in(base, sizes), file),
    decreases sizes.len(),
{
    if sizes.len() == 0 {
        assert(named_in(base, sizes, file) =~= in_each_dir(apps_dirs_in(base, sizes), file));
    } else {
        lemma_named_in_base(base, sizes.drop_first(), file);
        assert(in_each_dir(apps_dirs_in(base, sizes), file) =~= seq![
            join(apps_dir(base, sizes[0]), file),
        ] + in_each_dir(apps_dirs_in(base, sizes.drop_first()), file));
    }
}

/// The application directories below some base directories are those
/// below the first followed by those below the others.
proof fn lemma_apps_dirs_front(bases: Seq<Seq<u8>>, sizes: Seq<Seq<u8>>)
    requires
        bases.len() > 0,
    ensures
        apps_dirs(bases, sizes) == apps_dirs_in(bases[0], sizes) + apps_dirs(
            bases.drop_first(),
            sizes,
        ),
    decreases bases.len(),
{
    if bases.len() == 1 {
        assert(bases.drop_last() =~= Seq::<Seq<u8>>::empty());
        assert(bases.drop_first() =~= Seq::<Seq<u8>>::empty());
        assert(bases.last() == bases[0]);
        assert(apps_dirs(Seq::<Seq<u8>>::empty(), sizes) =~= Seq::<Seq<u8>>::empty());
        assert(apps_dirs(bases, sizes) =~= apps_dirs_in(bases[0], sizes));
        assert(apps_dirs_in(bases[0], sizes) + apps_dirs(bases.drop_first(), sizes)
            =~= apps_dirs_in(bases[0], sizes));
    } else {
        lemma_apps_dirs_front(bases.drop_last(), sizes);
        assert(bases.drop_last().drop_first() =~= bases.drop_first().drop_last());
        assert(bases.drop_first().last() == bases.last());
        assert(bases.drop_last()[0] == bases[0]);
        let first = apps_dirs_in(bases[0], sizes);
        let middle = apps_dirs(bases.drop_first().drop_last(), sizes);
        let last = apps_dirs_in(bases.last(), sizes);
        assert((first + middle) + last =~= first + (middle + last));
    }
}

/// Looks for the icon of the packaged application that `name` names, below
/// the base directories `base_dirs`, at the time `now` in milliseconds.
///
/// A name without an application id finds nothing and leaves the cache as
/// it is. With `use_cache` the lookup returns what `cache` holds, a path
/// or a miss that still counts at `now`, and else stores what it finds.
pub fn lookup_chromium_pwa_icon_with_paths(
    name: &str,
    requested_px: u16,
    prefer_dark: bool,
    use_cache: bool,
    base_dirs: &Vec<Vec<u8>>,
    disk: &Disk,
    cache: &mut Cache,
    now: u64,
) -> (found: Option<Vec<u8>>)
    ensures
        path_view(found) == if crx_id(name.spec_bytes()) is None {
            None
        } else if pwa_answered(
            use_cache,
            old(cache).entry(pwa_key(name.spec_bytes(), requested_px, prefer_dark)),
            now,
        ) {
            match old(cache).entry(pwa_key(name.spec_bytes(), requested_px, prefer_dark)) {
                CachedView::Found(path) => Some(path),
                _ => None,
            }
        } else {
            pwa_icon(name.spec_bytes(), requested_px, prefer_dark, path_views(base_dirs@), disk@)
        },
        forall|key: KeyView| #[trigger]
            final(cache).entry(key) == if key == pwa_key(
                name.spec_bytes(),
                requested_px,
                prefer_dark,
            ) && use_cache && crx_id(name.spec_bytes()) is Some && !pwa_answered(
                use_cache,
                old(cache).entry(key),
                now,
            ) {
                CachedView::of_outcome(
                    pwa_icon(
                        name.spec_bytes(),
                        requested_px,
                        prefer_dark,
                        path_views(base_dirs@),
                        disk@,
                    ),
                    now,
                )
            } else {
                old(cache).entry(key)
            },
{
    let crx = match find_crx(name.as_bytes()) {
        Some(crx) => crx,
        None => {
            return None;
        },
    };
    let theme_key: &'static str = if prefer_dark {
        "pwa-hicolor-dark"
    } else {
        "pwa-hicolor-light"
    };
    if use_cache {
        match cache.get(theme_key, requested_px, 1, name) {
            CacheEntry::Found(path) => {
                return Some(path);
            },
            CacheEntry::NotFound(recorded) => {
                if is_fresh(recorded, now) {
                    return None;
                }
            },
            CacheEntry::Unknown => {},
        }
    }
    let sizes = ordered_sizes(requested_px);
    let file = append(name.as_bytes(), ".png".as_bytes());
    let named = find_named(disk, base_dirs, &sizes, file.as_slice());
    let found = if named.is_some() {
        named
    } else {
        match best_all(disk, base_dirs, &sizes, crx, prefer_dark) {
            Some(best) => Some(best.0),
            None => None,
        }
    };
    if use_cache {
        cache.insert(theme_key, requested_px, 1, name, &found, now);
    }
    found
}

/// The directory that holds the applications installed for the user whose
/// home directory is `home`.
pub open spec fn apps_home(home: Seq<u8>) -> Seq<u8> {
    join(home, ".var/app".spec_bytes())
}

/// The directory in which the application installed in `app` keeps icons
/// of its own.
pub open spec fn icons_of(app: Seq<u8>) -> Seq<u8> {
    join(app, "data/icons/hicolor".spec_bytes())
}

/// The directories below which the icons of packaged applications are
/// looked for: those of the user whose home directory is `home`, the
/// applications installed for that user that have icons of their own, and
/// those of the system.
pub open spec fn default_paths(home: Option<Seq<u8>>, disk: DiskView) -> Seq<Seq<u8>> {
    let own = match home {
        Some(home) => seq![
            join(home, ".local/share/icons/hicolor".spec_bytes()),
            join(home, ".local/share/flatpak/exports/share/icons/hicolor".spec_bytes()),
        ] + flatpak_icons(disk, apps_home(home)),
        None => Seq::empty(),
    };
    own + seq![
        "/usr/share/icons/hicolor".spec_bytes(),
        "/usr/local/share/icons/hicolor".spec_bytes(),
        "/var/lib/flatpak/exports/share/icons/hicolor".spec_bytes(),
        "/usr/share/flatpak/exports/share/icons/hicolor".spec_bytes(),
    ]
}

/// The icon directories of the applications that `dir` lists, where they
/// exist.
pub open spec fn flatpak_icons(disk: DiskView, dir: Seq<u8>) -> Seq<Seq<u8>> {
    if disk.has(dir) {
        with_icons(disk, disk.children(dir))
    } else {
        Seq::empty()
    }
}

/// The icon directory of each of `apps` that has one.
pub open spec fn with_icons(disk: DiskView, apps: Seq<Seq<u8>>) -> Seq<Seq<u8>>
    decreases apps.len(),
{
    if apps.len() == 0 {
        Seq::empty()
    } else {
        let icons = icons_of(apps.last());
        if disk.has(icons) {
            with_icons(disk, apps.drop_last()).push(icons)
        } else {
            with_icons(disk, apps.drop_last())
        }
    }
}

/// The directory that holds the applications installed for the user whose
/// home directory is `home`.
pub fn flatpak_apps_dir(home: &[u8]) -> (dir: Vec<u8>)
    ensures
        dir@ == apps_home(home@),
{
    join_path(home, ".var/app".as_bytes())
}

/// The directory in which the application installed in `app` keeps icons
/// of its own.
pub fn flatpak_icons_dir(app: &[u8]) -> (dir: Vec<u8>)
    ensures
        dir@ == icons_of(app@),
{
    join_path(app, "data/icons/hicolor".as_bytes())
}

/// The directories below which the icons of packaged applications are
/// looked for.
pub fn default_hicolor_paths(home: Option<&str>, disk: &Disk) -> (dirs: Vec<Vec<u8>>)
    ensures
        path_views(dirs@) == default_paths(
            match home {
                Some(h) => Some(h.spec_bytes()),
                None => None,
            },
            disk@,
        ),
{
    let mut dirs: Vec<Vec<u8>> = Vec::new();
    assert(path_views(dirs@) =~= Seq::empty());
    match home {
        Some(home) => {
            let home = home.as_bytes();
            dirs.push(join_path(home, ".local/share/icons/hicolor".as_bytes()));
            dirs.push(
                join_path(home, ".local/share/flatpak/exports/share/icons/hicolor".as_bytes()),
            );
            let ghost first = path_views(dirs@);
            assert(first =~= seq![
                join(home@, ".local/share/icons/hicolor".spec_bytes()),
                join(home@, ".local/share/flatpak/exports/share/icons/hicolor".spec_bytes()),
            ]);
            let var_app = flatpak_apps_dir(home);
            if disk.has(var_app.as_slice()) {
                let apps = disk.read_dir(var_app.as_slice());
                let mut i: usize = 0;
                assert(slice_views(apps@).take(0) =~= Seq::empty());
                assert(path_views(dirs@) =~= first + Seq::empty());
                while i < apps.len()
                    invariant
                        i <= apps@.len(),
                        path_views(dirs@) == first + with_icons(
                            disk@,
                            slice_views(apps@).take(i as int),
                        ),
                    decreases apps@.len() - i,
                {
                    let icons = flatpak_icons_dir(apps[i]);
                    proof {
                        let upto = slice_views(apps@).take(i + 1);
                        assert(upto.drop_last() =~= slice_views(apps@).take(i as int));
                        assert(upto.last() == apps@[i as int]@);
                    }
                    if disk.has(icons.as_slice()) {
                        let ghost before = path_views(dirs@);
                        let ghost kept = with_icons(disk@, slice_views(apps@).take(i as int));
                        dirs.push(icons);
                        assert(path_views(dirs@) =~= before.push(icons@));
                        assert(first + kept.push(icons@) =~= (first + kept).push(icons@));
                    }
                    i += 1;
                }
                assert(slice_views(apps@).take(i as int) =~= slice_views(apps@));
            } else {
                assert(path_views(dirs@) =~= first + Seq::empty());
            }
        },
        None => {},
    }
    let ghost own = path_views(dirs@);
    dirs.push(slice_to_vec("/usr/share/icons/hicolor".as_bytes()));
    dirs.push(slice_to_vec("/usr/local/share/icons/hicolor".as_bytes()));
    dirs.push(slice_to_vec("/var/lib/flatpak/exports/share/icons/hicolor".as_bytes()));
    dirs.push(slice_to_vec("/usr/share/flatpak/exports/share/icons/hicolor".as_bytes()));
    assert(path_views(dirs@) =~= own + seq![
        "/usr/share/icons/hicolor".spec_bytes(),
        "/usr/local/share/icons/hicolor".spec_bytes(),
        "/var/lib/flatpak/exports/share/icons/hicolor".spec_bytes(),
        "/usr/share/flatpak/exports/share/icons/hicolor".spec_bytes(),
    ]);
    dirs
}

/// Looks for the icon of the packaged application that `name` names, below
/// the directories of the user whose home directory is `home` and of the
/// system.
pub fn lookup_chromium_pwa_icon(
    name: &str,
    requested_px: u16,
    prefer_dark: bool,
    use_cache: bool,
    home: Option<&str>,
    disk: &Disk,
    cache: &mut Cache,
    now: u64,
) -> (found: Option<Vec<u8>>)
    ensures
        path_view(found) == if crx_id(name.spec_bytes()) is None {
            None
        } else if pwa_answered(
            use_cache,
            old(cache).entry(pwa_key(name.spec_bytes(), requested_px, prefer_dark)),
            now,
        ) {
            match old(cache).entry(pwa_key(name.spec_bytes(), requested_px, prefer_dark)) {
                CachedView::Found(path) => Some(path),
                _ => None,
            }
        } else {
            pwa_icon(
                name.spec_bytes(),
                requested_px,
                prefer_dark,
                default_paths(
                    match home {
                        Some(h) => Some(h.spec_bytes()),
                        None => None,
                    },
                    disk@,
                ),
                disk@,
            )
        },
        forall|key: KeyView| #[trigger]
            final(cache).entry(key) == if key == pwa_key(
                name.spec_bytes(),
                requested_px,
                prefer_dark,
            ) && use_cache && crx_id(name.spec_bytes()) is Some && !pwa_answered(
                use_cache,
                old(cache).entry(key),
                now,
            ) {
                CachedView::of_outcome(
                    pwa_icon(
                        name.spec_bytes(),
                        requested_px,
                        prefer_dark,
                        default_paths(
                            match home {
                                Some(h) => Some(h.spec_bytes()),
                                None => None,
                            },
                            disk@,
                        ),
                        disk@,
                    ),
                    now,
                )
            } else {
                old(cache).entry(key)
            },
{
    let base_dirs = default_hicolor_paths(home, disk);
    lookup_chromium_pwa_icon_with_paths(
        name,
        requested_px,
        prefer_dark,
        use_cache,
        &base_dirs,
        disk,
        cache,
        now,
    )
}

} // verus!
