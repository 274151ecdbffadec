//! The theme index format: newline-terminated lines, grouped into sections by
//! `[name]` headers, each section a list of `key=value` properties.

use crate::bytes::{
    bytes_eq, find_byte, first_index, lemma_first_index, trim, trim_ascii, utf8_str, COMMA,
    EQUALS, NEWLINE, OPEN_BRACKET,
};
use crate::disk::slice_views;
use crate::theme::directories::{Directory, DirectoryType, DirectoryView};
use crate::theme::Theme;
use vstd::prelude::*;
use vstd::slice::slice_subrange;
use vstd::string::StringSliceAdditionalSpecFns;
use vstd::utf8::valid_utf8;

verus! {

/// The pieces of `s` between occurrences of `sep`; at least one piece.
pub open spec fn split(s: Seq<u8>, sep: u8) -> Seq<Seq<u8>>
    decreases s.len(),
{
    let i = first_index(s, sep);
    if 0 <= i < s.len() {
        seq![s.take(i)] + split(s.skip(i + 1), sep)
    } else {
        seq![s]
    }
}

/// The lines of `file` that a newline ends. What follows the last newline is
/// no line: it may have been cut short.
pub open spec fn lines(file: Seq<u8>) -> Seq<Seq<u8>> {
    split(file, NEWLINE).drop_last()
}

/// `lines` by its first line: there is one where `file` holds a newline, and
/// the others are the lines of what follows that newline.
pub proof fn lemma_lines_unfold(file: Seq<u8>)
    ensures
        first_index(file, NEWLINE) >= file.len() ==> lines(file).len() == 0,
        first_index(file, NEWLINE) < file.len() ==> lines(file) == seq![
            file.take(first_index(file, NEWLINE)),
        ] + lines(file.skip(first_index(file, NEWLINE) + 1)),
{
    lemma_first_index(file, NEWLINE);
    let i = first_index(file, NEWLINE);
    if i < file.len() {
        let rest = split(file.skip(i + 1), NEWLINE);
        lemma_split_len(file.skip(i + 1), NEWLINE);
        assert((seq![file.take(i)] + rest).drop_last() =~= seq![file.take(i)] + rest.drop_last());
    } else {
        assert(split(file, NEWLINE) =~= seq![file]);
    }
}

/// `split` gives at least one piece.
pub proof fn lemma_split_len(s: Seq<u8>, sep: u8)
    ensures
        split(s, sep).len() >= 1,
    decreases s.len(),
{
    let i = first_index(s, sep);
    if 0 <= i < s.len() {
        lemma_split_len(s.skip(i + 1), sep);
    }
}

/// What one line of an index says, once the whitespace at its ends is gone.
pub enum LineView {
    /// Nothing but whitespace.
    Blank,
    /// `[name]`: the text between the bracket and the line's last byte.
    Header(Seq<u8>),
    /// `key=value`, split at the first `=`.
    Property(Seq<u8>, Seq<u8>),
    /// Anything else, a comment for one.
    Other,
}

/// Reads one raw line.
pub open spec fn classify(raw: Seq<u8>) -> LineView {
    let t = trim(raw);
    if t.len() == 0 {
        LineView::Blank
    } else if t[0] == OPEN_BRACKET {
        if t.len() >= 2 {
            LineView::Header(t.subrange(1, t.len() - 1))
        } else {
            LineView::Header(Seq::empty())
        }
    } else {
        let i = first_index(t, EQUALS);
        if 0 <= i < t.len() {
            LineView::Property(t.take(i), t.skip(i + 1))
        } else {
            LineView::Other
        }
    }
}

/// One line of an index, borrowed from its bytes.
#[derive(Debug, Clone, Copy)]
pub enum DirectorySection<'a> {
    Blank,
    Section(&'a [u8]),
    Property(&'a [u8], &'a [u8]),
    Other,
}

impl<'a> View for DirectorySection<'a> {
    type V = LineView;

    open spec fn view(&self) -> LineView {
        match *self {
            DirectorySection::Blank => LineView::Blank,
            DirectorySection::Section(name) => LineView::Header(name@),
            DirectorySection::Property(key, value) => LineView::Property(key@, value@),
            DirectorySection::Other => LineView::Other,
        }
    }
}

/// Reads one raw line of an index.
pub fn classify_line<'a>(raw: &'a [u8]) -> (line: DirectorySection<'a>)
    ensures
        line@ == classify(raw@),
{
    let t = trim_ascii(raw);
    if t.len() == 0 {
        DirectorySection::Blank
    } else if t[0] == OPEN_BRACKET {
        if t.len() >= 2 {
            DirectorySection::Section(slice_subrange(t, 1, t.len() - 1))
        } else {
            let name = slice_subrange(t, 0, 0);
            assert(name@ =~= Seq::<u8>::empty());
            DirectorySection::Section(name)
        }
    } else {
        match find_byte(EQUALS, t) {
            Some(i) => {
                let key = slice_subrange(t, 0, i);
                let value = slice_subrange(t, i + 1, t.len());
                assert(key@ =~= t@.take(i as int));
                assert(value@ =~= t@.skip(i + 1));
                DirectorySection::Property(key, value)
            },
            None => DirectorySection::Other,
        }
    }
}

/// A place in an index, from which its remaining lines are read one by one.
pub struct Sections<'a> {
    pub file: &'a [u8],
    pub pos: usize,
}

impl<'a> Sections<'a> {
    /// Whether the place lies in the index.
    pub open spec fn wf(&self) -> bool {
        self.pos <= self.file@.len()
    }

    /// The raw lines not read yet.
    pub open spec fn remaining(&self) -> Seq<Seq<u8>> {
        lines(self.file@.skip(self.pos as int))
    }

    /// The next line, read, or `None` where no complete line is left.
    pub fn next_section(&mut self) -> (line: Option<DirectorySection<'a>>)
        requires
            old(self).wf(),
        ensures
            final(self).wf(),
            final(self).file == old(self).file,
            line is Some ==> final(self).pos > old(self).pos,
            match line {
                Some(l) => old(self).remaining().len() > 0 && l@ == classify(
                    old(self).remaining()[0],
                ) && final(self).remaining() == old(self).remaining().drop_first(),
                None => old(self).remaining().len() == 0 && final(self).pos == old(self).pos,
            },
    {
        let rest = slice_subrange(self.file, self.pos, self.file.len());
        proof {
            assert(rest@ =~= self.file@.skip(self.pos as int));
            lemma_lines_unfold(rest@);
        }
        match find_byte(NEWLINE, rest) {
            Some(i) => {
                let raw = slice_subrange(rest, 0, i);
                proof {
                    assert(raw@ =~= rest@.take(i as int));
                    assert(rest@.skip(i + 1) =~= self.file@.skip(self.pos + i + 1));
                    let all = seq![rest@.take(i as int)] + lines(rest@.skip(i + 1));
                    assert(all.drop_first() =~= lines(rest@.skip(i + 1)));
                }
                self.pos = self.pos + i + 1;
                Some(classify_line(raw))
            },
            None => None,
        }
    }
}

/// Starts reading `file` at its first line.
pub fn sections<'a>(file: &'a [u8]) -> (cursor: Sections<'a>)
    ensures
        cursor.wf(),
        cursor.file == file,
        cursor.pos == 0,
        cursor.remaining() == lines(file@),
{
    assert(file@.skip(0) =~= file@);
    Sections { file, pos: 0 }
}

/// Whether `b` is one of the digits `0` to `9`.
pub open spec fn is_digit(b: u8) -> bool {
    48 <= b <= 57
}

/// The number that the decimal digits `s` write.
pub open spec fn decimal(s: Seq<u8>) -> int
    decreases s.len(),
{
    if s.len() == 0 {
        0
    } else {
        decimal(s.drop_last()) * 10 + (s.last() - 48)
    }
}

/// Whether `s` is one decimal digit or more, and nothing else.
pub open spec fn is_number(s: Seq<u8>) -> bool {
    s.len() > 0 && forall|i: int| 0 <= i < s.len() ==> is_digit(#[trigger] s[i])
}

/// The integer that `s` writes in decimal, with one optional sign in front,
/// where it fits in 16 bits; `None` for any other text.
pub open spec fn integer(s: Seq<u8>) -> Option<i16> {
    if s.len() > 0 && s[0] == 45 {
        if is_number(s.skip(1)) && decimal(s.skip(1)) <= 0x8000 {
            Some((-decimal(s.skip(1))) as i16)
        } else {
            None
        }
    } else {
        let digits = if s.len() > 0 && s[0] == 43 {
            s.skip(1)
        } else {
            s
        };
        if is_number(digits) && decimal(digits) <= 0x7fff {
            Some(decimal(digits) as i16)
        } else {
            None
        }
    }
}

/// Parses a number with `btoi::btoi`. The crate accepts one optional sign and
/// then decimal digits only, at least one, and fails where the number leaves
/// the range of the integer type; no whitespace is skipped.
#[verifier::external_body]
pub(crate) fn parse_i16(text: &[u8]) -> (number: Option<i16>)
    ensures
        number == integer(text@),
{
    btoi::btoi::<i16>(text).ok()
}

/// The section that describes the theme itself, and no directory.
pub open spec fn icon_theme_name() -> Seq<u8> {
    "Icon Theme".spec_bytes()
}

/// A directory section as far as it has been read.
pub struct DraftView {
    pub name: Seq<u8>,
    pub size: Option<i16>,
    pub scale: Option<i16>,
    pub kind: DirectoryType,
    pub max_size: Option<i16>,
    pub min_size: Option<i16>,
    pub threshold: Option<i16>,
}

impl DraftView {
    /// A section of which only the header has been read.
    pub open spec fn fresh(name: Seq<u8>) -> DraftView {
        DraftView {
            name,
            size: None,
            scale: None,
            kind: DirectoryType::Threshold,
            max_size: None,
            min_size: None,
            threshold: None,
        }
    }

    /// The section after one more property. A key read twice counts the
    /// second time; a number that does not parse unsets its key; keys that
    /// are not known change nothing.
    pub open spec fn with(self, key: Seq<u8>, value: Seq<u8>) -> DraftView {
        if key == "Size".spec_bytes() {
            DraftView { size: integer(value), ..self }
        } else if key == "Scale".spec_bytes() {
            DraftView { scale: integer(value), ..self }
        } else if key == "Type".spec_bytes() {
            DraftView { kind: DirectoryType::spec_from_bytes(value), ..self }
        } else if key == "MaxSize".spec_bytes() {
            DraftView { max_size: integer(value), ..self }
        } else if key == "MinSize".spec_bytes() {
            DraftView { min_size: integer(value), ..self }
        } else if key == "Threshold".spec_bytes() {
            DraftView { threshold: integer(value), ..self }
        } else {
            self
        }
    }

    /// Whether the section describes a directory: it has a name, which is
    /// text and not that of the theme's own section, and a size.
    pub open spec fn usable(self) -> bool {
        &&& self.name.len() > 0
        &&& self.name != icon_theme_name()
        &&& valid_utf8(self.name)
        &&& self.size is Some
    }

    /// The directory that a usable section describes: the scale defaults to
    /// 1, both size bounds to the size, the threshold to 2.
    pub open spec fn directory(self) -> DirectoryView {
        let size = self.size->0;
        DirectoryView {
            name: self.name,
            size: size as int,
            scale: (if self.scale is Some {
                self.scale->0
            } else {
                1i16
            }) as int,
            kind: self.kind,
            maxsize: (if self.max_size is Some {
                self.max_size->0
            } else {
                size
            }) as int,
            minsize: (if self.min_size is Some {
                self.min_size->0
            } else {
                size
            }) as int,
            threshold: (if self.threshold is Some {
                self.threshold->0
            } else {
                2i16
            }) as int,
        }
    }
}

/// What a section adds to the directories of its index when it ends: the
/// directory it describes, or nothing.
pub open spec fn closed(open: Option<DraftView>) -> Seq<DirectoryView> {
    match open {
        Some(draft) => if draft.usable() {
            seq![draft.directory()]
        } else {
            Seq::empty()
        },
        None => Seq::empty(),
    }
}

/// The directories that `lines` describe, read after the section `open`. A
/// header ends the section before it, and the last line ends the last one.
/// Properties above the first header belong to no section.
pub open spec fn scan(lines: Seq<Seq<u8>>, open: Option<DraftView>) -> Seq<DirectoryView>
    decreases lines.len(),
{
    if lines.len() == 0 {
        closed(open)
    } else {
        let rest = lines.drop_first();
        match classify(lines[0]) {
            LineView::Header(name) => closed(open) + scan(rest, Some(DraftView::fresh(name))),
            LineView::Property(key, value) => scan(
                rest,
                match open {
                    Some(draft) => Some(draft.with(key, value)),
                    None => None,
                },
            ),
            _ => scan(rest, open),
        }
    }
}

/// The directories that an index describes, in the order of their sections.
pub open spec fn directories(file: Seq<u8>) -> Seq<DirectoryView> {
    scan(lines(file), None)
}

/// No section without a name, and no section named `Icon Theme`, is read
/// as a directory, and every directory has a name that is text.
pub proof fn lemma_directories_named(file: Seq<u8>, i: int)
    requires
        0 <= i < directories(file).len(),
    ensures
        directories(file)[i].name.len() > 0,
        directories(file)[i].name != icon_theme_name(),
        valid_utf8(directories(file)[i].name),
{
    lemma_scan_named(lines(file), None, i);
}

/// The same of the directories read from any line on.
proof fn lemma_scan_named(lines: Seq<Seq<u8>>, open: Option<DraftView>, i: int)
    requires
        0 <= i < scan(lines, open).len(),
    ensures
        scan(lines, open)[i].name.len() > 0,
        scan(lines, open)[i].name != icon_theme_name(),
        valid_utf8(scan(lines, open)[i].name),
    decreases lines.len(),
{
    if lines.len() > 0 {
        let rest = lines.drop_first();
        match classify(lines[0]) {
            LineView::Header(name) => {
                if i >= closed(open).len() {
                    lemma_scan_named(rest, Some(DraftView::fresh(name)), i - closed(open).len());
                }
            },
            LineView::Property(key, value) => {
                lemma_scan_named(
                    rest,
                    match open {
                        Some(draft) => Some(draft.with(key, value)),
                        None => None,
                    },
                    i,
                );
            },
            _ => {
                lemma_scan_named(rest, open, i);
            },
        }
    }
}

/// A directory section while its properties are read.
struct Draft<'a> {
    name: &'a [u8],
    size: Option<i16>,
    scale: Option<i16>,
    kind: DirectoryType,
    max_size: Option<i16>,
    min_size: Option<i16>,
    threshold: Option<i16>,
}

impl<'a> View for Draft<'a> {
    type V = DraftView;

    closed spec fn view(&self) -> DraftView {
        DraftView {
            name: self.name@,
            size: self.size,
            scale: self.scale,
            kind: self.kind,
            max_size: self.max_size,
            min_size: self.min_size,
            threshold: self.threshold,
        }
    }
}

impl<'a> Draft<'a> {
    /// A section of which only the header has been read.
    fn fresh(name: &'a [u8]) -> (draft: Draft<'a>)
        ensures
            draft@ == DraftView::fresh(name@),
    {
        Draft {
            name,
            size: None,
            scale: None,
            kind: DirectoryType::Threshold,
            max_size: None,
            min_size: None,
            threshold: None,
        }
    }

    /// Reads one more property of the section.
    fn set(&mut self, key: &[u8], value: &[u8])
        ensures
            final(self)@ == old(self)@.with(key@, value@),
    {
        if bytes_eq(key, "Size".as_bytes()) {
            self.size = parse_i16(value);
        } else if bytes_eq(key, "Scale".as_bytes()) {
            self.scale = parse_i16(value);
        } else if bytes_eq(key, "Type".as_bytes()) {
            self.kind = DirectoryType::from(value);
        } else if bytes_eq(key, "MaxSize".as_bytes()) {
            self.max_size = parse_i16(value);
        } else if bytes_eq(key, "MinSize".as_bytes()) {
            self.min_size = parse_i16(value);
        } else if bytes_eq(key, "Threshold".as_bytes()) {
            self.threshold = parse_i16(value);
        }
    }

    /// Adds the directory of this section to `out`, where it describes one.
    fn close(&self, out: &mut Vec<Directory<'a>>)
        ensures
            views(final(out)@) == views(old(out)@) + closed(Some(self@)),
    {
        if self.name.len() == 0 || bytes_eq(self.name, "Icon Theme".as_bytes()) {
            assert(views(out@) + Seq::<DirectoryView>::empty() =~= views(out@));
            return ;
        }
        let name = match utf8_str(self.name) {
            Some(name) => name,
            None => {
                assert(views(out@) + Seq::<DirectoryView>::empty() =~= views(out@));
                return ;
            },
        };
        let size = match self.size {
            Some(size) => size,
            None => {
                assert(views(out@) + Seq::<DirectoryView>::empty() =~= views(out@));
                return ;
            },
        };
        let directory = Directory {
            name,
            size,
            scale: match self.scale {
                Some(scale) => scale,
                None => 1,
            },
            type_: self.kind,
            maxsize: match self.max_size {
                Some(most) => most,
                None => size,
            },
            minsize: match self.min_size {
                Some(least) => least,
                None => size,
            },
            threshold: match self.threshold {
                Some(threshold) => threshold,
                None => 2,
            },
        };
        assert(directory@ == self@.directory());
        let ghost before = out@;
        out.push(directory);
        assert(views(out@) =~= views(before) + seq![directory@]);
    }
}

/// What each directory of `list` is.
pub open spec fn views(list: Seq<Directory<'_>>) -> Seq<DirectoryView> {
    list.map_values(|d: Directory<'_>| d@)
}

/// Reads the directories that the index `file` describes.
///
/// A section without a size that parses is left out, and so is one whose name
/// is empty or not valid UTF-8, and the section `Icon Theme`.
pub fn get_all_directories<'a>(file: &'a [u8]) -> (list: Vec<Directory<'a>>)
    ensures
        views(list@) == directories(file@),
{
    let mut cursor = sections(file);
    let mut list: Vec<Directory<'a>> = Vec::new();
    let mut open: Option<Draft<'a>> = None;
    assert(views(list@) =~= Seq::<DirectoryView>::empty());
    loop
        invariant
            cursor.wf(),
            cursor.file == file,
            directories(file@) == views(list@) + scan(cursor.remaining(), draft_view(open)),
        decreases file@.len() - cursor.pos,
    {
        let ghost before = cursor.remaining();
        match cursor.next_section() {
            None => {
                match open {
                    Some(draft) => {
                        draft.close(&mut list);
                    },
                    None => {
                        assert(views(list@) + Seq::<DirectoryView>::empty() =~= views(list@));
                    },
                }
                return list;
            },
            Some(DirectorySection::Section(name)) => {
                let ghost done = views(list@);
                match open {
                    Some(draft) => {
                        draft.close(&mut list);
                    },
                    None => {
                        assert(views(list@) + Seq::<DirectoryView>::empty() =~= views(list@));
                    },
                }
                let ghost tail = scan(before.drop_first(), Some(DraftView::fresh(name@)));
                let ghost ended = closed(draft_view(open));
                assert((done + ended) + tail =~= done + (ended + tail));
                open = Some(Draft::fresh(name));
            },
            Some(DirectorySection::Property(key, value)) => {
                match open {
                    Some(mut draft) => {
                        draft.set(key, value);
                        open = Some(draft);
                    },
                    None => {},
                }
            },
            Some(_) => {},
        }
    }
}

/// The section that is open, if one is.
spec fn draft_view(open: Option<Draft<'_>>) -> Option<DraftView> {
    match open {
        Some(draft) => Some(draft@),
        None => None,
    }
}

/// Cuts `s` at every `sep`.
pub fn split_on<'a>(s: &'a [u8], sep: u8) -> (pieces: Vec<&'a [u8]>)
    ensures
        slice_views(pieces@) == split(s@, sep),
{
    let mut pieces: Vec<&'a [u8]> = Vec::new();
    let mut pos: usize = 0;
    assert(s@.skip(0) =~= s@);
    assert(slice_views(pieces@) + split(s@, sep) =~= split(s@, sep));
    loop
        invariant
            pos <= s@.len(),
            split(s@, sep) == slice_views(pieces@) + split(s@.skip(pos as int), sep),
        decreases s@.len() - pos,
    {
        let rest = slice_subrange(s, pos, s.len());
        assert(rest@ =~= s@.skip(pos as int));
        let ghost before = slice_views(pieces@);
        match find_byte(sep, rest) {
            Some(i) => {
                let piece = slice_subrange(rest, 0, i);
                assert(piece@ =~= rest@.take(i as int));
                assert(rest@.skip(i + 1) =~= s@.skip(pos + i + 1));
                pieces.push(piece);
                assert(slice_views(pieces@) =~= before.push(piece@));
                assert(before + (seq![piece@] + split(rest@.skip(i + 1), sep)) =~= before.push(
                    piece@,
                ) + split(rest@.skip(i + 1), sep));
                pos = pos + i + 1;
            },
            None => {
                pieces.push(rest);
                assert(slice_views(pieces@) =~= before.push(rest@));
                assert(before + seq![rest@] =~= before.push(rest@));
                return pieces;
            },
        }
    }
}

/// The properties that `lines` hold in the first section named `Icon Theme`,
/// read from inside that section or from before it.
pub open spec fn theme_properties(lines: Seq<Seq<u8>>, inside: bool) -> Seq<(Seq<u8>, Seq<u8>)>
    decreases lines.len(),
{
    if lines.len() == 0 {
        Seq::empty()
    } else {
        let rest = lines.drop_first();
        match classify(lines[0]) {
            LineView::Header(name) => if inside {
                Seq::empty()
            } else {
                theme_properties(rest, name == icon_theme_name())
            },
            LineView::Property(key, value) => if inside {
                seq![(key, value)] + theme_properties(rest, true)
            } else {
                theme_properties(rest, false)
            },
            _ => theme_properties(rest, inside),
        }
    }
}

/// The keys and values of each pair.
pub open spec fn pair_views(list: Seq<(&[u8], &[u8])>) -> Seq<(Seq<u8>, Seq<u8>)> {
    list.map_values(|p: (&[u8], &[u8])| (p.0@, p.1@))
}

/// The properties of the section `Icon Theme` of the index `file`, in order:
/// those between its header and the next one.
pub fn icon_theme_section<'a>(file: &'a [u8]) -> (properties: Vec<(&'a [u8], &'a [u8])>)
    ensures
        pair_views(properties@) == theme_properties(lines(file@), false),
{
    let mut cursor = sections(file);
    let mut properties: Vec<(&'a [u8], &'a [u8])> = Vec::new();
    let mut inside: bool = false;
    assert(pair_views(properties@) + theme_properties(lines(file@), false) =~= theme_properties(
        lines(file@),
        false,
    ));
    loop
        invariant
            cursor.wf(),
            cursor.file == file,
            theme_properties(lines(file@), false) == pair_views(properties@) + theme_properties(
                cursor.remaining(),
                inside,
            ),
        decreases file@.len() - cursor.pos,
    {
        let ghost before = pair_views(properties@);
        let ghost left = cursor.remaining();
        match cursor.next_section() {
            None => {
                assert(before + Seq::<(Seq<u8>, Seq<u8>)>::empty() =~= before);
                return properties;
            },
            Some(DirectorySection::Section(name)) => {
                if inside {
                    assert(before + Seq::<(Seq<u8>, Seq<u8>)>::empty() =~= before);
                    return properties;
                }
                inside = bytes_eq(name, "Icon Theme".as_bytes());
            },
            Some(DirectorySection::Property(key, value)) => {
                if inside {
                    properties.push((key, value));
                    assert(pair_views(properties@) =~= before.push((key@, value@)));
                    assert(before + (seq![(key@, value@)] + theme_properties(
                        left.drop_first(),
                        true,
                    )) =~= before.push((key@, value@)) + theme_properties(left.drop_first(), true));
                }
            },
            Some(_) => {},
        }
    }
}

/// The value of the first of `properties` whose key is `key`.
pub open spec fn property(properties: Seq<(Seq<u8>, Seq<u8>)>, key: Seq<u8>) -> Option<Seq<u8>>
    decreases properties.len(),
{
    if properties.len() == 0 {
        None
    } else if properties[0].0 == key {
        Some(properties[0].1)
    } else {
        property(properties.drop_first(), key)
    }
}

/// Finds the value of the first of `properties` whose key is `key`.
pub fn find_property<'a>(properties: &Vec<(&'a [u8], &'a [u8])>, key: &[u8]) -> (value: Option<
    &'a [u8],
>)
    ensures
        match value {
            Some(v) => property(pair_views(properties@), key@) == Some(v@),
            None => property(pair_views(properties@), key@) is None,
        },
{
    let mut i: usize = 0;
    assert(pair_views(properties@).skip(0) =~= pair_views(properties@));
    while i < properties.len()
        invariant
            i <= properties@.len(),
            property(pair_views(properties@), key@) == property(
                pair_views(properties@).skip(i as int),
                key@,
            ),
        decreases properties@.len() - i,
    {
        let ghost rest = pair_views(properties@).skip(i as int);
        assert(rest[0] == (properties@[i as int].0@, properties@[i as int].1@));
        assert(rest.drop_first() =~= pair_views(properties@).skip(i + 1));
        if bytes_eq(properties[i].0, key) {
            return Some(properties[i].1);
        }
        i += 1;
    }
    None
}

/// The theme that every lookup falls back to.
pub open spec fn hicolor() -> Seq<u8> {
    "hicolor".spec_bytes()
}

/// `names` without `hicolor`.
pub open spec fn without_hicolor(names: Seq<Seq<u8>>) -> Seq<Seq<u8>>
    decreases names.len(),
{
    if names.len() == 0 {
        Seq::empty()
    } else if names.last() == hicolor() {
        without_hicolor(names.drop_last())
    } else {
        without_hicolor(names.drop_last()).push(names.last())
    }
}

/// The themes that the index `file` names as parents: the pieces between the
/// commas of the first `Inherits` of its section `Icon Theme`, but for
/// `hicolor`, which every lookup reaches in the end. No parents where the
/// section or the key is missing.
pub open spec fn parents(file: Seq<u8>) -> Seq<Seq<u8>> {
    match property(theme_properties(lines(file), false), "Inherits".spec_bytes()) {
        Some(value) => without_hicolor(split(value, COMMA)),
        None => Seq::empty(),
    }
}

/// No index names `hicolor` as a parent, whatever its `Inherits` holds.
pub proof fn lemma_parents_without_hicolor(file: Seq<u8>, i: int)
    requires
        0 <= i < parents(file).len(),
    ensures
        parents(file)[i] != hicolor(),
{
    match property(theme_properties(lines(file), false), "Inherits".spec_bytes()) {
        Some(value) => {
            lemma_without_hicolor(split(value, COMMA), i);
        },
        None => {},
    }
}

/// What is left of a list of names without `hicolor` does not hold it.
proof fn lemma_without_hicolor(names: Seq<Seq<u8>>, i: int)
    requires
        0 <= i < without_hicolor(names).len(),
    ensures
        without_hicolor(names)[i] != hicolor(),
    decreases names.len(),
{
    if names.len() > 0 {
        let before = without_hicolor(names.drop_last());
        if i < before.len() {
            lemma_without_hicolor(names.drop_last(), i);
        }
    }
}

impl Theme {
    /// The themes that the index `file` names as parents, `hicolor` left out.
    pub fn inherits<'a>(&self, file: &'a [u8]) -> (names: Vec<&'a [u8]>)
        ensures
            slice_views(names@) == parents(file@),
    {
        let properties = icon_theme_section(file);
        let mut names: Vec<&'a [u8]> = Vec::new();
        assert(slice_views(names@) =~= Seq::empty());
        let value = match find_property(&properties, "Inherits".as_bytes()) {
            Some(value) => value,
            None => {
                return names;
            },
        };
        let pieces = split_on(value, COMMA);
        let mut i: usize = 0;
        assert(slice_views(pieces@).take(0) =~= Seq::empty());
        while i < pieces.len()
            invariant
                i <= pieces@.len(),
                slice_views(names@) == without_hicolor(slice_views(pieces@).take(i as int)),
            decreases pieces@.len() - i,
        {
            proof {
                let upto = slice_views(pieces@).take(i + 1);
                assert(upto.drop_last() =~= slice_views(pieces@).take(i as int));
                assert(upto.last() == pieces@[i as int]@);
            }
            if !bytes_eq(pieces[i], "hicolor".as_bytes()) {
                let ghost before = slice_views(names@);
                names.push(pieces[i]);
                assert(slice_views(names@) =~= before.push(pieces@[i as int]@));
            }
            i += 1;
        }
        assert(slice_views(pieces@).take(i as int) =~= slice_views(pieces@));
        names
    }
}

} // verus!
