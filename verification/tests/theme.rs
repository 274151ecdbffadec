use cosmic_freedesktop_icons::cache::Cache;
use cosmic_freedesktop_icons::disk::Disk;
use cosmic_freedesktop_icons::lookup;
use cosmic_freedesktop_icons::theme::directories::{Directory, DirectoryType};
use cosmic_freedesktop_icons::theme::parse;
use cosmic_freedesktop_icons::theme::parse::{
    classify_line, get_all_directories, sections, split_on, DirectorySection,
};
use cosmic_freedesktop_icons::theme::paths::{
    base_path_candidates, icon_theme_base_paths, ThemePath,
};
use cosmic_freedesktop_icons::theme::rank::rank_directories;
use cosmic_freedesktop_icons::theme::registry::{get_all_themes, ThemeRegistry};
use cosmic_freedesktop_icons::theme::{try_build_icon_path, Theme};

const ADWAITA_INDEX: &str = "[Icon Theme]
Name=Adwaita\u{0020}
Comment=The Only One
Example=folder
Inherits=hicolor

# KDE Specific Stuff
DisplayDepth=32

# Directory list
Directories=16x16/actions,16x16/apps,16x16/categories,16x16/devices,16x16/emblems,16x16/emotes,16x16/legacy,16x16/mimetypes,16x16/places,16x16/status,16x16/ui,scalable/devices,scalable/mimetypes,scalable/places,scalable/status,scalable/actions,scalable/apps,scalable/categories,scalable/emblems,scalable/emotes,scalable/legacy,scalable/ui,symbolic-up-to-32/status,symbolic/actions,symbolic/apps,symbolic/categories,symbolic/devices,symbolic/emblems,symbolic/emotes,symbolic/mimetypes,symbolic/places,symbolic/status,symbolic/legacy,symbolic/ui,

[16x16/actions]
Context=Actions
Size=16
Type=Fixed

[16x16/apps]
Context=Applications
Size=16
Type=Fixed

[16x16/categories]
Context=Categories
Size=16
Type=Fixed

[16x16/devices]
Context=Devices
Size=16
Type=Fixed

[16x16/emblems]
Context=Emblems
Size=16
Type=Fixed

[16x16/emotes]
Context=Emotes
Size=16
Type=Fixed

[16x16/legacy]
Context=Legacy
Size=16
Type=Fixed

[16x16/mimetypes]
Context=MimeTypes
Size=16
Type=Fixed

[16x16/places]
Context=Places
Size=16
Type=Fixed

[16x16/status]
Context=Status
Size=16
Type=Fixed

[16x16/ui]
Context=UI
Size=16
Type=Fixed

[scalable/devices]
Context=Devices
Size=128
MinSize=8
MaxSize=512
Type=Scalable

[scalable/mimetypes]
Context=MimeTypes
Size=128
MinSize=8
MaxSize=512
Type=Scalable

[scalable/places]
Context=Places
Size=128
MinSize=8
MaxSize=512
Type=Scalable

[scalable/status]
Context=Status
Size=128
MinSize=8
MaxSize=512
Type=Scalable

[scalable/actions]
Context=Actions
Size=128
MinSize=8
MaxSize=512
Type=Scalable

[scalable/apps]
Context=Applications
Size=128
MinSize=8
MaxSize=512
Type=Scalable

[scalable/categories]
Context=Categories
Size=128
MinSize=8
MaxSize=512
Type=Scalable

[scalable/emblems]
Context=Emblems
Size=128
MinSize=8
MaxSize=512
Type=Scalable

[scalable/emotes]
Context=Emotes
Size=128
MinSize=8
MaxSize=512
Type=Scalable

[scalable/legacy]
Context=Legacy
Size=128
MinSize=8
MaxSize=512
Type=Scalable

[scalable/ui]
Context=UI
Size=128
MinSize=8
MaxSize=512
Type=Scalable

[symbolic-up-to-32/status]
Context=Status
Size=16
MinSize=16
MaxSize=32
Type=Scalable

[symbolic/actions]
Context=Actions
Size=16
MinSize=8
MaxSize=512
Type=Scalable

[symbolic/apps]
Context=Applications
Size=16
MinSize=8
MaxSize=512
Type=Scalable

[symbolic/categories]
Context=Categories
Size=16
MinSize=8
MaxSize=512
Type=Scalable

[symbolic/devices]
Context=Devices
Size=16
MinSize=8
MaxSize=512
Type=Scalable

[symbolic/emblems]
Context=Emblems
Size=16
MinSize=8
MaxSize=512
Type=Scalable

[symbolic/emotes]
Context=Emotes
Size=16
MinSize=8
MaxSize=512
Type=Scalable

[symbolic/mimetypes]
Context=MimeTypes
Size=16
MinSize=8
MaxSize=512
Type=Scalable

[symbolic/places]
Context=Places
Size=16
MinSize=8
MaxSize=512
Type=Scalable

[symbolic/status]
Context=Status
Size=16
MinSize=8
MaxSize=512
Type=Scalable

[symbolic/legacy]
Context=Legacy
Size=16
MinSize=8
MaxSize=512
Type=Scalable

[symbolic/ui]
Context=UI
Size=16
MinSize=8
MaxSize=512
Type=Scalable";

const HICOLOR_INDEX: &str = "[Icon Theme]
Name=Hicolor
Directories=16x16/apps,22x22/apps,24x24/apps,96x96/apps,scalable/apps

[16x16/apps]
Size=16
Context=Applications
Type=Threshold

[22x22/apps]
Size=22
Context=Applications
Type=Threshold

[24x24/apps]
Size=24
Context=Applications
Type=Threshold

[96x96/apps]
Size=96
Context=Applications
Type=Threshold

[scalable/apps]
MinSize=1
Size=128
Context=Applications
Type=Scalable
MaxSize=256
";

const ARC_INDEX: &str = "[Icon Theme]
Name=Arc
Inherits=Moka,Faba,elementary,Adwaita,gnome,hicolor
Directories=16x16/actions

[16x16/actions]
Size=16
Type=Fixed
";

/// A machine with the themes that the tests below read.
fn host() -> (ThemeRegistry, Vec<Vec<u8>>, Disk) {
    let mut disk = Disk::new();
    disk.add_dir(b"/usr/share/icons");
    disk.add_dir(b"/usr/share/pixmaps");
    for (name, index) in [("hicolor", HICOLOR_INDEX), ("Adwaita", ADWAITA_INDEX), ("Arc", ARC_INDEX)]
    {
        disk.add_dir(format!("/usr/share/icons/{name}").as_bytes());
        disk.add_file(
            format!("/usr/share/icons/{name}/index.theme").as_bytes(),
            Some(index.as_bytes()),
        );
    }
    for icon in [
        "/usr/share/icons/hicolor/16x16/apps/blueman.png",
        "/usr/share/icons/hicolor/22x22/apps/blueman.png",
        "/usr/share/icons/hicolor/24x24/apps/blueman.png",
        "/usr/share/icons/hicolor/96x96/apps/blueman.png",
        "/usr/share/icons/hicolor/scalable/apps/blueman.svg",
        "/usr/share/icons/Adwaita/symbolic/actions/edit-delete-symbolic.svg",
    ] {
        disk.add_file(icon.as_bytes(), None);
    }
    let base_paths = icon_theme_base_paths(
        &vec![b"/usr/local/share".to_vec(), b"/usr/share".to_vec()],
        Some(b"/home/user/.local/share"),
        Some(b"/home/user"),
        &disk,
    );
    let themes = get_all_themes(&base_paths, &disk);
    (themes, base_paths, disk)
}

fn path(text: &str) -> Option<Vec<u8>> {
    Some(text.as_bytes().to_vec())
}

fn find_in<'a>(
    themes: &'a ThemeRegistry,
    disk: &Disk,
    theme: &str,
    name: &str,
    size: u16,
    prefer_svg: bool,
) -> Option<Vec<u8>> {
    themes.get(theme.as_bytes()).unwrap().iter().find_map(|t| {
        let file = disk.read(&t.index)?;
        t.try_get_icon_closest_size(disk, file, name, size, 1, prefer_svg)
    })
}

#[test]
fn get_one_icon() {
    let (themes, _, disk) = host();
    println!(
        "{:?}",
        find_in(&themes, &disk, "Adwaita", "edit-delete-symbolic", 24, false)
    );
}

#[test]
fn should_get_png_first() {
    let (themes, _, disk) = host();
    let icon = find_in(&themes, &disk, "hicolor", "blueman", 22, false);
    assert_eq!(icon, path("/usr/share/icons/hicolor/22x22/apps/blueman.png"));
}

#[test]
fn should_get_png_first_92() {
    let mut disk = Disk::new();
    disk.add_dir(b"/usr/share/icons");
    disk.add_dir(b"/usr/share/icons/hicolor");
    disk.add_file(b"/usr/share/icons/hicolor/index.theme", Some(HICOLOR_INDEX.as_bytes()));
    disk.add_file(b"/usr/share/icons/hicolor/22x22/apps/blueman.png", None);
    disk.add_file(b"/usr/share/icons/hicolor/96x96/apps/blueman.png", None);
    let themes = get_all_themes(&vec![b"/usr/share/icons".to_vec()], &disk);
    let icon = find_in(&themes, &disk, "hicolor", "blueman", 92, false);
    assert_eq!(icon, path("/usr/share/icons/hicolor/96x96/apps/blueman.png"));
}

#[test]
fn should_get_svg_first() {
    let (themes, _, disk) = host();
    let icon = find_in(&themes, &disk, "hicolor", "blueman", 24, true);
    assert_eq!(icon, path("/usr/share/icons/hicolor/scalable/apps/blueman.svg"));
}

#[test]
fn should_get_svg_first_96() {
    let (themes, _, disk) = host();
    let icon = find_in(&themes, &disk, "hicolor", "blueman", 96, true);
    assert_eq!(icon, path("/usr/share/icons/hicolor/scalable/apps/blueman.svg"));
}

#[test]
fn icon_theme_section() {
    let properties = parse::icon_theme_section(ADWAITA_INDEX.as_bytes());
    let mut iterator = properties.into_iter();

    let (key, value) = iterator.next().unwrap();
    assert_eq!(key, b"Name");
    assert_eq!(value, b"Adwaita");
    let (key, value) = iterator.next().unwrap();
    assert_eq!(key, b"Comment");
    assert_eq!(value, b"The Only One");
    let (key, value) = iterator.next().unwrap();
    assert_eq!(key, b"Example");
    assert_eq!(value, b"folder");
    let (key, value) = iterator.next().unwrap();
    assert_eq!(key, b"Inherits");
    assert_eq!(value, b"hicolor");
    let (key, value) = iterator.next().unwrap();
    assert_eq!(key, b"DisplayDepth");
    assert_eq!(value, b"32");
    let (key, value) = iterator.next().unwrap();
    assert_eq!(key, b"Directories");
    assert_eq!(value, b"16x16/actions,16x16/apps,16x16/categories,16x16/devices,16x16/emblems,16x16/emotes,16x16/legacy,16x16/mimetypes,16x16/places,16x16/status,16x16/ui,scalable/devices,scalable/mimetypes,scalable/places,scalable/status,scalable/actions,scalable/apps,scalable/categories,scalable/emblems,scalable/emotes,scalable/legacy,scalable/ui,symbolic-up-to-32/status,symbolic/actions,symbolic/apps,symbolic/categories,symbolic/devices,symbolic/emblems,symbolic/emotes,symbolic/mimetypes,symbolic/places,symbolic/status,symbolic/legacy,symbolic/ui,");
    assert_eq!(iterator.next(), None);
}

#[test]
fn should_get_theme_parents() {
    let (themes, _, disk) = host();
    for theme in themes.get(b"Arc").unwrap() {
        let file = disk.read(&theme.index).unwrap();
        let parents = theme.inherits(file);

        assert!(!parents.contains(&&b"hicolor"[..]));

        let expected: Vec<&[u8]> = vec![b"Moka", b"Faba", b"elementary", b"Adwaita", b"gnome"];
        assert_eq!(parents, expected);
    }
}

#[test]
fn should_get_all_themes() {
    let (themes, _, _) = host();
    assert!(themes.get(&b"hicolor"[..]).is_some());
}

#[test]
fn should_get_theme_paths_ordered() {
    let (_, base_paths, _) = host();
    assert!(!base_paths.is_empty())
}

#[test]
fn should_read_theme_index() {
    let (themes, _, _) = host();
    let themes: Vec<&Theme> = themes.entries.iter().flat_map(|e| e.themes.iter()).collect();
    assert!(!themes.is_empty());
}

#[test]
fn compare_to_linincon_with_theme() {
    let mut disk = Disk::new();
    disk.add_dir(b"/usr/share/icons/Papirus");
    disk.add_file(
        b"/usr/share/icons/Papirus/index.theme",
        Some(b"[Icon Theme]\nName=Papirus\nInherits=breeze,hicolor\n\n[16x16/apps]\nSize=16\nType=Fixed\n"),
    );
    disk.add_file(b"/usr/share/icons/Papirus/16x16/apps/wireshark.svg", None);
    let base_paths = vec![b"/usr/share/icons".to_vec()];
    let themes = get_all_themes(&base_paths, &disk);
    let mut cache = Cache::new();
    let lin_wireshark = path("/usr/share/icons/Papirus/16x16/apps/wireshark.svg");

    let wireshark = lookup("wireshark")
        .with_size(16)
        .with_scale(1)
        .with_theme("Papirus")
        .find(&themes, &base_paths, &disk, &mut cache, 0);

    assert_eq!(
        wireshark, lin_wireshark,
        "Given the same input parameter, lookup should output be the same as linincon"
    );
}

#[test]
fn base_paths_are_the_candidates_that_exist() {
    let mut disk = Disk::new();
    disk.add_dir(b"/usr/share/pixmaps");
    disk.add_dir(b"/home/user/.icons");
    disk.add_dir(b"/home/user/.local/share/icons");
    disk.add_dir(b"/usr/local/share/icons");
    let base_paths = icon_theme_base_paths(
        &vec![b"/usr/local/share".to_vec(), b"/usr/share/".to_vec()],
        Some(b"/home/user/.local/share"),
        Some(b"/home/user"),
        &disk,
    );
    assert_eq!(
        base_paths,
        vec![
            b"/usr/local/share/icons".to_vec(),
            b"/usr/share/pixmaps".to_vec(),
            b"/home/user/.local/share/icons".to_vec(),
            b"/home/user/.icons".to_vec(),
        ]
    );
    assert!(icon_theme_base_paths(&vec![], None, None, &disk).is_empty());
}

#[test]
fn last_line_without_newline_is_not_read() {
    let dirs = get_all_directories(ADWAITA_INDEX.as_bytes());
    assert_eq!(dirs.len(), 34);
    let last = &dirs[33];
    assert_eq!(last.name, "symbolic/ui");
    assert_eq!(last.size, 16);
    assert_eq!(last.minsize, 8);
    assert_eq!(last.maxsize, 512);
    assert_eq!(last.type_, DirectoryType::Threshold);
    let first = &dirs[0];
    assert_eq!(first.name, "16x16/actions");
    assert_eq!(first.type_, DirectoryType::Fixed);
    assert_eq!((first.size, first.scale, first.minsize, first.maxsize, first.threshold), (16, 1, 16, 16, 2));
}

#[test]
fn directories_are_read_with_their_defaults() {
    let index = b"Size=1\n[Icon Theme]\nSize=3\n[a/b]\nSize=48\nScale=2\nType=Scalable\nMinSize=-1\nMaxSize=+256\nThreshold=7\nOther=x\n\n  [c]  \n Size=32 \n# Size=99\n";
    let dirs = get_all_directories(index);
    assert_eq!(dirs.len(), 2);
    assert_eq!(dirs[0].name, "a/b");
    assert_eq!(
        (dirs[0].size, dirs[0].scale, dirs[0].minsize, dirs[0].maxsize, dirs[0].threshold),
        (48, 2, -1, 256, 7)
    );
    assert_eq!(dirs[0].type_, DirectoryType::Scalable);
    assert_eq!(dirs[1].name, "c");
    assert_eq!(
        (dirs[1].size, dirs[1].scale, dirs[1].minsize, dirs[1].maxsize, dirs[1].threshold),
        (32, 1, 32, 32, 2)
    );
    assert_eq!(dirs[1].type_, DirectoryType::Threshold);
}

#[test]
fn sections_without_a_usable_size_or_name_are_dropped() {
    let index = b"[no-size]\nType=Fixed\n[bad-size]\nSize=4x\n[spaced]\nSize = 4\n[too-big]\nSize=32768\n[]\nSize=1\n[\nSize=2\n[\xff\xfe]\nSize=3\n[late]\nSize=5\nSize=\n[twice]\nSize=x\nSize=6\n[edge]\nSize=-32768\nType=\n";
    let dirs = get_all_directories(index);
    let names: Vec<&str> = dirs.iter().map(|d| d.name).collect();
    assert_eq!(names, vec!["twice", "edge"]);
    assert_eq!(dirs[0].size, 6);
    assert_eq!(dirs[1].size, -32768);
    assert_eq!(dirs[1].type_, DirectoryType::Threshold);
}

#[test]
fn numbers_are_parsed_as_decimal_integers_of_16_bits() {
    let size_of = |text: &str| {
        let index = format!("[d]\nSize={text}\n");
        get_all_directories(index.as_bytes()).first().map(|d| d.size)
    };
    assert_eq!(size_of("48"), Some(48));
    assert_eq!(size_of("+48"), Some(48));
    assert_eq!(size_of("-48"), Some(-48));
    assert_eq!(size_of("0048"), Some(48));
    assert_eq!(size_of("32767"), Some(32767));
    assert_eq!(size_of("32768"), None);
    assert_eq!(size_of("-32769"), None);
    assert_eq!(size_of(""), None);
    assert_eq!(size_of("+"), None);
    assert_eq!(size_of("-"), None);
    assert_eq!(size_of("+-4"), None);
    assert_eq!(size_of("4 8"), None);
    assert_eq!(size_of("0x10"), None);
}

#[test]
fn lines_are_read_one_by_one() {
    let mut cursor = sections(b"  [a]\n\nk=v=w\n# note\n=x\ntail");
    assert!(matches!(cursor.next_section(), Some(DirectorySection::Section(b"a"))));
    assert!(matches!(cursor.next_section(), Some(DirectorySection::Blank)));
    assert!(matches!(cursor.next_section(), Some(DirectorySection::Property(b"k", b"v=w"))));
    assert!(matches!(cursor.next_section(), Some(DirectorySection::Other)));
    assert!(matches!(cursor.next_section(), Some(DirectorySection::Property(b"", b"x"))));
    assert!(cursor.next_section().is_none());
    assert!(cursor.next_section().is_none());
    assert!(matches!(classify_line(b"["), DirectorySection::Section(b"")));
    assert!(matches!(classify_line(b"[ab"), DirectorySection::Section(b"a")));
    assert!(matches!(classify_line(b"\t \r"), DirectorySection::Blank));
}

#[test]
fn values_are_cut_at_every_separator() {
    let pieces = split_on(b"a,,b,", b',');
    let expected: Vec<&[u8]> = vec![b"a", b"", b"b", b""];
    assert_eq!(pieces, expected);
    let whole = split_on(b"", b',');
    let expected: Vec<&[u8]> = vec![b""];
    assert_eq!(whole, expected);
}

#[test]
fn parents_are_read_from_the_theme_section_only() {
    let theme = Theme { path: ThemePath(b"/t".to_vec()), index: b"/t/index.theme".to_vec() };
    let none: Vec<&[u8]> = vec![];
    assert_eq!(theme.inherits(b"Inherits=a\n[Other]\nInherits=b\n"), none);
    assert_eq!(theme.inherits(b"[Icon Theme]\nName=x\n[Other]\nInherits=b\n"), none);
    assert_eq!(theme.inherits(b"[Icon Theme]\nInherits=hicolor\n"), none);
    let expected: Vec<&[u8]> = vec![b"b", b" c", b""];
    assert_eq!(
        theme.inherits(b"[Other]\nInherits=a\n[Icon Theme]\nInherits=b,hicolor, c,\nInherits=d\n"),
        expected
    );
}

fn directory(type_: DirectoryType, size: i16, scale: i16, minsize: i16, maxsize: i16) -> Directory<'static> {
    Directory { name: "d", size, scale, type_, maxsize, minsize, threshold: 2 }
}

#[test]
fn distance_of_a_fixed_directory() {
    let d = directory(DirectoryType::Fixed, 48, 1, 48, 48);
    assert_eq!(d.directory_size_distance(48, 1), 0);
    assert_eq!(d.directory_size_distance(92, 1), -44);
    assert_eq!(d.directory_size_distance(24, 1), 24);
    assert_eq!(d.directory_size_distance(24, 2), 0);
    assert!(d.matches_size(48, 1));
    assert!(!d.matches_size(24, 2));
    assert_eq!(d.size_gap(92, 1), 44);
    let doubled = directory(DirectoryType::Fixed, 24, 2, 24, 24);
    assert_eq!(doubled.directory_size_distance(24, 2), 0);
    assert!(doubled.matches_size(24, 2));
    assert!(!doubled.matches_size(48, 1));
}

#[test]
fn distance_of_a_scalable_directory() {
    let d = directory(DirectoryType::Scalable, 128, 1, 8, 512);
    assert_eq!(d.directory_size_distance(8, 1), 0);
    assert_eq!(d.directory_size_distance(512, 1), 0);
    assert_eq!(d.directory_size_distance(4, 1), 4);
    assert_eq!(d.directory_size_distance(600, 1), 88);
    assert_eq!(d.directory_size_distance(300, 2), 88);
    assert!(d.matches_size(24, 1));
    assert!(!d.matches_size(600, 1));
}

#[test]
fn distance_of_a_threshold_directory() {
    let d = directory(DirectoryType::Threshold, 48, 1, 48, 48);
    assert_eq!(d.directory_size_distance(46, 1), 0);
    assert_eq!(d.directory_size_distance(50, 1), 0);
    assert_eq!(d.directory_size_distance(45, 1), 3);
    assert_eq!(d.directory_size_distance(51, 1), 3);
    assert_eq!(d.directory_size_distance(24, 2), 0);
    assert_eq!(d.directory_size_distance(20, 2), 8);
    assert!(d.matches_size(47, 1));
    assert!(!d.matches_size(45, 1));
}

#[test]
fn distance_of_the_largest_numbers_does_not_overflow() {
    let d = directory(DirectoryType::Fixed, i16::MIN, i16::MIN, 0, 0);
    assert_eq!(d.directory_size_distance(u16::MAX, u16::MAX), 1_073_741_824 - 4_294_836_225);
    assert_eq!(d.size_gap(u16::MAX, u16::MAX), 3_221_094_401);
    let t = Directory {
        name: "t",
        size: i16::MIN,
        scale: i16::MIN,
        type_: DirectoryType::Threshold,
        maxsize: i16::MIN,
        minsize: i16::MAX,
        threshold: i16::MAX,
    };
    assert_eq!(t.directory_size_distance(0, u16::MAX), -1_073_741_824);
}

#[test]
fn type_is_read_from_the_first_byte() {
    assert_eq!(DirectoryType::from(&b"Fixed"[..]), DirectoryType::Fixed);
    assert_eq!(DirectoryType::from(&b"Scalable"[..]), DirectoryType::Scalable);
    assert_eq!(DirectoryType::from(&b"Threshold"[..]), DirectoryType::Threshold);
    assert_eq!(DirectoryType::from(&b"fixed"[..]), DirectoryType::Threshold);
    assert_eq!(DirectoryType::from(&b""[..]), DirectoryType::Threshold);
    assert_eq!(DirectoryType::default(), DirectoryType::Threshold);
}

#[test]
fn directories_are_ranked_by_distance_then_by_kind_then_by_declaration() {
    let dirs = vec![
        Directory { name: "far", ..directory(DirectoryType::Fixed, 96, 1, 96, 96) },
        Directory { name: "fixed", ..directory(DirectoryType::Fixed, 48, 1, 48, 48) },
        Directory { name: "scalable", ..directory(DirectoryType::Scalable, 128, 1, 8, 512) },
        Directory { name: "threshold", ..directory(DirectoryType::Threshold, 47, 1, 47, 47) },
        Directory { name: "near", ..directory(DirectoryType::Fixed, 50, 1, 50, 50) },
    ];
    let png_first = rank_directories(&dirs, 48, 1, false);
    assert_eq!(
        png_first,
        vec![
            ("fixed", 0, false),
            ("threshold", 0, false),
            ("scalable", 0, true),
            ("near", 2, false),
            ("far", 48, false),
        ]
    );
    let svg_first = rank_directories(&dirs, 48, 1, true);
    assert_eq!(
        svg_first,
        vec![
            ("scalable", 0, true),
            ("fixed", 0, false),
            ("threshold", 0, false),
            ("near", 2, false),
            ("far", 48, false),
        ]
    );
}

#[test]
fn icon_is_looked_for_with_each_extension() {
    let mut disk = Disk::new();
    disk.add_file(b"/d/app.xpm", None);
    disk.add_file(b"/d/app.svg", None);
    disk.add_file(b"/e/app.png", None);
    disk.add_file(b"/e/app.svg", None);
    assert_eq!(try_build_icon_path(&disk, b"/d", b"app", false), path("/d/app.svg"));
    assert_eq!(try_build_icon_path(&disk, b"/d/", b"app", true), path("/d/app.svg"));
    assert_eq!(try_build_icon_path(&disk, b"/e", b"app", false), path("/e/app.png"));
    assert_eq!(try_build_icon_path(&disk, b"/e", b"app", true), path("/e/app.svg"));
    assert_eq!(try_build_icon_path(&disk, b"/f", b"app", true), None);
    assert_eq!(try_build_icon_path(&disk, b"", b"app", true), None);
}

#[test]
fn theme_without_readable_index_has_no_icons() {
    let mut disk = Disk::new();
    disk.add_dir(b"/icons/bare");
    disk.add_file(b"/icons/bare/index.theme", None);
    disk.add_file(b"/icons/bare/24x24/apps/app.png", None);
    let theme = Theme::from_path(&disk, b"/icons/bare", None).unwrap();
    assert_eq!(theme.path(), b"/icons/bare");
    assert_eq!(theme.try_get_icon(&disk, "app", 24, 1, false), None);
    assert_eq!(theme.try_get_icon_exact_size(&disk, "app", 24, 1, false), None);
}

#[test]
fn themes_without_an_index_borrow_the_first_of_their_name() {
    let mut disk = Disk::new();
    disk.add_dir(b"/home/user/.icons/Mine");
    disk.add_dir(b"/home/user/.icons/Other");
    disk.add_file(b"/home/user/.icons/stray.png", None);
    disk.add_dir(b"/usr/share/icons/Mine");
    disk.add_file(b"/usr/share/icons/Mine/index.theme", Some(b"[Icon Theme]\n"));
    disk.add_dir(b"/opt/icons/Mine");
    disk.add_file(b"/opt/icons/Mine/index.theme", Some(b"[Icon Theme]\n"));
    disk.add_dir(b"/srv/icons/Mine");
    let base_paths = vec![
        b"/home/user/.icons".to_vec(),
        b"/usr/share/icons".to_vec(),
        b"/opt/icons".to_vec(),
        b"/srv/icons".to_vec(),
    ];
    let themes = get_all_themes(&base_paths, &disk);
    assert_eq!(themes.entries.len(), 1);
    assert!(themes.get(b"Other").is_none());
    let mine = themes.get(b"Mine").unwrap();
    let found: Vec<(&[u8], &[u8])> =
        mine.iter().map(|t| (t.path.0.as_slice(), t.index.as_slice())).collect();
    let expected: Vec<(&[u8], &[u8])> = vec![
        (b"/usr/share/icons/Mine", b"/usr/share/icons/Mine/index.theme"),
        (b"/opt/icons/Mine", b"/opt/icons/Mine/index.theme"),
        (b"/srv/icons/Mine", b"/usr/share/icons/Mine/index.theme"),
        (b"/home/user/.icons/Mine", b"/usr/share/icons/Mine/index.theme"),
    ];
    assert_eq!(found, expected);
}

#[test]
fn base_path_candidates_follow_the_data_directories() {
    let all = base_path_candidates(
        &vec![b"/usr/local/share".to_vec(), b"/usr/share/".to_vec()],
        Some(b"/home/user/.local/share"),
        Some(b"/home/user"),
    );
    assert_eq!(
        all,
        vec![
            b"/usr/local/share/icons".to_vec(),
            b"/usr/local/share/pixmaps".to_vec(),
            b"/usr/share/icons".to_vec(),
            b"/usr/share/pixmaps".to_vec(),
            b"/home/user/.local/share/icons".to_vec(),
            b"/home/user/.local/share/pixmaps".to_vec(),
            b"/home/user/.icons".to_vec(),
        ]
    );
    assert!(base_path_candidates(&vec![], None, None).is_empty());
}

#[test]
fn every_extension_is_tried_in_a_directory_before_the_next_directory() {
    let mut disk = Disk::new();
    disk.add_file(b"/P/a/icon.svg", None);
    disk.add_file(b"/P/b/icon.png", None);
    let theme = Theme { path: ThemePath(b"/P".to_vec()), index: b"/P/index.theme".to_vec() };
    let dir_names = vec![("a", 0, false), ("b", 8, false)];
    assert_eq!(theme.try_fold_icon_path(&disk, &dir_names, "icon", false), path("/P/a/icon.svg"));
    assert_eq!(theme.try_fold_icon_path(&disk, &dir_names, "icon", true), path("/P/a/icon.svg"));
    let far_first = vec![("b", 8, false), ("a", 0, false)];
    assert_eq!(theme.try_fold_icon_path(&disk, &far_first, "icon", true), path("/P/b/icon.png"));
    assert_eq!(theme.try_fold_icon_path(&disk, &vec![], "icon", true), None);
}

#[test]
fn the_closest_directory_wins_whatever_the_extension() {
    let mut disk = Disk::new();
    disk.add_dir(b"/icons/hicolor");
    disk.add_file(
        b"/icons/hicolor/index.theme",
        Some(b"[Icon Theme]\n\n[64x64/apps]\nSize=64\nType=Fixed\n\n[32x32/apps]\nSize=32\nType=Fixed\n"),
    );
    disk.add_file(b"/icons/hicolor/64x64/apps/icon.png", None);
    disk.add_file(b"/icons/hicolor/32x32/apps/icon.svg", None);
    let theme = Theme::from_path(&disk, b"/icons/hicolor", None).unwrap();
    assert_eq!(
        theme.try_get_icon(&disk, "icon", 30, 1, false),
        path("/icons/hicolor/32x32/apps/icon.svg")
    );
    assert_eq!(
        theme.try_get_icon(&disk, "icon", 60, 1, true),
        path("/icons/hicolor/64x64/apps/icon.png")
    );
}
