use cosmic_freedesktop_icons::cache::{Cache, CacheEntry};
use cosmic_freedesktop_icons::disk::Disk;
use cosmic_freedesktop_icons::lookup;
use cosmic_freedesktop_icons::theme::registry::{get_all_themes, ThemeRegistry};
use cosmic_freedesktop_icons::theme::Theme;
use cosmic_freedesktop_icons::engine::fallback_names;
use cosmic_freedesktop_icons::{default_theme_gtk, list_themes};

const HICOLOR_INDEX: &str = "[Icon Theme]
Name=Hicolor
Comment=Fallback icon theme
Hidden=true
Directories=16x16/apps,22x22/apps,24x24/apps,32x32/apps,48x48/apps,96x96/apps,scalable/apps

[16x16/apps]
Size=16
Context=Applications
Type=Threshold

[22x22/apps]
Size=22
Context=Applications
Type=Threshold

[24x24/apps]
Size=24
Context=Applications
Type=Threshold

[32x32/apps]
Size=32
Context=Applications
Type=Threshold

[48x48/apps]
Size=48
Context=Applications
Type=Threshold

[96x96/apps]
Size=96
Context=Applications
Type=Threshold

[scalable/apps]
MinSize=1
Size=128
Context=Applications
Type=Scalable
MaxSize=256
";

const COSMIC_INDEX: &str = "[Icon Theme]
Name=Cosmic
Inherits=Pop,Adwaita,hicolor
Directories=scalable/status

[scalable/status]
Size=16
MinSize=8
MaxSize=512
Context=Status
Type=Scalable
";

const GNOME_INDEX: &str = "[Icon Theme]
Name=GNOME
Directories=24x24/categories

[24x24/categories]
Size=24
Context=Categories
Type=Fixed
";

const YARU_INDEX: &str = "[Icon Theme]
Name=Yaru
Inherits=Humanity,hicolor
Directories=24x24/apps

[24x24/apps]
Size=24
Context=Applications
Type=Fixed
";

const PAPIRUS_INDEX: &str = "[Icon Theme]
Name=Papirus
Inherits=breeze,hicolor
Directories=16x16/apps,24x24/apps

[16x16/apps]
Size=16
Context=Applications
Type=Fixed

[24x24/apps]
Size=24
Context=Applications
Type=Fixed
";

const ARC_INDEX: &str = "[Icon Theme]
Name=Arc
Inherits=Moka,Faba,elementary,Adwaita,gnome,hicolor
Directories=16x16/actions

[16x16/actions]
Size=16
Context=Actions
Type=Fixed
";

const ADWAITA_INDEX: &str = "[Icon Theme]
Name=Adwaita
Inherits=hicolor
Directories=symbolic/devices,symbolic/actions

[symbolic/devices]
Context=Devices
Size=16
MinSize=8
MaxSize=512
Type=Scalable

[symbolic/actions]
Context=Actions
Size=16
MinSize=8
MaxSize=512
Type=Scalable
";

fn add_theme(disk: &mut Disk, name: &str, index: &str) {
    let dir = format!("/usr/share/icons/{name}");
    disk.add_dir(dir.as_bytes());
    disk.add_file(format!("{dir}/index.theme").as_bytes(), Some(index.as_bytes()));
}

fn add_icon(disk: &mut Disk, path: &str) {
    disk.add_file(path.as_bytes(), None);
}

/// A machine with the themes and icons that the lookups below go by.
fn host(home: &str) -> (ThemeRegistry, Vec<Vec<u8>>, Disk) {
    let mut disk = Disk::new();
    disk.add_dir(b"/usr/share/icons");
    disk.add_dir(b"/usr/share/pixmaps");
    add_theme(&mut disk, "hicolor", HICOLOR_INDEX);
    add_theme(&mut disk, "Cosmic", COSMIC_INDEX);
    add_theme(&mut disk, "gnome", GNOME_INDEX);
    add_theme(&mut disk, "Yaru", YARU_INDEX);
    add_theme(&mut disk, "Papirus", PAPIRUS_INDEX);
    add_theme(&mut disk, "Arc", ARC_INDEX);
    add_theme(&mut disk, "Adwaita", ADWAITA_INDEX);
    for icon in [
        "/usr/share/icons/hicolor/16x16/apps/firefox.png",
        "/usr/share/icons/hicolor/32x32/apps/firefox.png",
        "/usr/share/icons/hicolor/48x48/apps/firefox.png",
        "/usr/share/icons/hicolor/24x24/apps/libreoffice-startcenter.png",
        "/usr/share/icons/Cosmic/scalable/status/weather-storm-symbolic.svg",
        "/usr/share/icons/gnome/24x24/categories/preferences-system-network.png",
        "/usr/share/icons/Yaru/24x24/apps/jockey.png",
        "/usr/share/icons/Papirus/24x24/apps/firefox.svg",
        "/usr/share/icons/Papirus/16x16/apps/wireshark.svg",
        "/usr/share/icons/Adwaita/symbolic/devices/video-single-display-symbolic.svg",
        "/usr/share/pixmaps/vscode.png",
        "/usr/share/pixmaps/archlinux-logo.png",
    ] {
        add_icon(&mut disk, icon);
    }
    let flatpak = format!("{home}/.local/share/flatpak/exports/share/icons");
    disk.add_dir(flatpak.as_bytes());
    disk.add_dir(format!("{flatpak}/hicolor").as_bytes());
    add_icon(&mut disk, &format!("{flatpak}/hicolor/scalable/apps/com.slack.Slack.svg"));
    let base_paths = vec![
        b"/usr/share/icons".to_vec(),
        b"/usr/share/pixmaps".to_vec(),
        flatpak.into_bytes(),
    ];
    let themes = get_all_themes(&base_paths, &disk);
    (themes, base_paths, disk)
}

fn path(text: &str) -> Option<Vec<u8>> {
    Some(text.as_bytes().to_vec())
}

#[test]
fn hicolor_firefox_24_png() {
    let (themes, base_paths, disk) = host("/home/user");
    let mut cache = Cache::new();
    let firefox = lookup("firefox").find(&themes, &base_paths, &disk, &mut cache, 0);

    assert_eq!(
        firefox,
        path("/usr/share/icons/hicolor/16x16/apps/firefox.png"),
        "Firefox contains only a 16x16 and 32x32 icon, so 16x16 should be returned"
    );
}

#[test]
fn hicolor_firefox_48_png() {
    let (themes, base_paths, disk) = host("/home/user");
    let mut cache = Cache::new();
    let firefox = lookup("firefox")
        .with_size(48)
        .find(&themes, &base_paths, &disk, &mut cache, 0);

    assert_eq!(
        firefox,
        path("/usr/share/icons/hicolor/48x48/apps/firefox.png"),
        "Firefox has a 48x48 icon, so that should be returned"
    );
}

#[test]
fn hicolor_firefox_svg_fallback_to_png() {
    let (themes, base_paths, disk) = host("/home/user");
    let mut cache = Cache::new();
    let firefox = lookup("firefox")
        .force_svg()
        .find(&themes, &base_paths, &disk, &mut cache, 0);

    assert_eq!(
        firefox,
        path("/usr/share/icons/hicolor/16x16/apps/firefox.png"),
        "Lookup with no parameters should return an existing icon"
    );
}

#[test]
fn cosmic_weather_storm_symbolic() {
    let (themes, base_paths, disk) = host("/home/user");
    let mut cache = Cache::new();
    let firefox = lookup("weather-storm-symbolic").find(&themes, &base_paths, &disk, &mut cache, 0);

    assert_eq!(
        firefox,
        path("/usr/share/icons/Cosmic/scalable/status/weather-storm-symbolic.svg"),
        "Is the cosmic icon theme installed?"
    );
}

#[test]
fn cosmic_weather_storm_symbolic_force_svg() {
    let (themes, base_paths, disk) = host("/home/user");
    let mut cache = Cache::new();
    let firefox = lookup("weather-storm-symbolic")
        .force_svg()
        .find(&themes, &base_paths, &disk, &mut cache, 0);

    assert_eq!(
        firefox,
        path("/usr/share/icons/Cosmic/scalable/status/weather-storm-symbolic.svg"),
        "Is the cosmic icon theme installed?"
    );
}

#[test]
fn flatpak_slack() {
    let home = "/home/user";
    let (themes, base_paths, disk) = host(home);
    let mut cache = Cache::new();

    assert_eq!(
        lookup("com.slack.Slack").find(&themes, &base_paths, &disk, &mut cache, 0),
        path(&format!(
            "{home}/.local/share/flatpak/exports/share/icons/hicolor/scalable/apps/com.slack.Slack.svg"
        )),
        "Is the Slack flatpak installed locally?"
    );
}

#[test]
fn vscode_pixmap() {
    let (themes, base_paths, disk) = host("/home/user");
    let mut cache = Cache::new();
    assert_eq!(
        lookup("vscode").find(&themes, &base_paths, &disk, &mut cache, 0),
        path("/usr/share/pixmaps/vscode.png"),
        "Is VS Code installed locally on the host?"
    );
}

#[test]
fn libreoffice_startcenter() {
    let (themes, base_paths, disk) = host("/home/user");
    let mut cache = Cache::new();
    assert_eq!(
        lookup("libreoffice-startcenter").find(&themes, &base_paths, &disk, &mut cache, 0),
        path("/usr/share/icons/hicolor/24x24/apps/libreoffice-startcenter.png"),
        "Is libreoffice installed locally on the host?"
    );
}

#[test]
fn gnome_advanced_network() {
    let (themes, base_paths, disk) = host("/home/user");
    let mut cache = Cache::new();
    assert_eq!(
        lookup("preferences-system-network").find(&themes, &base_paths, &disk, &mut cache, 0),
        path("/usr/share/icons/gnome/24x24/categories/preferences-system-network.png"),
        "Is the gnome icon theme installed?"
    );
}

#[test]
fn ubuntu_additional_drivers() {
    let (themes, base_paths, disk) = host("/home/user");
    let mut cache = Cache::new();
    assert_eq!(
        lookup("jockey").find(&themes, &base_paths, &disk, &mut cache, 0),
        path("/usr/share/icons/Yaru/24x24/apps/jockey.png"),
        "Is the gnome icon theme installed?"
    );
}

#[test]
fn theme_lookup() {
    let (themes, base_paths, disk) = host("/home/user");
    let mut cache = Cache::new();
    let firefox = lookup("firefox")
        .with_theme("Papirus")
        .find(&themes, &base_paths, &disk, &mut cache, 0);

    assert_eq!(
        firefox,
        path("/usr/share/icons/Papirus/24x24/apps/firefox.svg"),
        "Lookup with no parameters should return an existing icon"
    );
}

#[test]
fn should_fallback_to_parent_theme() {
    let (themes, base_paths, disk) = host("/home/user");
    let mut cache = Cache::new();
    let icon = lookup("video-single-display-symbolic")
        .with_theme("Arc")
        .find(&themes, &base_paths, &disk, &mut cache, 0);

    assert_eq!(
        icon,
        path("/usr/share/icons/Adwaita/symbolic/devices/video-single-display-symbolic.svg"),
        "Lookup for an icon in the Arc theme should find the icon in its parent"
    );
}

#[test]
fn should_fallback_to_pixmaps_utlimately() {
    let (themes, base_paths, disk) = host("/home/user");
    let mut cache = Cache::new();
    let archlinux_logo = lookup("archlinux-logo")
        .with_size(16)
        .with_scale(1)
        .with_theme("Papirus")
        .find(&themes, &base_paths, &disk, &mut cache, 0);

    assert_eq!(
        archlinux_logo,
        path("/usr/share/pixmaps/archlinux-logo.png"),
        "When lookup fail in theme, icon should be found in '/usr/share/pixmaps'"
    );
}

#[test]
fn should_not_attempt_to_lookup_a_not_found_cached_icon() {
    let (themes, base_paths, disk) = host("/home/user");
    let mut cache = Cache::new();
    let not_found = lookup("not-found")
        .with_cache()
        .find(&themes, &base_paths, &disk, &mut cache, 1_000);

    assert!(not_found.is_none());

    let expected_cache_result = cache.get("hicolor", 24, 1, "not-found");

    assert!(
        matches!(expected_cache_result, CacheEntry::NotFound(..)),
        "When lookup fails a first time, subsequent attempts should fail from cache"
    );
}

#[test]
fn empty_name_finds_nothing_and_stores_nothing() {
    let (themes, base_paths, disk) = host("/home/user");
    let mut cache = Cache::new();
    let found = lookup("")
        .with_cache()
        .find(&themes, &base_paths, &disk, &mut cache, 0);
    assert_eq!(found, None);
    assert_eq!(cache.get("hicolor", 24, 1, ""), CacheEntry::Unknown);
}

#[test]
fn lookup_without_any_theme_finds_nothing_and_stores_nothing() {
    let mut disk = Disk::new();
    disk.add_dir(b"/usr/share/pixmaps");
    disk.add_file(b"/usr/share/pixmaps/vscode.png", None);
    let base_paths = vec![b"/usr/share/pixmaps".to_vec()];
    let themes = get_all_themes(&base_paths, &disk);
    let mut cache = Cache::new();
    let found = lookup("vscode")
        .with_cache()
        .find(&themes, &base_paths, &disk, &mut cache, 0);
    assert_eq!(found, None);
    assert_eq!(cache.get("hicolor", 24, 1, "vscode"), CacheEntry::Unknown);
}

#[test]
fn unknown_theme_falls_back_to_hicolor() {
    let (themes, base_paths, disk) = host("/home/user");
    let mut cache = Cache::new();
    let found = lookup("firefox")
        .with_theme("no-such-theme")
        .with_size(48)
        .find(&themes, &base_paths, &disk, &mut cache, 0);
    assert_eq!(found, path("/usr/share/icons/hicolor/48x48/apps/firefox.png"));
}

/// Two fixed directories of 48 and 96 pixels, each with the icon.
fn two_sizes() -> (ThemeRegistry, Vec<Vec<u8>>, Disk) {
    let mut disk = Disk::new();
    disk.add_dir(b"/icons/hicolor");
    disk.add_file(
        b"/icons/hicolor/index.theme",
        Some(
            b"[Icon Theme]\nName=Hicolor\n\n[48x48/apps]\nSize=48\nType=Fixed\n\n[96x96/apps]\nSize=96\nType=Fixed\n",
        ),
    );
    disk.add_file(b"/icons/hicolor/48x48/apps/firefox.png", None);
    disk.add_file(b"/icons/hicolor/96x96/apps/firefox.png", None);
    let base_paths = vec![b"/icons".to_vec()];
    let themes = get_all_themes(&base_paths, &disk);
    (themes, base_paths, disk)
}

#[test]
fn exact_size_directory_is_returned() {
    let (themes, base_paths, disk) = two_sizes();
    let mut cache = Cache::new();
    let found = lookup("firefox")
        .with_size(48)
        .find(&themes, &base_paths, &disk, &mut cache, 0);
    assert_eq!(found, path("/icons/hicolor/48x48/apps/firefox.png"));
}

#[test]
fn closest_size_directory_is_returned() {
    let (themes, base_paths, disk) = two_sizes();
    let mut cache = Cache::new();
    let found = lookup("firefox")
        .with_size(92)
        .find(&themes, &base_paths, &disk, &mut cache, 0);
    assert_eq!(found, path("/icons/hicolor/96x96/apps/firefox.png"));
}

#[test]
fn exact_match_in_a_later_theme_beats_closest_match_in_the_first() {
    let mut disk = Disk::new();
    disk.add_dir(b"/icons/first");
    disk.add_file(
        b"/icons/first/index.theme",
        Some(b"[Icon Theme]\nInherits=second\n\n[16x16/apps]\nSize=16\nType=Fixed\n"),
    );
    disk.add_file(b"/icons/first/16x16/apps/app.png", None);
    disk.add_dir(b"/icons/second");
    disk.add_file(
        b"/icons/second/index.theme",
        Some(b"[Icon Theme]\nName=Second\n\n[24x24/apps]\nSize=24\nType=Fixed\n"),
    );
    disk.add_file(b"/icons/second/24x24/apps/app.png", None);
    let base_paths = vec![b"/icons".to_vec()];
    let themes = get_all_themes(&base_paths, &disk);
    let mut cache = Cache::new();
    let found = lookup("app")
        .with_theme("first")
        .find(&themes, &base_paths, &disk, &mut cache, 0);
    assert_eq!(found, path("/icons/second/24x24/apps/app.png"));
}

#[test]
fn a_fixed_directory_is_exact_only_at_its_own_size_and_scale() {
    let mut disk = Disk::new();
    disk.add_dir(b"/icons/hicolor");
    disk.add_file(
        b"/icons/hicolor/index.theme",
        Some(
            b"[Icon Theme]\n\n[48x48/apps]\nSize=48\nType=Fixed\n\n[24x24@2/apps]\nSize=24\nScale=2\nType=Fixed\n",
        ),
    );
    disk.add_file(b"/icons/hicolor/48x48/apps/app.png", None);
    disk.add_file(b"/icons/hicolor/24x24@2/apps/app.png", None);
    let base_paths = vec![b"/icons".to_vec()];
    let themes = get_all_themes(&base_paths, &disk);
    let mut cache = Cache::new();
    let found = lookup("app")
        .with_size(24)
        .with_scale(2)
        .find(&themes, &base_paths, &disk, &mut cache, 0);
    assert_eq!(found, path("/icons/hicolor/24x24@2/apps/app.png"));
}

#[test]
fn inherited_theme_is_searched() {
    let mut disk = Disk::new();
    disk.add_dir(b"/icons/custom-dark");
    disk.add_file(
        b"/icons/custom-dark/index.theme",
        Some(b"[Icon Theme]\nName=Custom Dark\nInherits=custom-base\n\n[24x24/apps]\nSize=24\n"),
    );
    disk.add_dir(b"/icons/custom-base");
    disk.add_file(
        b"/icons/custom-base/index.theme",
        Some(b"[Icon Theme]\nName=Custom Base\n\n[24x24/apps]\nSize=24\n"),
    );
    disk.add_file(b"/icons/custom-base/24x24/apps/tool.png", None);
    let base_paths = vec![b"/icons".to_vec()];
    let themes = get_all_themes(&base_paths, &disk);
    let mut cache = Cache::new();
    let found = lookup("tool")
        .with_theme("custom-dark")
        .find(&themes, &base_paths, &disk, &mut cache, 0);
    assert_eq!(found, path("/icons/custom-base/24x24/apps/tool.png"));
}

/// Three themes that inherit from each other in a circle, and a fourth that
/// only the third names.
fn circle() -> (ThemeRegistry, Vec<Vec<u8>>, Disk) {
    let mut disk = Disk::new();
    for (name, parents) in [("a", "b"), ("b", "c"), ("c", "a,d"), ("d", "a")] {
        disk.add_dir(format!("/icons/{name}").as_bytes());
        disk.add_file(
            format!("/icons/{name}/index.theme").as_bytes(),
            Some(
                format!("[Icon Theme]\nInherits={parents}\n\n[24x24/apps]\nSize=24\nType=Fixed\n")
                    .as_bytes(),
            ),
        );
    }
    disk.add_file(b"/icons/d/24x24/apps/deep.png", None);
    let base_paths = vec![b"/icons".to_vec()];
    let themes = get_all_themes(&base_paths, &disk);
    (themes, base_paths, disk)
}

#[test]
fn inheritance_in_a_circle_ends() {
    let (themes, base_paths, disk) = circle();
    let mut cache = Cache::new();
    let found = lookup("missing")
        .with_theme("a")
        .find(&themes, &base_paths, &disk, &mut cache, 0);
    assert_eq!(found, None);
}

#[test]
fn inheritance_is_followed_through_several_themes() {
    let (themes, base_paths, disk) = circle();
    let mut cache = Cache::new();
    let found = lookup("deep")
        .with_theme("a")
        .find(&themes, &base_paths, &disk, &mut cache, 0);
    assert_eq!(found, path("/icons/d/24x24/apps/deep.png"));
}

#[test]
fn parents_are_searched_before_their_parents() {
    let mut disk = Disk::new();
    for (name, parents) in [("top", "left,right"), ("left", "far"), ("right", ""), ("far", "")] {
        disk.add_dir(format!("/icons/{name}").as_bytes());
        disk.add_file(
            format!("/icons/{name}/index.theme").as_bytes(),
            Some(
                format!("[Icon Theme]\nInherits={parents}\n\n[24x24/apps]\nSize=24\nType=Fixed\n")
                    .as_bytes(),
            ),
        );
    }
    disk.add_file(b"/icons/far/24x24/apps/app.png", None);
    disk.add_file(b"/icons/right/24x24/apps/app.png", None);
    let base_paths = vec![b"/icons".to_vec()];
    let themes = get_all_themes(&base_paths, &disk);
    let mut cache = Cache::new();
    let found = lookup("app")
        .with_theme("top")
        .find(&themes, &base_paths, &disk, &mut cache, 0);
    assert_eq!(found, path("/icons/right/24x24/apps/app.png"));
}

#[test]
fn hicolor_is_searched_though_no_theme_names_it() {
    let mut disk = Disk::new();
    disk.add_dir(b"/icons/plain");
    disk.add_file(
        b"/icons/plain/index.theme",
        Some(b"[Icon Theme]\nName=Plain\n\n[24x24/apps]\nSize=24\n"),
    );
    disk.add_dir(b"/icons/hicolor");
    disk.add_file(
        b"/icons/hicolor/index.theme",
        Some(b"[Icon Theme]\nName=Hicolor\n\n[24x24/apps]\nSize=24\n"),
    );
    disk.add_file(b"/icons/hicolor/24x24/apps/app.png", None);
    let base_paths = vec![b"/icons".to_vec()];
    let themes = get_all_themes(&base_paths, &disk);
    let mut cache = Cache::new();
    let found = lookup("app")
        .with_theme("plain")
        .find(&themes, &base_paths, &disk, &mut cache, 0);
    assert_eq!(found, path("/icons/hicolor/24x24/apps/app.png"));
}

#[test]
fn a_name_that_is_a_path_is_looked_for_beside_its_file() {
    let (themes, base_paths, mut disk) = host("/home/user");
    disk.add_file(b"/opt/tool/share/tool.svg", None);
    let mut cache = Cache::new();
    let found =
        lookup("/opt/tool/share/tool.png").find(&themes, &base_paths, &disk, &mut cache, 0);
    assert_eq!(found, path("/opt/tool/share/tool.svg"));
    let missing = lookup("/opt/tool/share/other").find(&themes, &base_paths, &disk, &mut cache, 0);
    assert_eq!(missing, None);
}

#[test]
fn base_directories_are_tried_by_extension_first() {
    let mut disk = Disk::new();
    disk.add_dir(b"/icons/hicolor");
    disk.add_file(b"/icons/hicolor/index.theme", Some(b"[Icon Theme]\nName=Hicolor\n"));
    disk.add_file(b"/icons/loose.svg", None);
    disk.add_file(b"/pixmaps/loose.png", None);
    let base_paths = vec![b"/icons".to_vec(), b"/pixmaps".to_vec()];
    let themes = get_all_themes(&base_paths, &disk);
    let mut cache = Cache::new();
    let png_first = lookup("loose").find(&themes, &base_paths, &disk, &mut cache, 0);
    assert_eq!(png_first, path("/pixmaps/loose.png"));
    let svg_first = lookup("loose")
        .force_svg()
        .find(&themes, &base_paths, &disk, &mut cache, 0);
    assert_eq!(svg_first, path("/icons/loose.svg"));
}

#[test]
fn second_lookup_is_answered_by_the_cache() {
    let (themes, base_paths, disk) = host("/home/user");
    let mut cache = Cache::new();
    let first = lookup("firefox")
        .with_size(48)
        .with_cache()
        .find(&themes, &base_paths, &disk, &mut cache, 10);
    assert_eq!(first, path("/usr/share/icons/hicolor/48x48/apps/firefox.png"));
    assert_eq!(
        cache.get("hicolor", 48, 1, "firefox"),
        CacheEntry::Found(b"/usr/share/icons/hicolor/48x48/apps/firefox.png".to_vec())
    );
    let empty = Disk::new();
    let second = lookup("firefox")
        .with_size(48)
        .with_cache()
        .find(&themes, &base_paths, &empty, &mut cache, 1_000_000);
    assert_eq!(second, first);
}

#[test]
fn cached_miss_counts_for_five_seconds() {
    let (themes, base_paths, mut disk) = host("/home/user");
    let mut cache = Cache::new();
    let query = || lookup("late").with_size(48).with_cache();
    assert_eq!(query().find(&themes, &base_paths, &disk, &mut cache, 1_000), None);
    assert_eq!(cache.get("hicolor", 48, 1, "late"), CacheEntry::NotFound(1_000));
    disk.add_file(b"/usr/share/icons/hicolor/48x48/apps/late.png", None);
    assert_eq!(query().find(&themes, &base_paths, &disk, &mut cache, 5_999), None);
    assert_eq!(
        query().find(&themes, &base_paths, &disk, &mut cache, 6_000),
        path("/usr/share/icons/hicolor/48x48/apps/late.png")
    );
}

#[test]
fn reset_none_reopens_a_cached_miss() {
    let (themes, base_paths, mut disk) = host("/home/user");
    let mut cache = Cache::new();
    let query = || lookup("late").with_size(48).with_cache();
    assert_eq!(query().find(&themes, &base_paths, &disk, &mut cache, 1_000), None);
    disk.add_file(b"/usr/share/icons/hicolor/48x48/apps/late.png", None);
    let mut builder = query();
    builder.cache_reset_none(&mut cache);
    assert_eq!(cache.get("hicolor", 48, 1, "late"), CacheEntry::Unknown);
    assert_eq!(
        builder.find(&themes, &base_paths, &disk, &mut cache, 1_001),
        path("/usr/share/icons/hicolor/48x48/apps/late.png")
    );
}

#[test]
fn cache_clear_reopens_every_entry() {
    let (themes, base_paths, disk) = host("/home/user");
    let mut cache = Cache::new();
    let first = lookup("firefox")
        .with_size(48)
        .with_cache()
        .find(&themes, &base_paths, &disk, &mut cache, 0);
    assert!(first.is_some());
    let mut builder = lookup("firefox").with_size(48).with_cache();
    builder.cache_clear(&mut cache);
    assert_eq!(cache.get("hicolor", 48, 1, "firefox"), CacheEntry::Unknown);
    let empty = Disk::new();
    assert_eq!(builder.find(&themes, &base_paths, &empty, &mut cache, 1), None);
}

#[test]
fn fallback_themes_are_cosmic_hicolor_gnome_yaru() {
    let names = fallback_names();
    let expected: Vec<&[u8]> = vec![b"Cosmic", b"hicolor", b"gnome", b"Yaru"];
    assert_eq!(names, expected);
}

#[test]
fn themes_are_listed_by_their_display_names() {
    let (themes, _, disk) = host("/home/user");
    assert_eq!(
        list_themes(&themes, &disk),
        vec!["Adwaita", "Arc", "Cosmic", "Papirus", "Yaru", "GNOME", "Hicolor"]
    );
}

#[test]
fn desktop_theme_is_read_from_the_settings_output() {
    let (themes, _, disk) = host("/home/user");
    assert_eq!(
        default_theme_gtk(Some(b"'Adwaita'\n"), &themes, &disk),
        Some(String::from("Adwaita"))
    );
    assert_eq!(default_theme_gtk(Some(b"'gnome'\n"), &themes, &disk), Some(String::from("GNOME")));
    assert_eq!(default_theme_gtk(Some(b"'Unknown'\n"), &themes, &disk), None);
    assert_eq!(default_theme_gtk(Some(b"'\xff'\n"), &themes, &disk), None);
    assert_eq!(default_theme_gtk(None, &themes, &disk), None);
}

#[test]
fn candidates_are_listed_in_the_order_they_are_tried() {
    let (themes, base_paths, disk) = two_sizes();
    let files = lookup("firefox")
        .with_size(48)
        .candidates(&themes, &base_paths, &disk);
    let expected: Vec<Vec<u8>> = [
        "/icons/hicolor/48x48/apps/firefox.png",
        "/icons/hicolor/48x48/apps/firefox.svg",
        "/icons/hicolor/48x48/apps/firefox.xpm",
        "/icons/hicolor/48x48/apps/firefox.png",
        "/icons/hicolor/48x48/apps/firefox.svg",
        "/icons/hicolor/48x48/apps/firefox.xpm",
        "/icons/hicolor/96x96/apps/firefox.png",
        "/icons/hicolor/96x96/apps/firefox.svg",
        "/icons/hicolor/96x96/apps/firefox.xpm",
        "/icons/firefox.png",
        "/icons/firefox.svg",
        "/icons/firefox.xpm",
    ]
    .iter()
    .map(|file| file.as_bytes().to_vec())
    .collect();
    assert_eq!(files, expected);
    let beside = lookup("/opt/a.b/tool.tar.gz")
        .force_svg()
        .candidates(&themes, &base_paths, &disk);
    let tail: Vec<Vec<u8>> = ["/opt/a.b/tool.tar.svg", "/opt/a.b/tool.tar.png", "/opt/a.b/tool.tar.xpm"]
        .iter()
        .map(|file| file.as_bytes().to_vec())
        .collect();
    assert_eq!(beside[beside.len() - 3..], tail[..]);
    assert!(lookup("").candidates(&themes, &base_paths, &disk).is_empty());
}

#[test]
fn a_lookup_needs_no_more_of_the_disk_than_its_candidates() {
    let (themes, base_paths, disk) = host("/home/user");
    for name in ["firefox", "jockey", "vscode", "missing", "/usr/share/pixmaps/vscode-icon"] {
        for size in [16, 24, 48, 92] {
            let query = || lookup(name).with_size(size).with_theme("Arc");
            let mut seen = Disk::new();
            for entry in &disk.entries {
                if entry.content.is_some() {
                    seen.add_file(&entry.path, entry.content.as_deref());
                }
            }
            for file in query().candidates(&themes, &base_paths, &seen) {
                if disk.has(&file) {
                    seen.add_file(&file, None);
                }
            }
            let mut cache = Cache::new();
            let whole = query().find(&themes, &base_paths, &disk, &mut cache, 0);
            let part = query().find(&themes, &base_paths, &seen, &mut cache, 0);
            assert_eq!(whole, part);
        }
    }
}

#[test]
fn the_preferred_kind_of_directory_wins_among_exact_matches() {
    let mut disk = Disk::new();
    disk.add_dir(b"/icons/hicolor");
    disk.add_file(
        b"/icons/hicolor/index.theme",
        Some(
            b"[Icon Theme]\n\n[scalable/apps]\nSize=48\nMinSize=8\nMaxSize=512\nType=Scalable\n\n[24x24/apps]\nSize=24\nType=Fixed\n",
        ),
    );
    disk.add_file(b"/icons/hicolor/scalable/apps/app.svg", None);
    disk.add_file(b"/icons/hicolor/scalable/apps/app.png", None);
    disk.add_file(b"/icons/hicolor/24x24/apps/app.png", None);
    disk.add_file(b"/icons/hicolor/24x24/apps/app.svg", None);
    let base_paths = vec![b"/icons".to_vec()];
    let themes = get_all_themes(&base_paths, &disk);
    let mut cache = Cache::new();
    let png_first = lookup("app").find(&themes, &base_paths, &disk, &mut cache, 0);
    assert_eq!(png_first, path("/icons/hicolor/24x24/apps/app.png"));
    let svg_first = lookup("app")
        .force_svg()
        .find(&themes, &base_paths, &disk, &mut cache, 0);
    assert_eq!(svg_first, path("/icons/hicolor/scalable/apps/app.svg"));
}

#[test]
fn the_cache_says_whether_a_lookup_needs_the_disk() {
    let (themes, base_paths, disk) = host("/home/user");
    let mut cache = Cache::new();
    let query = || lookup("late").with_size(48).with_cache();
    assert!(!query().answered(&cache, 0));
    assert!(lookup("").answered(&cache, 0));
    assert_eq!(query().find(&themes, &base_paths, &disk, &mut cache, 1_000), None);
    assert!(query().answered(&cache, 5_999));
    assert!(!query().answered(&cache, 6_000));
    assert!(!lookup("late").with_size(48).answered(&cache, 1_000));
    assert!(!lookup("late").with_size(24).with_cache().answered(&cache, 1_000));
    cache.insert("hicolor", 48, 1, "late", &Some(b"/x.png".to_vec()), 2_000);
    assert!(query().answered(&cache, u64::MAX));
}

#[test]
fn a_theme_that_was_searched_is_passed_over() {
    let (themes, _, disk) = two_sizes();
    let theme = &themes.get(b"hicolor").unwrap()[0];
    let query = lookup("firefox").with_size(48);
    let mut searched: Vec<&Theme> = Vec::new();
    assert_eq!(
        query.search_theme(&disk, &mut searched, theme, true),
        path("/icons/hicolor/48x48/apps/firefox.png")
    );
    assert_eq!(searched.len(), 1);
    assert_eq!(query.search_theme(&disk, &mut searched, theme, true), None);
    assert_eq!(searched.len(), 1);
    assert_eq!(searched[0].path.0, b"/icons/hicolor");
}

#[test]
fn parents_are_searched_in_the_order_they_are_named() {
    let mut disk = Disk::new();
    for (name, parents) in [("child", "P1,P2"), ("P1", ""), ("P2", "")] {
        disk.add_dir(format!("/icons/{name}").as_bytes());
        disk.add_file(
            format!("/icons/{name}/index.theme").as_bytes(),
            Some(
                format!("[Icon Theme]\nInherits={parents}\n\n[24x24/apps]\nSize=24\nType=Fixed\n")
                    .as_bytes(),
            ),
        );
    }
    disk.add_file(b"/icons/P1/24x24/apps/app.png", None);
    disk.add_file(b"/icons/P2/24x24/apps/app.png", None);
    let base_paths = vec![b"/icons".to_vec()];
    let themes = get_all_themes(&base_paths, &disk);
    let at = themes.find(b"child");
    let query = lookup("app");
    let mut searched: Vec<&Theme> = Vec::new();
    let mut queue: Vec<&[u8]> = Vec::new();
    let found = query.search_theme_inherits(&themes, &disk, &mut searched, &mut queue, at, true);
    assert_eq!(found, path("/icons/P1/24x24/apps/app.png"));
    let mut searched: Vec<&Theme> = Vec::new();
    let mut queue: Vec<&[u8]> = Vec::new();
    let found = query.search_theme_inherits(&themes, &disk, &mut searched, &mut queue, at, false);
    assert_eq!(found, None);
    let visited: Vec<&[u8]> = searched.iter().map(|t| t.path.0.as_slice()).collect();
    let expected: Vec<&[u8]> = vec![b"/icons/P1", b"/icons/P2"];
    assert_eq!(visited, expected);
    let expected: Vec<&[u8]> = vec![b"P1", b"P2"];
    assert_eq!(queue, expected);
}
