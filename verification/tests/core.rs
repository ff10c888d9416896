use std::collections::HashSet;

use filework::error::{Error, ErrorCode};
use filework::file::{Attributes, FileKind, PermissionsSummary};
use filework::i18n::catalog::{Catalog, CatalogError, CatalogErrorReason};
use filework::i18n::localizer::{Args, Localizer};
use filework::i18n::LocaleId;
use filework::location::{Location, DEFAULT_SSH_PORT};
use filework::theme::{Palette, ResolvedTheme, SystemAppearance, ThemeMode, ThemeToken};

#[test]
fn codes_are_unique_and_stable() {
    let all = ErrorCode::all();
    let strings: HashSet<_> = all.iter().map(|c| c.as_str()).collect();
    assert_eq!(strings.len(), all.len(), "duplicate error code string");

    let keys: HashSet<_> = all.iter().map(|c| c.message_key()).collect();
    assert_eq!(keys.len(), all.len(), "duplicate message key");
}

#[test]
fn every_code_string_has_the_expected_shape() {
    for code in ErrorCode::all() {
        assert!(code.as_str().starts_with("E_"), "{code:?} must start with E_");
        assert!(code.message_key().starts_with("error."), "{code:?} key must be error.*");
    }
}

#[test]
fn display_separates_code_from_context() {
    let e = Error::new(ErrorCode::NotFound, "/tmp/missing");
    assert_eq!(e.code(), ErrorCode::NotFound);
    assert_eq!(e.to_string(), "E_NOT_FOUND: /tmp/missing");
    assert_eq!(Error::bare(ErrorCode::Io).to_string(), "E_IO");
}

#[test]
fn user_visible_text_is_a_key_not_english() {
    let e = Error::bare(ErrorCode::PermissionDenied);
    assert_eq!(e.message_key(), "error.permission_denied");
}

#[test]
fn the_context_is_kept_as_given() {
    let e = Error::with_context(ErrorCode::Io, "reading: broken pipe".to_string());
    assert_eq!(e.context(), "reading: broken pipe");
    assert_eq!(e.message_key(), ErrorCode::Io.message_key());
}

#[test]
fn traditional_chinese_is_matched_however_the_platform_spells_it() {
    for tag in [
        "zh-TW",
        "zh_TW",
        "zh-Hant",
        "zh-Hant-TW",
        "zh_Hant_HK",
        "zh-HK",
        "zh-MO",
        "ZH-HANT-TW",
    ] {
        assert_eq!(
            LocaleId::best_match(tag),
            LocaleId::traditional_chinese(),
            "{tag} is a Traditional Chinese system"
        );
    }
}

#[test]
fn simplified_chinese_falls_back_rather_than_being_shown_the_wrong_script() {
    for tag in ["zh-CN", "zh_Hans", "zh-Hans-CN", "zh-SG"] {
        assert_eq!(LocaleId::best_match(tag), LocaleId::english(), "{tag}");
    }
}

#[test]
fn a_bare_zh_is_not_assumed_to_be_traditional() {
    assert_eq!(LocaleId::best_match("zh"), LocaleId::english());
}

#[test]
fn everything_else_is_english() {
    for tag in ["en", "en-GB", "en_US", "ja", "de-DE", "", "nonsense"] {
        assert_eq!(LocaleId::best_match(tag), LocaleId::english(), "{tag}");
    }
}

#[test]
fn the_first_shipped_language_in_the_list_wins() {
    let macos = ["zh-Hant-TW", "zh-TW", "zh-Hant", "en-Latn-TW", "en-TW", "en"];
    assert_eq!(LocaleId::best_match_of(&macos), LocaleId::traditional_chinese());
}

#[test]
fn a_language_we_do_not_ship_is_skipped_rather_than_ending_the_search() {
    assert_eq!(
        LocaleId::best_match_of(&["ja-JP", "zh-Hant-TW", "en"]),
        LocaleId::traditional_chinese()
    );
}

#[test]
fn an_empty_list_is_english() {
    assert_eq!(LocaleId::best_match_of(&[]), LocaleId::english());
}

#[test]
fn every_shipped_locale_matches_itself() {
    for tag in LocaleId::shipped() {
        assert_eq!(LocaleId::best_match(tag).as_str(), tag);
    }
}

#[test]
fn an_english_tag_first_is_english_even_with_chinese_after_it() {
    assert_eq!(LocaleId::best_match_of(&["en-GB", "zh-TW"]), LocaleId::english());
    assert_eq!(LocaleId::new(LocaleId::ZH_TW), LocaleId::traditional_chinese());
}

fn en(text: &str) -> Result<Catalog, CatalogError> {
    Catalog::parse(LocaleId::english(), text)
}

#[test]
fn parses_keys_comments_and_blank_lines() {
    let c = en("# comment\n\nmenu.file.open = Open\nmenu.file.rename = Rename\n").unwrap();
    assert_eq!(c.len(), 2);
    assert_eq!(c.get("menu.file.open").unwrap().template(), "Open");
}

#[test]
fn placeholders_are_part_of_the_contract() {
    let c = en("jobs.copying = Copying {count} items to {destination}").unwrap();
    let m = c.get("jobs.copying").unwrap();
    assert_eq!(
        m.placeholders().iter().map(String::as_str).collect::<Vec<_>>(),
        vec!["count", "destination"]
    );
}

#[test]
fn renders_with_arguments() {
    let c = en("jobs.copying = Copying {count} items").unwrap();
    let args = Args::new().with("count", "12");
    assert_eq!(c.get("jobs.copying").unwrap().render(&args), "Copying 12 items");
}

#[test]
fn a_missing_argument_stays_visible_instead_of_producing_a_hole() {
    let c = en("jobs.copying = Copying {count} items").unwrap();
    let rendered = c.get("jobs.copying").unwrap().render(&Args::new());
    assert_eq!(rendered, "Copying {count} items");
}

#[test]
fn duplicate_key_is_rejected() {
    let err = en("a.b = one\na.b = two").unwrap_err();
    assert_eq!(err.line, 2);
    assert!(matches!(err.reason, CatalogErrorReason::DuplicateKey(_)));
}

#[test]
fn english_text_as_a_key_is_rejected() {
    let err = en("Open File = Open").unwrap_err();
    assert!(matches!(err.reason, CatalogErrorReason::InvalidKeyCharacter(_)));
}

#[test]
fn malformed_input_is_an_error_not_a_panic() {
    assert!(en("no separator here").is_err());
    assert!(en(" = value").is_err());
    assert!(en("a.b = {unterminated").is_err());
    assert!(en("a.b = {}").is_err());
    assert!(en("a.b = {bad-name}").is_err());
}

#[test]
fn a_doubled_brace_is_a_literal_one() {
    let c = en("batch.hint = use {{name}} and {{n:3}} in the template").unwrap();
    let message = c.get("batch.hint").unwrap();
    assert!(message.placeholders().is_empty(), "nothing here is a placeholder");
    assert_eq!(message.render(&Args::new()), "use {name} and {n:3} in the template");
}

#[test]
fn literal_and_real_placeholders_coexist() {
    let c = en("mixed = {count} items match {{name}}").unwrap();
    let message = c.get("mixed").unwrap();
    assert_eq!(
        message.placeholders().iter().map(String::as_str).collect::<Vec<_>>(),
        vec!["count"]
    );
    let args = Args::new().with("count", "3");
    assert_eq!(message.render(&args), "3 items match {name}");
}

#[test]
fn merge_refuses_to_shadow_an_existing_key() {
    let mut a = en("a.b = one").unwrap();
    assert!(a.merge(en("c.d = two").unwrap()).is_ok());
    assert_eq!(a.len(), 2);
    assert!(a.merge(en("a.b = three").unwrap()).is_err());
}

#[test]
fn escapes_are_handled_without_line_continuation() {
    let c = en(r"a.b = first\nsecond").unwrap();
    assert_eq!(c.get("a.b").unwrap().template(), "first\nsecond");
}

#[test]
fn a_refused_merge_leaves_the_catalogue_as_it_was() {
    let mut a = en("a.b = one").unwrap();
    assert!(a.merge(en("c.d = two\na.b = three").unwrap()).is_err());
    assert_eq!(a.len(), 1);
    assert_eq!(a.get("a.b").unwrap().template(), "one");
    assert!(!a.contains("c.d"));
}

#[test]
fn each_malformed_line_says_why() {
    assert!(matches!(en("no separator here").unwrap_err().reason, CatalogErrorReason::MissingSeparator));
    assert!(matches!(en(" = value").unwrap_err().reason, CatalogErrorReason::EmptyKey));
    assert!(matches!(en("a.b = {x").unwrap_err().reason, CatalogErrorReason::UnterminatedPlaceholder));
    assert_eq!(en("a.b = ok\nc.d = {bad-name}").unwrap_err().line, 2);
}

#[test]
fn keys_are_listed() {
    let c = en("b.b = two\na.a = one").unwrap();
    let mut keys: Vec<&str> = c.keys().collect();
    keys.sort_unstable();
    assert_eq!(keys, vec!["a.a", "b.b"]);
    assert_eq!(c.locale(), &LocaleId::english());
    assert!(!c.is_empty());
}

fn localizer(primary_text: &str) -> Localizer {
    let english = Catalog::parse(
        LocaleId::english(),
        "menu.file.open = Open\nmenu.file.rename = Rename\njobs.copying = Copying {count} items",
    )
    .unwrap();
    let primary = Catalog::parse(LocaleId::new(LocaleId::ZH_TW), primary_text).unwrap();
    Localizer::new(primary, english)
}

#[test]
fn resolves_from_the_primary_catalogue() {
    let l = localizer("menu.file.open = \u{958b}\u{555f}");
    assert_eq!(l.text("menu.file.open").unwrap(), "\u{958b}\u{555f}");
}

#[test]
fn falls_back_to_english_when_untranslated() {
    let l = localizer("menu.file.open = \u{958b}\u{555f}");
    assert_eq!(l.text("menu.file.rename").unwrap(), "Rename");
    assert!(!l.is_translated("menu.file.rename"), "gap must be detectable");
    assert!(l.is_translated("menu.file.open"));
}

#[test]
fn a_key_missing_everywhere_is_a_typed_error_not_english_text() {
    let l = localizer("");
    let err = l.text("nope.not.here").unwrap_err();
    assert_eq!(err.code(), ErrorCode::MissingLocalization);
    assert_eq!(l.text_or_key("nope.not.here"), "nope.not.here");
}

#[test]
fn arguments_are_substituted_through_the_fallback_too() {
    let l = localizer("");
    let out = l.format("jobs.copying", &Args::new().with("count", "7")).unwrap();
    assert_eq!(out, "Copying 7 items");
}

#[test]
fn switching_locale_only_swaps_the_catalogue() {
    let mut l = localizer("menu.file.open = \u{958b}\u{555f}");
    assert_eq!(l.locale().as_str(), LocaleId::ZH_TW);

    let english = Catalog::parse(LocaleId::english(), "menu.file.open = Open").unwrap();
    l.set_primary(english);

    assert_eq!(l.locale().as_str(), LocaleId::EN);
    assert_eq!(l.text("menu.file.open").unwrap(), "Open");
    assert_eq!(l.fallback_locale().as_str(), LocaleId::EN);
}

#[test]
fn arguments_are_looked_up_by_name_and_the_last_value_wins() {
    let args = Args::new().with("a", "1").with("b", "2").with("a", "3");
    assert_eq!(args.lookup("a").map(String::as_str), Some("3"));
    assert_eq!(args.lookup("c"), None);
    let mut names: Vec<&str> = args.names().collect();
    names.sort_unstable();
    assert_eq!(names, vec!["a", "b"]);
}

#[test]
fn a_remote_path_walks_up_by_its_own_separator() {
    let deep = Location::remote("host", 22, "jt", "/srv/data/reports");
    let mid = deep.parent().expect("has a parent");
    assert_eq!(mid, Location::remote("host", 22, "jt", "/srv/data"));
    let top = mid.parent().expect("has a parent");
    assert_eq!(top, Location::remote("host", 22, "jt", "/srv"));
    let root = top.parent().expect("has a parent");
    assert_eq!(root, Location::remote("host", 22, "jt", "/"));
    assert_eq!(root.parent(), None, "the remote root has no parent");
}

#[test]
fn a_remote_location_has_a_name_but_no_local_path() {
    let remote = Location::remote("host", 22, "jt", "/srv/data/report.pdf");
    assert_eq!(remote.file_name().as_deref(), Some("report.pdf"));
    assert_eq!(remote.as_path(), None);
    assert!(remote.is_remote());
    assert_eq!(remote.remote_path(), Some("/srv/data/report.pdf"));
}

#[test]
fn local_exposes_a_path_and_others_do_not() {
    let local = Location::local("/tmp/a.txt");
    assert_eq!(local.as_path(), Some("/tmp/a.txt"));

    let member = Location::archive_member(Location::local("/tmp/a.zip"), "dir/b.txt");
    assert_eq!(member.as_path(), None, "an archive member has no filesystem path");

    let virt = Location::virtual_location("search", "42");
    assert_eq!(virt.as_path(), None);
}

#[test]
fn only_local_is_a_writable_target() {
    assert!(Location::local("/tmp").is_writable_target());
    assert!(!Location::virtual_location("search", "1").is_writable_target());
    assert!(!Location::archive_member(Location::local("/a.zip"), "x").is_writable_target());
}

#[test]
fn archive_member_parent_walks_into_the_archive_then_stops() {
    let a = Location::local("/tmp/a.zip");
    let deep = Location::archive_member(a.duplicate(), "dir/sub/file.txt");

    let p1 = deep.parent().unwrap();
    assert_eq!(p1, Location::archive_member(a.duplicate(), "dir/sub"));

    let p2 = p1.parent().unwrap();
    assert_eq!(p2, Location::archive_member(a.duplicate(), "dir"));

    assert_eq!(p2.parent().unwrap(), a);
}

#[test]
fn nested_archives_are_representable() {
    let outer = Location::local("/tmp/outer.zip");
    let inner = Location::archive_member(outer, "inner.zip");
    let leaf = Location::archive_member(inner, "notes.txt");
    assert_eq!(leaf.file_name().unwrap(), "notes.txt");
}

#[test]
fn a_remote_location_has_something_to_show_in_the_path_bar() {
    let remote = Location::remote("host.example", DEFAULT_SSH_PORT, "jason", "/srv/data");
    assert_eq!(remote.as_path(), None);
    assert_eq!(remote.display_text(), "sftp://jason@host.example/srv/data");
}

#[test]
fn a_non_default_port_is_part_of_what_is_shown() {
    let remote = Location::remote("host.example", 2222, "jason", "/");
    assert_eq!(remote.display_text(), "sftp://jason@host.example:2222/");
}

#[test]
fn a_displayed_location_parses_back_to_itself() {
    for original in [
        Location::remote("host.example", DEFAULT_SSH_PORT, "jason", "/srv/data"),
        Location::remote("host.example", 2222, "jason", "/"),
        Location::remote("10.0.0.1", DEFAULT_SSH_PORT, "root", "/var/log"),
        Location::local("/Users/someone/Documents"),
        Location::local("/"),
    ] {
        let shown = original.display_text();
        assert_eq!(Location::parse_display(&shown), original, "{shown} did not parse back");
    }
}

#[test]
fn a_windows_path_is_not_mistaken_for_a_url() {
    let parsed = Location::parse_display(r"C:\Users\jason");
    assert!(!parsed.is_remote(), "{parsed:?} should be local");
}

#[test]
fn a_local_location_shows_its_path_unchanged() {
    let local = Location::local("/Users/someone/Documents");
    assert_eq!(local.display_text(), "/Users/someone/Documents");
}

#[test]
fn an_archive_member_is_shown_under_its_archive() {
    let inside = Location::archive_member(Location::local("/tmp/a.zip"), "docs/readme.md");
    assert_eq!(inside.display_text(), "/tmp/a.zip/docs/readme.md");
}

#[test]
fn a_virtual_location_has_no_parent_and_is_not_remote() {
    let virt = Location::virtual_location("search", "42");
    assert_eq!(virt.parent(), None);
    assert!(!virt.is_remote());
    assert_eq!(virt.remote_path(), None);
}

#[test]
fn mode_resolves_against_system_appearance() {
    assert_eq!(ThemeMode::Light.resolve(SystemAppearance::Dark), ResolvedTheme::Light);
    assert_eq!(ThemeMode::Dark.resolve(SystemAppearance::Light), ResolvedTheme::Dark);
    assert_eq!(ThemeMode::System.resolve(SystemAppearance::Dark), ResolvedTheme::Dark);
    assert_eq!(ThemeMode::System.resolve(SystemAppearance::Light), ResolvedTheme::Light);
}

#[test]
fn only_system_mode_reacts_to_an_appearance_change() {
    assert!(ThemeMode::System.follows_system());
    assert!(!ThemeMode::Light.follows_system());
    assert!(!ThemeMode::Dark.follows_system());
}

#[test]
fn default_mode_is_follow_system() {
    assert_eq!(ThemeMode::default(), ThemeMode::System);
}

#[test]
fn every_token_has_a_value_in_both_palettes() {
    let same_in_both: &[ThemeToken] = &[ThemeToken::TextOnAccent];

    for token in ThemeToken::all() {
        if same_in_both.contains(&token) {
            continue;
        }
        let light = Palette::light().color(token);
        let dark = Palette::dark().color(token);
        assert_ne!(light, dark, "{} must differ between light and dark", token.as_str());
    }
}

#[test]
fn token_names_are_unique_and_semantic() {
    let mut names: Vec<_> = ThemeToken::all().iter().map(|t| t.as_str()).collect();
    names.sort_unstable();
    let before = names.len();
    names.dedup();
    assert_eq!(names.len(), before, "duplicate token name");
}

#[test]
fn a_palette_is_the_one_for_its_theme() {
    assert_eq!(Palette::for_theme(ResolvedTheme::Dark), Palette::dark());
    assert_eq!(Palette::light().theme(), ResolvedTheme::Light);
    assert_ne!(
        Palette::light().color(ThemeToken::MarkActive),
        Palette::light().color(ThemeToken::SelectionActive)
    );
}

#[test]
fn bundles_are_directories_on_disk_but_not_navigated_by_default() {
    assert!(FileKind::ApplicationBundle.is_directory_on_disk());
    assert!(!FileKind::ApplicationBundle.is_navigable_by_default());
    assert!(FileKind::Package.is_directory_on_disk());
    assert!(!FileKind::Package.is_navigable_by_default());
    assert!(FileKind::Directory.is_navigable_by_default());
}

#[test]
fn archives_are_flagged_as_untrusted_containers() {
    assert!(FileKind::Archive.is_untrusted_container());
    assert!(!FileKind::Directory.is_untrusted_container());
}

#[test]
fn attributes_and_permissions_start_with_nothing_claimed() {
    let a = Attributes::default();
    assert!(!a.hidden && !a.read_only && !a.system && !a.cloud_placeholder);
    let p = PermissionsSummary::default();
    assert!(!p.readable && !p.writable && !p.executable);
    assert!(!FileKind::Symlink.is_directory_on_disk());
}
