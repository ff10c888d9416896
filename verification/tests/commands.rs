use std::sync::atomic::{AtomicUsize, Ordering};
use std::sync::Arc;

use filework::commands::{
    Command, CommandBus, CommandCategory, CommandId, CommandRegistry, DispatchError, Handler, Key,
    KeyChord, Keymap, KeymapError,
};
use filework::error::{Error, ErrorCode};

fn bus() -> CommandBus {
    CommandBus::new(CommandRegistry::baseline())
}

fn counting_handler() -> (Handler, Arc<AtomicUsize>) {
    let count = Arc::new(AtomicUsize::new(0));
    let inner = Arc::clone(&count);
    let handler: Handler = Box::new(move || {
        inner.fetch_add(1, Ordering::SeqCst);
        Ok(())
    });
    (handler, count)
}

#[test]
fn every_command_is_invocable_without_a_key_event() {
    let mut bus = bus();
    let (handler, count) = counting_handler();
    bus.set_handler("tab.new", handler).unwrap();

    bus.dispatch(&CommandId::new("tab.new")).unwrap();

    assert_eq!(count.load(Ordering::SeqCst), 1);
    assert_eq!(bus.history(), &[CommandId::new("tab.new")]);
}

#[test]
fn the_full_input_path_is_keymap_then_id_then_bus() {
    let keymap = Keymap::parse("test", "primary+t = tab.new").unwrap();
    let mut bus = bus();
    let (handler, count) = counting_handler();
    bus.set_handler("tab.new", handler).unwrap();

    let chord = KeyChord::parse("primary+t").unwrap();
    let id = keymap.resolve(&chord).unwrap().clone();
    bus.dispatch(&id).unwrap();

    assert_eq!(count.load(Ordering::SeqCst), 1);
}

#[test]
fn a_typo_in_a_handler_registration_fails_at_startup() {
    let mut bus = bus();
    let (handler, _) = counting_handler();
    let err = bus.set_handler("tab.nwe", handler).unwrap_err();
    assert!(matches!(err, DispatchError::Unknown(_)));
}

#[test]
fn dispatching_an_unknown_or_unhandled_command_is_an_error_not_a_panic() {
    let mut bus = bus();
    assert!(matches!(
        bus.dispatch(&CommandId::new("nope")),
        Err(DispatchError::Unknown(_))
    ));
    assert!(matches!(
        bus.dispatch(&CommandId::new("tab.new")),
        Err(DispatchError::NoHandler(_))
    ));
    assert!(bus.history().is_empty(), "nothing that did not run is recorded");
}

#[test]
fn a_refusing_handler_reports_the_command_and_the_core_error_code() {
    let mut bus = bus();
    let handler: Handler =
        Box::new(|| Err(Error::new(ErrorCode::PermissionDenied, "read-only volume")));
    bus.set_handler("file.rename", handler).unwrap();

    let err = bus.dispatch(&CommandId::new("file.rename")).unwrap_err();
    match &err {
        DispatchError::Refused { command, reason } => {
            assert_eq!(command.as_str(), "file.rename");
            assert_eq!(reason.code(), ErrorCode::PermissionDenied);
        }
        other => panic!("expected a refusal, got {other:?}"),
    }
    let core: Error = err.into();
    assert_eq!(core.code(), ErrorCode::PermissionDenied, "the code survives conversion");
}

#[test]
fn unhandled_lists_what_the_palette_would_offer_but_cannot_do() {
    let mut bus = bus();
    let (handler, _) = counting_handler();
    bus.set_handler("tab.new", handler).unwrap();

    let unhandled = bus.unhandled();
    assert!(!unhandled.iter().any(|id| id.as_str() == "tab.new"));
    assert!(unhandled.iter().any(|id| id.as_str() == "tab.close"));
}

#[test]
fn a_handled_command_runs_each_time_it_is_dispatched_and_is_recorded_each_time() {
    let mut bus = bus();
    let (handler, count) = counting_handler();
    bus.set_handler("tab.new", handler).unwrap();
    bus.dispatch(&CommandId::new("tab.new")).unwrap();
    bus.dispatch(&CommandId::new("tab.new")).unwrap();
    assert_eq!(count.load(Ordering::SeqCst), 2);
    assert_eq!(bus.history().len(), 2);
    assert!(bus.has_handler(&CommandId::new("tab.new")));
    assert!(!bus.has_handler(&CommandId::new("tab.close")));
}

#[test]
fn a_dispatch_error_describes_itself() {
    let err = DispatchError::Unknown(CommandId::new("nope"));
    assert_eq!(err.to_string(), "unknown command: nope");
    let err = DispatchError::NoHandler(CommandId::new("tab.new"));
    assert_eq!(err.to_string(), "no handler for command: tab.new");
    let core: Error = DispatchError::Unknown(CommandId::new("nope")).into();
    assert_eq!(core.code(), ErrorCode::Unsupported);
    assert_eq!(core.context(), "unknown command: nope");
}

#[test]
fn the_baseline_registers_every_documented_command() {
    let registry = CommandRegistry::baseline();
    for id in [
        "workspace.split.horizontal",
        "workspace.pane.close",
        "tab.move_to_pane",
        "nav.back",
        "file.copy_to_target_pane",
        "file.mark.invert",
        "preview.quicklook",
        "search.ai",
        "jobs.cancel_active",
        "locale.set",
    ] {
        assert!(registry.contains(&CommandId::new(id)), "{id} must be registered");
    }
}

#[test]
fn no_command_carries_english_text_as_its_label() {
    for command in CommandRegistry::baseline().iter() {
        let key = command.label_key();
        assert!(
            key.starts_with("command."),
            "{} has a non-key label {key}",
            command.id().as_str()
        );
        assert!(
            !key.contains(' '),
            "{} looks like a sentence, not a key: {key}",
            command.id().as_str()
        );
    }
}

#[test]
fn label_keys_are_unique() {
    let registry = CommandRegistry::baseline();
    let mut keys: Vec<_> = registry.iter().map(Command::label_key).collect();
    keys.sort_unstable();
    let before = keys.len();
    keys.dedup();
    assert_eq!(keys.len(), before, "two commands share a label key");
}

#[test]
fn destructive_commands_are_flagged() {
    let registry = CommandRegistry::baseline();
    assert!(registry.get(&CommandId::new("file.delete")).unwrap().is_destructive());
    assert!(registry.get(&CommandId::new("file.trash")).unwrap().is_destructive());
    assert!(!registry.get(&CommandId::new("nav.back")).unwrap().is_destructive());
}

#[test]
fn categories_group_commands_for_menus_and_the_palette() {
    let registry = CommandRegistry::baseline();
    let marks: Vec<_> = registry
        .in_category(CommandCategory::SelectionAndMarks)
        .map(|c| c.id().as_str().to_string())
        .collect();
    assert_eq!(marks.len(), 4, "toggle, all, none, invert");
}

#[test]
fn registering_an_id_twice_replaces_it_and_hands_back_the_first() {
    let mut registry = CommandRegistry::new();
    assert!(registry.is_empty());
    let first = Command::new("x.one", CommandCategory::Navigation, "command.x.one");
    assert!(registry.register(first).is_none());
    let again = Command::new("x.one", CommandCategory::Navigation, "command.x.other");
    let previous = registry.register(again).unwrap();
    assert_eq!(previous.label_key(), "command.x.one");
    assert_eq!(registry.len(), 1);
    assert_eq!(registry.get(&CommandId::new("x.one")).unwrap().label_key(), "command.x.other");
}

#[test]
fn parses_modifiers_and_keys() {
    let c = KeyChord::parse("primary+shift+n").unwrap();
    assert!(c.modifiers.primary && c.modifiers.shift);
    assert!(!c.modifiers.alt && !c.modifiers.control);
    assert_eq!(c.key, Key::Char('n'));

    assert_eq!(KeyChord::parse("f5").unwrap().key, Key::Function(5));
    assert_eq!(KeyChord::parse("F12").unwrap().key, Key::Function(12));
    assert_eq!(KeyChord::parse("space").unwrap(), KeyChord::plain(Key::Space));
    assert_eq!(KeyChord::parse("alt+left").unwrap().key, Key::Left);
}

#[test]
fn punctuation_keys_have_names_and_round_trip() {
    for (name, character) in [
        ("comma", ','),
        ("period", '.'),
        ("minus", '-'),
        ("equal", '='),
        ("slash", '/'),
        ("bracketleft", '['),
        ("grave", '`'),
    ] {
        let chord = KeyChord::parse(&format!("primary+{name}")).unwrap();
        assert_eq!(chord.key, Key::Char(character), "{name}");
        assert_eq!(
            KeyChord::parse(&chord.to_source_text()).unwrap(),
            chord,
            "{name} must survive a round trip through the file format"
        );
    }
}

#[test]
fn rejects_nonsense_instead_of_guessing() {
    assert!(KeyChord::parse("").is_err());
    assert!(KeyChord::parse("meta+x").is_err());
    assert!(KeyChord::parse("primary+").is_err());
    assert!(KeyChord::parse("notakey").is_err());
}

#[test]
fn a_keymap_resolves_to_a_command_id_not_a_handler() {
    let map = Keymap::parse("test", "primary+t = tab.new").unwrap();
    let resolved = map.resolve(&KeyChord::parse("primary+t").unwrap()).unwrap();
    assert_eq!(resolved.as_str(), "tab.new");
}

#[test]
fn conflicts_are_detected_at_load_with_both_commands_named() {
    let err = Keymap::parse("test", "primary+t = tab.new\nprimary+t = tab.close").unwrap_err();
    match err {
        KeymapError::Conflict { chord, existing, incoming } => {
            assert_eq!(chord, "primary+t");
            assert_eq!(existing.as_str(), "tab.new");
            assert_eq!(incoming.as_str(), "tab.close");
        }
        other => panic!("expected a conflict, got {other:?}"),
    }
}

#[test]
fn rebinding_a_chord_to_the_same_command_is_not_a_conflict() {
    assert!(Keymap::parse("test", "primary+t = tab.new\nprimary+t = tab.new").is_ok());
}

#[test]
fn the_primary_modifier_keeps_a_keymap_platform_neutral() {
    let map = Keymap::parse("test", "primary+c = file.copy_to_target_pane").unwrap();
    let chord = map.iter().next().unwrap().0;
    assert!(chord.modifiers.primary);
    assert!(!chord.modifiers.control, "primary is not the same as control");
}

#[test]
fn a_binding_to_an_unknown_command_is_caught_by_validation() {
    let map = Keymap::parse("test", "primary+q = nope.does.not.exist").unwrap();
    let err = map.validate_against(&CommandRegistry::baseline()).unwrap_err();
    assert!(matches!(err, KeymapError::UnknownCommand(_)));
}

#[test]
fn a_realistic_keymap_validates_against_the_baseline_registry() {
    let text = "\
# comments and blanks are fine

primary+t          = tab.new
primary+w          = tab.close
primary+shift+t    = tab.reopen
primary+d          = workspace.split.horizontal
primary+shift+d    = workspace.split.vertical
alt+left           = nav.back
alt+right          = nav.forward
alt+up             = nav.up
space              = preview.quicklook
insert             = file.mark.toggle
f2                 = file.rename
f5                 = file.copy_to_target_pane
f6                 = file.move_to_target_pane
f8                 = file.trash
primary+f          = search.open
";
    let map = Keymap::parse("cview", text).unwrap();
    assert_eq!(map.len(), 15);
    map.validate_against(&CommandRegistry::baseline()).unwrap();

    let chords = map.chords_for(&CommandId::new("file.rename"));
    assert_eq!(chords.len(), 1, "menus need to show the shortcut");
}

#[test]
fn chords_render_as_portable_qt_shortcuts() {
    let shortcut = |text: &str| KeyChord::parse(text).unwrap().to_portable_shortcut();
    assert_eq!(shortcut("primary+t"), "Ctrl+T");
    assert_eq!(shortcut("primary+shift+d"), "Ctrl+Shift+D");
    assert_eq!(shortcut("f5"), "F5");
    assert_eq!(shortcut("alt+left"), "Alt+Left");
    assert_eq!(shortcut("insert"), "Ins");
    assert_eq!(shortcut("space"), "Space");
    assert_eq!(shortcut("ctrl+r"), "Meta+R");
}

#[test]
fn rebinding_moves_a_chord_and_reports_a_conflict_without_changing_anything() {
    let mut map = Keymap::parse("test", "primary+t = tab.new\nprimary+w = tab.close").unwrap();

    map.rebind(&CommandId::new("tab.new"), KeyChord::parse("primary+n").unwrap())
        .unwrap();
    assert!(map.resolve(&KeyChord::parse("primary+t").unwrap()).is_none());
    assert_eq!(
        map.resolve(&KeyChord::parse("primary+n").unwrap()).unwrap().as_str(),
        "tab.new"
    );

    let err = map
        .rebind(&CommandId::new("tab.new"), KeyChord::parse("primary+w").unwrap())
        .unwrap_err();
    assert!(matches!(err, KeymapError::Conflict { .. }));
    assert_eq!(
        map.resolve(&KeyChord::parse("primary+n").unwrap()).unwrap().as_str(),
        "tab.new"
    );
    assert_eq!(
        map.resolve(&KeyChord::parse("primary+w").unwrap()).unwrap().as_str(),
        "tab.close"
    );
}

#[test]
fn a_saved_keymap_reloads_to_the_same_bindings() {
    let original = Keymap::parse(
        "test",
        "primary+t = tab.new\nf5 = file.copy_to_target_pane\nalt+left = nav.back\n\
         ctrl+shift+r = view.refresh\ninsert = file.mark.toggle",
    )
    .unwrap();

    let reloaded = Keymap::parse("test", &original.to_text()).unwrap();
    assert_eq!(reloaded.len(), original.len());
    for (chord, command) in original.iter() {
        assert_eq!(reloaded.resolve(chord), Some(command));
    }
}

#[test]
fn a_diff_carries_only_what_changed_and_survives_a_new_preset_binding() {
    let preset = Keymap::parse("p", "primary+t = tab.new\nprimary+w = tab.close").unwrap();

    let mut mine = preset.clone();
    mine.rebind(&CommandId::new("tab.new"), KeyChord::parse("primary+n").unwrap())
        .unwrap();
    let diff = mine.diff_from(&preset);

    assert_eq!(diff.len(), 1, "only the changed binding is stored");
    assert!(diff.unbound().next().is_none());

    let mut newer = Keymap::parse(
        "p",
        "primary+t = tab.new\nprimary+w = tab.close\nprimary+f = search.open",
    )
    .unwrap();
    let dropped = newer.apply_diff(&diff, |_| true);

    assert_eq!(dropped, 0);
    assert_eq!(
        newer.resolve(&KeyChord::parse("primary+n").unwrap()).unwrap().as_str(),
        "tab.new",
        "the customisation survived"
    );
    assert_eq!(
        newer.resolve(&KeyChord::parse("primary+f").unwrap()).unwrap().as_str(),
        "search.open",
        "and the new default arrived"
    );
    assert!(
        newer.resolve(&KeyChord::parse("primary+t").unwrap()).is_none(),
        "the old chord did not come back"
    );
}

#[test]
fn an_explicit_removal_is_not_the_same_as_an_omission() {
    let preset = Keymap::parse("p", "primary+t = tab.new\nprimary+w = tab.close").unwrap();

    let mut mine = preset.clone();
    mine.unbind_command(&CommandId::new("tab.close"));
    let diff = mine.diff_from(&preset);

    assert_eq!(diff.unbound().count(), 1);

    let mut fresh = preset.clone();
    fresh.apply_diff(&diff, |_| true);
    assert!(
        fresh.chords_for(&CommandId::new("tab.close")).is_empty(),
        "a removal the user made stays removed"
    );
    assert!(!fresh.chords_for(&CommandId::new("tab.new")).is_empty());
}

#[test]
fn a_binding_for_a_removed_command_is_dropped_rather_than_fatal() {
    let preset = Keymap::parse("p", "primary+t = tab.new").unwrap();
    let diff = Keymap::parse("p", "primary+x = gone.forever\nprimary+n = tab.new").unwrap();

    let mut merged = preset;
    let dropped = merged.apply_diff(&diff, |id| id.as_str() != "gone.forever");

    assert_eq!(dropped, 1, "the caller can say that something changed");
    assert_eq!(
        merged.resolve(&KeyChord::parse("primary+n").unwrap()).unwrap().as_str(),
        "tab.new",
        "the rest of the keymap still works"
    );
}

#[test]
fn a_diff_round_trips_through_text_including_removals() {
    let preset = Keymap::parse("p", "primary+t = tab.new\nprimary+w = tab.close").unwrap();
    let mut mine = preset.clone();
    mine.rebind(&CommandId::new("tab.new"), KeyChord::parse("primary+n").unwrap())
        .unwrap();
    mine.unbind_command(&CommandId::new("tab.close"));

    let diff = mine.diff_from(&preset);
    let reloaded = Keymap::parse("p", &diff.to_text()).unwrap();
    assert_eq!(reloaded, diff);
}

#[test]
fn unbinding_leaves_the_command_with_no_shortcut() {
    let mut map = Keymap::parse("test", "primary+t = tab.new").unwrap();
    assert_eq!(map.unbind_command(&CommandId::new("tab.new")), 1);
    assert!(map.chords_for(&CommandId::new("tab.new")).is_empty());
    assert!(map.is_empty());
}

#[test]
fn a_malformed_line_reports_its_number() {
    let err = Keymap::parse("test", "primary+t = tab.new\nthis is not a binding").unwrap_err();
    assert_eq!(err, KeymapError::MalformedLine { line: 2 });
}

#[test]
fn type_ahead_is_on_unless_a_keymap_turns_it_off() {
    let map = Keymap::parse("m", "primary+c = file.copy\n").expect("parses");
    assert!(map.type_ahead(), "typing a letter finds a file by default");
}

#[test]
fn a_keymap_can_turn_type_ahead_off() {
    let map = Keymap::parse("m", "!type_ahead = off\ne = file.edit\n").expect("parses");
    assert!(!map.type_ahead());
    assert_eq!(map.len(), 1, "the option line is not a binding");
}

#[test]
fn the_option_survives_a_round_trip() {
    let map = Keymap::parse("m", "!type_ahead = off\ne = file.edit\n").expect("parses");
    let again = Keymap::parse("m", &map.to_text()).expect("re-parses");
    assert!(!again.type_ahead(), "saving a keymap must not silently restore type-ahead");
}

#[test]
fn a_trailing_comment_annotates_a_binding() {
    let map = Keymap::parse("m", "e = file.edit   # confirmed\n# a whole line\n").expect("parses");
    assert_eq!(map.len(), 1);
    assert_eq!(
        map.command_for(&KeyChord::parse("e").expect("chord")).map(CommandId::as_str),
        Some("file.edit"),
        "the comment must not become part of the command id"
    );
}

#[test]
fn an_unknown_option_is_an_error_rather_than_a_shrug() {
    assert!(Keymap::parse("m", "!nonsense = on\n").is_err());
}

#[test]
fn an_upper_case_letter_is_written_back_as_the_lower_case_key_it_parses_to() {
    let chord = KeyChord::parse("primary+A").unwrap();
    assert_eq!(chord.key, Key::Char('a'));
    assert_eq!(chord.to_source_text(), "primary+a");
    assert_eq!(KeyChord::parse(&chord.to_source_text()).unwrap(), chord);
}

#[test]
fn a_letter_outside_ascii_is_kept_as_typed_and_written_in_lower_case() {
    let chord = KeyChord::parse("\u{c9}").unwrap();
    assert_eq!(chord.key, Key::Char('\u{c9}'));
    assert_eq!(chord.to_portable_shortcut(), "\u{c9}");
    assert_eq!(chord.to_source_text(), "\u{e9}");
}

#[test]
fn an_unknown_modifier_and_an_unknown_key_are_named() {
    assert_eq!(
        KeyChord::parse("meta+x").unwrap_err(),
        KeymapError::UnknownKey("meta".to_string())
    );
    assert_eq!(
        KeyChord::parse("a+b").unwrap_err(),
        KeymapError::UnknownModifier("b".to_string())
    );
    assert_eq!(
        KeyChord::parse("notakey").unwrap_err(),
        KeymapError::UnknownKey("notakey".to_string())
    );
}

#[test]
fn binding_a_taken_chord_is_a_conflict_and_changes_nothing() {
    let mut map = Keymap::new("m");
    map.bind(KeyChord::parse("primary+t").unwrap(), CommandId::new("tab.new")).unwrap();
    let err = map
        .bind(KeyChord::parse("primary+t").unwrap(), CommandId::new("tab.close"))
        .unwrap_err();
    assert!(matches!(err, KeymapError::Conflict { .. }));
    assert_eq!(map.len(), 1);
    assert_eq!(
        map.resolve(&KeyChord::parse("primary+t").unwrap()).unwrap().as_str(),
        "tab.new"
    );
    assert_eq!(map.name(), "m");
}

#[test]
fn a_conflict_from_bind_names_the_chord_as_debug_writes_it() {
    let mut map = Keymap::new("test");
    let chord = KeyChord::new(filework::commands::Modifiers::primary_only(), Key::Function(5));
    map.bind(chord, CommandId::new("tab.new")).unwrap();
    match map.bind(chord, CommandId::new("tab.close")).unwrap_err() {
        KeymapError::Conflict { chord: text, .. } => assert_eq!(text, format!("{chord:?}")),
        other => panic!("expected a conflict, got {other:?}"),
    }
    let quote = KeyChord::new(filework::commands::Modifiers::none(), Key::Char('\''));
    map.bind(quote, CommandId::new("tab.new")).unwrap();
    match map.bind(quote, CommandId::new("tab.close")).unwrap_err() {
        KeymapError::Conflict { chord: text, .. } => assert_eq!(text, format!("{quote:?}")),
        other => panic!("expected a conflict, got {other:?}"),
    }
}
