use haremal_ctrl::applications::{
    add_keybind, add_startup, default_app_list, default_apps, keybind_line, keybind_list,
    keybind_parts, remove_entry, quoted_text, startup_line, startup_list,
};
use haremal_ctrl::region::{stored_value, chosen_locale_of, lang_setting, language_choices, locale_gen_command, output_lines};
use haremal_ctrl::update::{is_updating, status_message, update_step, UpdateAction, UpdateEvent, UpdateStatus};

fn strings(v: &[&str]) -> Vec<String> {
    v.iter().map(|s| s.to_string()).collect()
}

#[test]
fn keybind_list_strips_block_lines() {
    assert_eq!(
        keybind_list("binds {\n  A { a; }\n}"),
        Some(strings(&["  A { a; }"]))
    );
    assert_eq!(keybind_list("nothing"), Some(Vec::new()));
    assert_eq!(keybind_list("binds"), Some(Vec::new()));
    assert_eq!(keybind_list("binds }}"), None);
}

#[test]
fn startup_list_drops_last_line() {
    assert_eq!(
        startup_list("spawn-at-startup \"a\"\nspawn-at-startup \"b\"\nx"),
        Some(strings(&["spawn-at-startup \"a\"", "spawn-at-startup \"b\""]))
    );
}

#[test]
fn default_app_list_drops_header() {
    assert_eq!(
        default_app_list("[Default Applications]\nimage/png=a;\n"),
        Some(strings(&["image/png=a;"]))
    );
}

#[test]
fn default_apps_fill_rows() {
    let entries = strings(&[
        "x-scheme-handler/https=firefox.desktop;",
        "image/png=a;b;",
        "video/mp4=mpv.desktop;",
        "inode/directory=org.gnome.Nautilus.desktop;yazi.desktop;",
        "text/plain=x=y",
        "x-scheme-handler/http=other.desktop;",
        "audio/mp3",
    ]);
    assert_eq!(
        default_apps(&entries),
        strings(&[
            "firefox.desktop;",
            "org.gnome.Nautilus.desktop;yazi.desktop;",
            "",
            "mpv.desktop;",
            "",
            "x",
            "a;b;",
            "",
        ])
    );
}

#[test]
fn later_default_entry_wins() {
    let entries = strings(&["application/pdf=a.desktop;", "application/pdf=b.desktop;"]);
    assert_eq!(default_apps(&entries)[7], "b.desktop;");
}

#[test]
fn keybind_line_and_parts() {
    let line = keybind_line("Mod+T", "spawn \"rio\";");
    assert_eq!(line, "    Mod+T { spawn \"rio\"; }");
    assert_eq!(
        keybind_parts(&line),
        ("Mod+T".to_string(), " spawn \"rio\"; ".to_string())
    );
    assert_eq!(keybind_parts("   "), (String::new(), String::new()));
    assert_eq!(keybind_parts("a { b { c } }"), ("a".to_string(), " b ".to_string()));
}

#[test]
fn startup_line_and_command() {
    let line = startup_line("waybar");
    assert_eq!(line, "spawn-at-startup \"waybar\"");
    assert_eq!(quoted_text(&line), "waybar");
    assert_eq!(quoted_text("no quotes"), "");
    assert_eq!(quoted_text("x \"open"), "open");
}

#[test]
fn add_keybind_inserts_into_binds() {
    assert_eq!(
        add_keybind("binds {\n}", "Mod+T", "spawn \"rio\";"),
        "binds {\n    Mod+T { spawn \"rio\"; }\n}"
    );
}

#[test]
fn add_startup_inserts_after_anchor() {
    assert_eq!(
        add_startup("// startups\nx", "waybar"),
        "// startups\nspawn-at-startup \"waybar\"\nx"
    );
}

#[test]
fn remove_entry_removes_first_containing_line() {
    assert_eq!(
        remove_entry("spawn-at-startup \"a\"\nspawn-at-startup \"b\"", "b"),
        "spawn-at-startup \"a\""
    );
}

#[test]
fn output_lines_split_tool_output() {
    assert_eq!(
        output_lines(b"Europe/Berlin\nAmerica/New_York\n"),
        strings(&["Europe/Berlin", "America/New_York"])
    );
    assert_eq!(output_lines(b"a\xffb"), strings(&["a\u{FFFD}b"]));
    assert_eq!(output_lines(b""), Vec::<String>::new());
}

#[test]
fn language_choices_filter_and_name() {
    let locales = strings(&[
        "de_DE.UTF-8 UTF-8",
        "de_AT.UTF-8 UTF-8",
        "en_US.UTF-8 UTF-8",
        "C.UTF-8",
        "C.UTF-8 UTF-8",
        "sr_RS@latin UTF-8",
        "aa_DJ ISO-8859-1",
        "xx_YY.UTF-8 UTF-8",
        "ast_ES.UTF-8 UTF-8",
    ]);
    let choices: Vec<(String, String)> = language_choices(&locales)
        .into_iter()
        .map(|c| (c.locale, c.name))
        .collect();
    assert_eq!(
        choices,
        vec![
            ("de_DE.UTF-8 UTF-8".to_string(), "German".to_string()),
            ("en_US.UTF-8 UTF-8".to_string(), "English".to_string()),
            ("xx_YY.UTF-8 UTF-8".to_string(), "XX".to_string()),
            ("ast_ES.UTF-8 UTF-8".to_string(), "Asturian".to_string()),
        ]
    );
}

#[test]
fn chosen_locale_and_commands() {
    assert_eq!(chosen_locale_of("de_DE.UTF-8 UTF-8"), "de_DE.UTF-8");
    assert_eq!(chosen_locale_of("   "), "en_US.UTF-8");
    assert_eq!(
        locale_gen_command("de_DE.UTF-8 UTF-8"),
        "grep -qxF 'de_DE.UTF-8 UTF-8' /etc/locale.gen || echo 'de_DE.UTF-8 UTF-8' | sudo tee -a /etc/locale.gen"
    );
    assert_eq!(lang_setting("de_DE.UTF-8"), "LANG=de_DE.UTF-8");
}

#[test]
fn update_machine() {
    let (s, a) = update_step(UpdateStatus::Idle, UpdateEvent::CheckPressed);
    assert_eq!((s, a), (UpdateStatus::Updating, UpdateAction::StartUpgrade));
    assert!(is_updating(s));
    assert_eq!(status_message(s), "Updating...");
    assert_eq!(update_step(s, UpdateEvent::CheckPressed), (UpdateStatus::Updating, UpdateAction::Wait));
    let (s2, _) = update_step(s, UpdateEvent::UpgradeEnded { succeeded: true });
    assert_eq!(status_message(s2), "Up to date");
    assert!(!is_updating(s2));
    let (s3, _) = update_step(s, UpdateEvent::UpgradeEnded { succeeded: false });
    assert_eq!(status_message(s3), "Something Went Wrong. Try Again");
    assert_eq!(status_message(UpdateStatus::Idle), "");
}

#[test]
fn added_startup_is_deleted_by_its_command() {
    let content = "// startups\nspawn-at-startup \"a\"\nx";
    let added = add_startup(content, "waybar");
    let line = added.lines().nth(1).unwrap().to_string();
    let shown = quoted_text(&line);
    assert_eq!(shown, "waybar");
    assert_eq!(remove_entry(&added, &shown), content);
}

#[test]
fn added_keybind_is_deleted_by_its_shortcut() {
    let content = "binds {\n    Mod+T { spawn \"rio\"; }\n}";
    let added = add_keybind(content, "Mod+Q", "close-window;");
    let line = added.lines().nth(1).unwrap().to_string();
    let (shown, _) = keybind_parts(&line);
    assert_eq!(shown, "Mod+Q");
    assert_eq!(remove_entry(&added, &shown), content);
}

#[test]
fn stored_value_reads_quoted_text() {
    assert_eq!(stored_value(&strings(&["timezone \"Europe/Berlin\"", "x"])), Some("Europe/Berlin".to_string()));
    assert_eq!(stored_value(&strings(&["timezone"])), None);
    assert_eq!(stored_value(&Vec::new()), None);
}
