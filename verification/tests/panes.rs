use std::time::Duration;

use colby_editor::browser::{
    last, offered, pressed, refresh, row_hover, row_label, row_state, rows, take_offer, Naming, Offer,
    RESCAN,
};
use colby_editor::catalog::{is_text, scan, state, word, Entry, Found, Kind, State};
use colby_editor::change::Change;
use colby_editor::console::{
    color, common, completions, rank, shared, shown, Console, Level, Line, NAMED, RECALLED,
};
use colby_editor::loading;
use colby_editor::profiler::{self, micros, Part, Profile};
use colby_editor::session::{Session, SessionError, Sizes, SCHEMA};
use colby_editor::settings::{self, group_of, groups, LOOSE};

// ---- the console -------------------------------------------------------

/// One logged line.
fn said(level: Level, target: &str, message: &str) -> Line {
    Line { level, target: target.to_owned(), message: message.to_owned() }
}

/// A handful of names that share their beginnings, in the order they were
/// registered.
fn named() -> Vec<String> {
    ["r.shadows", "r.shadow_distance", "r.backend", "screenshot"]
        .iter()
        .map(|name| name.to_string())
        .collect()
}

#[test]
fn a_level_is_a_floor_and_everything_louder_than_it_is_shown_too() {
    let warning = said(Level::Warn, "colby_engine", "a warning");
    let trace = said(Level::Trace, "colby_engine", "a trace");

    assert!(shown(&warning, Level::Warn, ""), "the level chosen is shown");
    assert!(shown(&warning, Level::Trace, ""), "and so is it under a quieter floor");
    assert!(!shown(&trace, Level::Warn, ""), "a quieter line is not");
    assert!(shown(&trace, Level::Trace, ""));
}

#[test]
fn the_levels_are_counted_from_the_loudest_whatever_tracing_thinks() {
    assert_eq!(rank(Level::Error), 0);
    assert!(rank(Level::Error) < rank(Level::Warn));
    assert!(rank(Level::Warn) < rank(Level::Info));
    assert!(rank(Level::Info) < rank(Level::Debug));
    assert!(rank(Level::Debug) < rank(Level::Trace));
}

#[test]
fn a_target_filter_matches_part_of_a_target_whatever_its_case() {
    let line = said(Level::Info, "colby_editor", "something");

    assert!(shown(&line, Level::Trace, "editor"), "part of it is enough");
    assert!(shown(&line, Level::Trace, "EDITOR"), "case is ignored");
    assert!(shown(&line, Level::Trace, "  "), "and so is a box with nothing in it");
    assert!(!shown(&line, Level::Trace, "physics"));
}

#[test]
fn a_name_is_completed_from_the_whole_table_commands_and_all() {
    let names = named();

    assert_eq!(completions(&names, "screen"), vec!["screenshot"], "a command counts");
    assert_eq!(
        completions(&names, "r.shadow"),
        vec!["r.shadows", "r.shadow_distance"],
        "in the order the table holds them"
    );
    assert!(completions(&names, "").is_empty(), "the whole table is not a suggestion");
    assert!(completions(&names, "nothing").is_empty());
}

#[test]
fn several_matches_are_written_out_as_far_as_they_agree_and_then_named() {
    let mut console = Console::default();
    let names = named();
    console.input = "r.".to_owned();

    console.complete(&names);

    assert_eq!(console.input, "r.", "three names agree on no more than that");
    assert_eq!(console.suggested.len(), 3, "and all three are named");

    console.input = "r.s".to_owned();
    console.complete(&names);

    assert_eq!(console.input, "r.shadow", "two agree on this much");
    assert_eq!(console.suggested.len(), 2);
}

#[test]
fn one_match_is_written_out_whole_with_a_space_after_it() {
    let mut console = Console::default();
    console.input = "r.b".to_owned();

    console.complete(&named());

    assert_eq!(console.input, "r.backend ", "ready for its value");
    assert!(console.suggested.is_empty(), "nothing left to choose between");
}

#[test]
fn a_line_that_is_already_past_its_name_is_left_alone() {
    let mut console = Console::default();
    console.input = "r.backend vulk".to_owned();

    console.complete(&named());

    assert_eq!(console.input, "r.backend vulk", "the table knows nothing about a value");
}

#[test]
fn a_name_nobody_registered_is_left_where_it_was_to_be_seen() {
    let mut console = Console::default();
    console.input = "r.shadowz".to_owned();

    console.complete(&named());

    assert_eq!(console.input, "r.shadowz");
    assert!(console.suggested.is_empty());
}

#[test]
fn what_they_all_begin_with_stops_on_a_character_boundary() {
    let names = vec!["snd.volume".to_owned(), "snd.music".to_owned()];

    assert_eq!(common(&names), "snd.");
    assert_eq!(common(&vec!["alone".to_owned()]), "alone", "one name is all of it");
    assert_eq!(common(&vec![]), "", "and none is nothing");
    // two names that share their first character but not its bytes
    let wide = vec!["\u{e9}clair".to_owned(), "\u{e9}pee".to_owned()];
    assert_eq!(common(&wide), "\u{e9}", "a whole character, not half of one");
}

#[test]
fn two_names_share_their_letters_as_far_as_they_agree() {
    assert_eq!(shared("snd.volume", "snd.music"), 4);
    assert_eq!(shared("same", "same"), 4);
    assert_eq!(shared("", "same"), 0);
}

#[test]
fn a_line_entered_is_remembered_and_recalled() {
    let mut console = Console::default();

    console.input = "r.shadows false".to_owned();
    assert_eq!(console.enter(), Some("r.shadows false".to_owned()));
    assert_eq!(console.input, "");
    console.input = "   ".to_owned();
    assert_eq!(console.enter(), None, "nothing but spaces is nothing");
    console.input = "quit".to_owned();
    assert_eq!(console.enter(), Some("quit".to_owned()));

    console.recall(true, false);
    assert_eq!(console.input, "quit");
    console.recall(true, false);
    assert_eq!(console.input, "r.shadows false");
    console.recall(true, false);
    assert_eq!(console.input, "r.shadows false", "the oldest is the oldest");
    console.recall(false, true);
    assert_eq!(console.input, "quit");
    console.recall(false, true);
    assert_eq!(console.input, "", "and past the newest is nothing");
}

#[test]
fn the_oldest_line_is_forgotten_past_the_limit() {
    let mut console = Console::default();

    for number in 0..RECALLED + 3 {
        console.remember(format!("line {number}"));
    }
    assert_eq!(console.history.len(), RECALLED);
    assert_eq!(console.history[0], "line 3");
}

#[test]
fn a_long_list_of_suggestions_is_named_in_part() {
    let mut console = Console::default();
    assert_eq!(console.suggestions(), None);

    console.suggested = (0..NAMED + 2).map(|number| format!("name{number}")).collect();
    let words = console.suggestions().expect("some");
    assert!(words.contains("name0"), "{words}");
    assert!(!words.contains("name13"), "{words}");
}

#[test]
fn what_the_filters_keep_back_is_counted() {
    let mut console = Console::default();
    console.refresh(
        2,
        vec![said(Level::Info, "a", "one"), said(Level::Trace, "a", "two")],
    );
    console.level = Level::Info;
    assert_eq!(console.hidden(), 1);
    console.target = "b".to_owned();
    assert_eq!(console.hidden(), 2);
}

// ---- the browser -------------------------------------------------------

/// A row for a source that is not on disk anywhere.
fn entry(name: &str, kind: Kind) -> Entry {
    Entry {
        name: name.to_owned(),
        kind,
        source: name.to_owned(),
        output: name.to_owned(),
        state: State::Compiled,
    }
}

#[test]
fn the_browser_draws_a_project_without_a_window_and_lists_its_sources() {
    let walked = refresh(None, "/work/browsed", None);
    assert!(walked.restart && walked.walk, "the tree is walked");

    let entries = scan(vec![Found {
        name: "meshes/crystal".to_owned(),
        kind: Kind::Mesh,
        source: "/work/browsed/assets/meshes/crystal.obj".to_owned(),
        output: "/work/browsed/.colby/assets/meshes/crystal.cmesh".to_owned(),
        edited: Some(1),
        made: None,
    }]);

    assert_eq!(entries.len(), 1, "the tree was walked");
    assert_eq!(entries[0].name, "meshes/crystal");
    assert_eq!(entries[0].state, State::Uncompiled, "nothing compiled it");
}

#[test]
fn the_tree_is_walked_again_for_another_project_and_when_it_is_time() {
    let again = refresh(Some("/work/a"), "/work/a", Some(RESCAN - 1));
    assert!(!again.restart && !again.walk);
    let due = refresh(Some("/work/a"), "/work/a", Some(RESCAN));
    assert!(!due.restart && due.walk);
    let other = refresh(Some("/work/a"), "/work/b", Some(0));
    assert!(other.restart && other.walk);
}

#[test]
fn double_clicking_a_program_asks_for_it_to_be_opened_in_an_editor() {
    let changes = pressed(&entry("scripts/thruster", Kind::Script), true, true);

    assert_eq!(changes.len(), 1, "and that is the only thing it asks for");
    assert!(matches!(&changes[0], Change::Code(name) if name == "scripts/thruster"));
}

#[test]
fn double_clicking_a_scene_still_opens_the_scene_rather_than_its_text() {
    let changes = pressed(&entry("scenes/yard", Kind::Scene), true, true);

    assert_eq!(changes.len(), 1);
    assert!(matches!(&changes[0], Change::Open(name) if name == "scenes/yard"));
}

#[test]
fn double_clicking_a_material_inspects_it_and_opens_it() {
    let changes = pressed(&entry("materials/brass", Kind::Material), true, true);

    assert_eq!(changes.len(), 2);
    assert!(matches!(&changes[0], Change::Code(name) if name == "materials/brass"));
    assert!(matches!(&changes[1], Change::Inspect(name) if name == "materials/brass"));
}

#[test]
fn double_clicking_a_picture_asks_for_nothing() {
    let changes = pressed(&entry("textures/wall", Kind::Texture), true, true);

    assert!(changes.is_empty(), "a .png in a code editor is a screen of nothing");
}

#[test]
fn one_click_on_a_program_asks_for_nothing() {
    assert!(pressed(&entry("scripts/thruster", Kind::Script), true, false).is_empty());
}

/// The field open on a row, with something typed into it.
fn typing(on: &str, typed: &str) -> Naming {
    let mut naming = Naming::new();
    naming.open(on);
    naming.typed = typed.to_owned();

    naming
}

#[test]
fn a_row_being_renamed_asks_for_the_rename_when_enter_is_pressed() {
    let mut naming = typing("meshes/crystal", "gem");

    let waiting = naming.frame("meshes/crystal", false, false, false);
    let change = naming.frame("meshes/crystal", false, true, true);

    assert!(waiting.is_none(), "a field that is merely open asks for nothing");
    assert!(matches!(
        change,
        Some(Change::RenameAsset(name, to)) if name == "meshes/crystal" && to == "gem"
    ));
    assert_eq!(naming.on, None, "and the field is put away");
}

#[test]
fn escape_puts_the_field_away_and_renames_nothing() {
    let mut naming = typing("meshes/crystal", "gem");

    let change = naming.frame("meshes/crystal", true, true, false);

    assert!(change.is_none(), "nothing was asked for");
    assert_eq!(naming.on, None, "and the field is gone");
}

#[test]
fn a_field_nobody_edited_is_not_a_rename() {
    for said in ["crystal", "   "] {
        let mut naming = typing("meshes/crystal", said);
        let change = naming.frame("meshes/crystal", false, true, true);

        assert!(change.is_none(), "{said:?} is not a rename");
        assert_eq!(naming.on, None, "and the field is put away either way");
    }
}

#[test]
fn a_field_that_loses_the_keyboard_without_enter_renames_nothing() {
    let mut naming = typing("meshes/crystal", "gem");

    let change = naming.frame("meshes/crystal", false, true, false);

    assert!(change.is_none(), "a field left alone is not a rename");
    assert_eq!(naming.on, None, "and it is put away all the same");
}

#[test]
fn a_field_opens_on_the_last_part_of_the_name() {
    let mut naming = Naming::new();
    naming.open("meshes/crystal");

    assert!(naming.is_on("meshes/crystal"));
    assert!(!naming.is_on("meshes/other"));
    assert_eq!(naming.typed, "crystal");
}

#[test]
fn the_part_of_a_name_a_rename_changes_is_the_last_one() {
    assert_eq!(last("meshes/crystal"), "crystal");
    assert_eq!(last("meshes/props/small/crystal"), "crystal");
    assert_eq!(last("crystal"), "crystal", "a name with no directory is all last part");
    assert_eq!(last(""), "");
}

#[test]
fn a_row_says_its_kind_and_its_name_and_only_what_is_wrong() {
    let mut row = entry("scripts/thruster", Kind::Script);
    assert_eq!(row_label(&row), "program  scripts/thruster");
    assert_eq!(row_state(&row), None);
    row.state = State::Uncompiled;
    assert_eq!(row_state(&row), Some("not compiled"));

    let entries = vec![entry("meshes/Crystal", Kind::Mesh), entry("scenes/yard", Kind::Scene)];
    assert_eq!(rows(&entries, " CRYST "), vec![0]);
    assert_eq!(rows(&entries, ""), vec![0, 1]);
}

// ---- the catalog -------------------------------------------------------

/// A source as a walk found it.
fn found(name: &str, kind: Kind, output: &str, edited: Option<u64>, made: Option<u64>) -> Found {
    Found {
        name: name.to_owned(),
        kind,
        source: name.to_owned(),
        output: output.to_owned(),
        edited,
        made,
    }
}

#[test]
fn every_source_is_listed_by_name_with_its_kind_and_whether_it_compiled() {
    let crystal = "/.colby/assets/meshes/crystal.cmesh";
    let entries = scan(vec![
        found("textures/wall", Kind::Texture, "/.colby/assets/textures/wall.ctex", Some(9), None),
        found("meshes/crystal", Kind::Mesh, crystal, Some(100), Some(100)),
        // the scene's output was made a minute before the source was edited
        found("scenes/yard", Kind::Scene, "/.colby/assets/scenes/yard.cscene", Some(100), Some(40)),
    ]);

    let names: Vec<&str> = entries.iter().map(|entry| entry.name.as_str()).collect();
    assert_eq!(names, vec!["meshes/crystal", "scenes/yard", "textures/wall"], "by name");
    assert_eq!(entries[0].kind, Kind::Mesh);
    assert_eq!(entries[0].state, State::Compiled, "the mesh has its output");
    assert_eq!(entries[1].kind, Kind::Scene);
    assert_eq!(entries[1].state, State::Stale, "the scene's output is older than it");
    assert_eq!(entries[2].kind, Kind::Texture);
    assert_eq!(entries[2].state, State::Uncompiled, "the picture has none");
    assert_eq!(entries[0].output, crystal);
}

#[test]
fn a_tree_that_is_not_there_is_an_empty_list() {
    assert!(scan(Vec::new()).is_empty());
}

#[test]
fn the_words_are_the_short_ones_a_row_has_room_for() {
    assert_eq!(word(Kind::Mesh), "mesh");
    assert_eq!(word(Kind::Script), "program");
    assert_eq!(State::Compiled.word(), "", "the usual case says nothing");
    assert_eq!(State::Uncompiled.word(), "not compiled");
}

#[test]
fn an_output_is_stale_when_its_source_is_newer() {
    assert_eq!(state(Some(2), Some(1)), State::Stale);
    assert_eq!(state(Some(1), Some(1)), State::Compiled);
    assert_eq!(state(None, Some(1)), State::Compiled);
    assert_eq!(state(Some(1), None), State::Uncompiled);
    assert!(is_text(Kind::Script) && is_text(Kind::Material));
    assert!(!is_text(Kind::Scene) && !is_text(Kind::Texture));
}

// ---- the settings ------------------------------------------------------

/// A variable of the table.
fn variable(
    name: &str,
    value: settings::Value,
    default: settings::Value,
    archived: bool,
    help: &str,
) -> settings::Entry {
    settings::Entry {
        name: name.to_owned(),
        variable: Some(settings::Variable { value, default, archived, help: help.to_owned() }),
    }
}

/// A few variables and a command, with the volume turned to something.
fn stocked_at(volume: f32) -> Vec<settings::Entry> {
    let float = |held: f32| settings::Value::Float(held.to_bits());

    vec![
        variable(
            "r.shadows",
            settings::Value::Bool(true),
            settings::Value::Bool(true),
            false,
            "draw shadows",
        ),
        variable("snd.volume", float(volume), float(0.8), true, "how loud everything is"),
        variable("r.shadow_distance", float(60.0), float(60.0), false, "how far shadows reach"),
        variable(
            "loose",
            settings::Value::Int(3),
            settings::Value::Int(3),
            false,
            "a name with no dot in it",
        ),
        settings::Entry { name: "quit".to_owned(), variable: None },
    ]
}

/// A few variables and a command.
fn stocked() -> Vec<settings::Entry> {
    stocked_at(0.8)
}

#[test]
fn a_name_is_grouped_by_what_it_says_before_its_first_dot() {
    assert_eq!(group_of("r.shadows"), "r");
    assert_eq!(group_of("snd.volume"), "snd");
    assert_eq!(group_of("a.b.c"), "a", "the first dot, not the last");
    assert_eq!(group_of("loose"), LOOSE, "a name with no dot is not a group of one");
    assert_eq!(group_of(".hidden"), LOOSE, "and neither is a name that starts with one");
}

#[test]
fn every_variable_is_listed_under_its_group_and_no_command_is() {
    let table = stocked();
    let groups = groups(&table, "");

    let names: Vec<&str> = groups.iter().map(|group| group.name.as_str()).collect();
    assert_eq!(names, vec![LOOSE, "r", "snd"], "groups in name order");
    let shading: Vec<&str> = groups[1].rows.iter().map(|row| table[*row].name.as_str()).collect();
    assert_eq!(
        shading,
        vec!["r.shadows", "r.shadow_distance"],
        "and rows in the order they were registered"
    );
    assert!(
        groups.iter().flat_map(|group| &group.rows).all(|row| table[*row].name != "quit"),
        "a command has nothing to turn"
    );
}

#[test]
fn a_row_carries_what_it_holds_what_it_started_as_and_whether_it_is_kept() {
    let table = stocked_at(0.25);
    let groups = groups(&table, "volume");

    assert_eq!(groups.len(), 1, "only the one group has a match");
    let row = &table[groups[0].rows[0]];
    assert_eq!(row.name, "snd.volume");
    let held = row.variable.as_ref().expect("a variable");
    assert!(held.value.same(&settings::Value::Float(0.25f32.to_bits())), "what it holds");
    assert!(
        held.default.same(&settings::Value::Float(0.8f32.to_bits())),
        "and what it would go back to"
    );
    assert!(held.archived, "registered as saved");
    assert_eq!(held.help, "how loud everything is");

    assert!(settings::line(held).reset, "turned down, so it can be put back");
    assert_eq!(settings::line(held).kept, "saved");
    let still = table[0].variable.as_ref().expect("a variable");
    assert!(!settings::line(still).reset);
    assert_eq!(settings::line(still).means, "for this run only");
}

#[test]
fn the_search_matches_a_name_anywhere_in_it_whatever_its_case() {
    let table = stocked();

    assert_eq!(groups(&table, "SHADOW").len(), 1, "case is ignored");
    assert_eq!(groups(&table, "shadow")[0].rows.len(), 2, "and it matches inside a name");
    assert!(groups(&table, "nothing here").is_empty());
}

// ---- the profiler and the loading screen -------------------------------

#[test]
fn a_pane_with_nothing_measured_yet_draws_and_says_so() {
    let profile = Profile { parts: &[], passes: None, hardware: false };

    assert_eq!(
        profiler::heading(&profile),
        "nothing has been measured yet; the first numbers are a few frames away"
    );
}

#[test]
fn a_pane_draws_a_part_that_ran_beside_one_that_never_did() {
    let held = [
        Part {
            name: "gpu scene",
            mean: Some(Duration::from_micros(420)),
            worst: Some(Duration::from_micros(900)),
        },
        Part { name: "gpu glow", mean: None, worst: None },
    ];

    let ran = profiler::row(&held[0]);
    assert_eq!((ran.mean.as_str(), ran.worst.as_str()), ("420 us", "900 us"));
    assert!(ran.measured);
    let never = profiler::row(&held[1]);
    assert_eq!(never.name, "gpu glow");
    assert!(!never.measured);

    let counted = Profile { parts: &held, passes: Some(15), hardware: true };
    assert_eq!(profiler::heading(&counted), "15 render passes");
    let not_yet = Profile { parts: &held, passes: None, hardware: false };
    assert_eq!(profiler::heading(&not_yet), "no frame has been read back yet");
}

#[test]
fn a_length_is_printed_in_microseconds_and_nought_is_a_measurement() {
    assert_eq!(micros(Duration::from_micros(420)), "420 us");
    assert_eq!(
        micros(Duration::ZERO),
        "0 us",
        "a part measured at nothing is not the same as a part that never ran, which the row \
         above prints as two words instead"
    );
}

#[test]
fn the_page_draws_every_state_and_a_failure_without_a_window() {
    let steps = [
        loading::Step { title: "compiling the assets", state: loading::State::Done },
        loading::Step { title: "building the game crate", state: loading::State::Current },
        loading::Step { title: "loading the game module", state: loading::State::Pending },
    ];

    assert_eq!(loading::page(&steps).len(), 3);
    assert_eq!(loading::line(&steps[0]).text, "+  compiling the assets");
    assert_eq!(loading::line(&steps[1]).text, ">  building the game crate ...");
    assert_eq!(loading::line(&steps[2]).text, "   loading the game module");
    assert!(loading::line(&steps[1]).strong && !loading::line(&steps[2]).strong);
}

// ---- what is kept between runs -----------------------------------------

#[test]
fn what_is_written_is_what_is_read_back() {
    let session = Session {
        tabs: vec!["scenes/yard".to_owned(), "scenes/hangar".to_owned()],
        current: 1,
        panels: Sizes { left: 300, right: 260, bottom: 180 },
    };

    let read = Session::read(&session.write()).expect("read back");

    assert_eq!(read, session);
}

#[test]
fn a_file_with_nothing_in_it_but_a_schema_is_the_starting_state() {
    let read = Session::read("{ \"schema\": 1 }").expect("read");

    assert_eq!(read, Session::default());
    assert!(read.tabs.is_empty());
    assert_eq!(read.panels, Sizes::default());
}

#[test]
fn a_file_from_a_newer_engine_is_refused_rather_than_half_read() {
    let text = format!("{{ \"schema\": {} }}", SCHEMA + 1);

    let failure = Session::read(&text).expect_err("refused");

    assert!(failure.words().contains("newer engine"), "got {failure:?}");
}

#[test]
fn a_current_tab_past_the_end_is_pulled_back_to_one_that_is_there() {
    let read = Session::read("{ \"schema\": 1, \"tabs\": [\"scenes/yard\"], \"current\": 7 }")
        .expect("read");

    assert_eq!(read.current, 0);
}

#[test]
fn a_width_of_zero_is_the_starting_width_rather_than_a_panel_nobody_can_see() {
    let read = Session::read(
        "{ \"schema\": 1, \"panels\": { \"left\": 0, \"right\": 260, \"bottom\": 0 } }",
    )
    .expect("read");

    assert_eq!(read.panels.left, Sizes::default().left);
    assert_eq!(read.panels.right, 260);
    assert_eq!(read.panels.bottom, Sizes::default().bottom);
}

#[test]
fn a_project_with_no_file_yet_opens_at_the_starting_state_and_can_be_written() {
    assert_eq!(Session::open(None), Session::default(), "nothing to read");

    let session = Session {
        tabs: vec!["scenes/yard".to_owned()],
        current: 0,
        panels: Sizes::default(),
    };
    let text = session.write();

    assert_eq!(Session::open(Some(&text)), session, "and read back next time");
    assert_eq!(
        Session::path("/work/sessioned"),
        "/work/sessioned/.colby/editor.json",
        "beside the compiled tree rather than in the repository"
    );
}

#[test]
fn a_file_nobody_can_parse_opens_at_the_starting_state_rather_than_failing() {
    assert_eq!(Session::open(Some("not json at all")), Session::default());
}

#[test]
fn every_refusal_of_a_session_is_told_apart() {
    let refused = |text: &str| Session::read(text).expect_err("refused");

    assert!(matches!(refused("not json at all"), SessionError::NotJson));
    assert!(matches!(refused("{}"), SessionError::Schema));
    assert!(matches!(refused("{ \"schema\": \"1\" }"), SessionError::Schema));
    assert!(matches!(refused("{ \"schema\": 9 }"), SessionError::Newer(9)));
    assert_ne!(refused("{}").words(), refused("[").words());
}

#[test]
fn finishing_a_name_only_adds_to_it() {
    for typed in ["r", "r.", "r.s", "s", "x", ""] {
        let mut console = Console::default();
        console.input = typed.to_owned();
        console.complete(&named());
        assert!(console.input.starts_with(typed), "{typed:?} became {:?}", console.input);
    }
}

#[test]
fn the_levels_are_told_apart_by_color() {
    assert_eq!(color(Level::Error), [240, 105, 105]);
    assert_ne!(color(Level::Debug), color(Level::Trace));
}

#[test]
fn a_row_says_its_identity_and_offers_to_copy_it() {
    let crystal = entry("meshes/crystal", Kind::Mesh);

    assert_eq!(row_hover(&crystal, Some("k3v9")), "meshes/crystal\nk3v9");
    assert_eq!(
        row_hover(&crystal, None),
        "meshes/crystal\nno identity yet; it gets one when it compiles"
    );
    assert!(offered(Offer::Rename, None) && !offered(Offer::Copy, None));
    assert!(offered(Offer::Copy, Some("k3v9")));
    assert_eq!(Offer::Copy.word(), "copy identity");

    let mut naming = Naming::new();
    assert_eq!(
        take_offer(&mut naming, Offer::Copy, "meshes/crystal", Some("k3v9")),
        Some("k3v9".to_owned())
    );
    assert_eq!(naming.on, None);
    assert_eq!(take_offer(&mut naming, Offer::Rename, "meshes/crystal", Some("k3v9")), None);
    assert_eq!((naming.on.as_deref(), naming.typed.as_str()), (Some("meshes/crystal"), "crystal"));
}
