use colby_editor::launcher::list::{
    ago, default_file, default_projects_dir, folder, now, order, seconds, spelled, Entry, List,
    unsaved, ListError, Project, Shown, Sort, DIRECTORY, FILE, PROJECTS_FOLDER,
};
use colby_editor::paths::{lexical, Disk};

/// The rows of a list, with what each project's file says: its id and its
/// name by the directory it stands in.
fn rows(list: &List, files: &[(&str, &str, &str)]) -> Vec<Shown> {
    let read = list
        .entries()
        .iter()
        .map(|entry| {
            files
                .iter()
                .find(|(dir, _, _)| *dir == entry.path)
                .map(|(_, id, name)| Project {
                    name: name.to_string(),
                    id: id.to_string(),
                })
                .ok_or_else(|| "not found".to_owned())
        })
        .collect();

    list.shown(read)
}

/// The names of rows, in order.
fn names(shown: &[Shown]) -> Vec<String> {
    shown.iter().map(Shown::name).collect()
}

#[test]
fn a_list_survives_the_text() {
    let disk = Disk::bare();
    let mut list = List::new("C:/somebody/Documents/colby projects");
    list.sort = Sort::Name;
    list.add("C:/somebody/Documents/colby projects/yard", &disk);
    list.add("D:/say \"hi\"/back\\slash", &disk);
    list.pin("C:/somebody/Documents/colby projects/yard", true, &disk);
    list.opened("C:/somebody/Documents/colby projects/yard", 1_788_000_000, &disk);

    let text = list.write();
    let back = List::read(&text, "elsewhere").expect("the text reads back");

    assert_eq!(back.projects_dir, list.projects_dir);
    assert_eq!(back.sort, Sort::Name);
    assert_eq!(
        back.entries(),
        &vec![
            Entry {
                path: "C:/somebody/Documents/colby projects/yard".to_owned(),
                pinned: true,
                last_opened: 1_788_000_000,
            },
            Entry {
                // a backslash is a forward slash in the file
                path: "D:/say \"hi\"/back/slash".to_owned(),
                pinned: false,
                last_opened: 0,
            },
        ]
    );
    assert!(text.contains("\"schema\": 1"), "and says which shape it is: {text}");
}

#[test]
fn an_empty_list_is_written_and_read_and_a_missing_file_is_one() {
    let list = List::new("here");
    let text = list.write();

    assert_eq!(List::read(&text, "x").expect("reads"), list);
    assert!(text.contains("\"projects\": []"), "{text}");

    let loaded = List::load(FILE, None, "fallback").expect("nothing there is empty");

    assert_eq!(loaded, List::new("fallback"));
    assert_eq!((loaded.projects_dir.as_str(), loaded.sort), ("fallback", Sort::Recent));
    assert!(loaded.entries().is_empty());
}

#[test]
fn what_the_file_does_not_say_takes_the_defaults() {
    let list = List::read(r#"{ "schema": 1 }"#, "fallback").expect("the least");

    assert_eq!(list.projects_dir, "fallback");
    assert_eq!(list.sort, Sort::Recent);
    assert!(list.entries().is_empty());

    let list = List::read(r#"{ "schema": 1, "projects": [ { "path": "p" } ] }"#, ".")
        .expect("an entry with only a path");

    assert_eq!(
        list.entries()[0],
        Entry { path: "p".to_owned(), pinned: false, last_opened: 0 }
    );
}

#[test]
fn a_field_this_build_does_not_know_is_refused_and_so_is_a_newer_schema() {
    let text = List::read(r#"{ "schema": 1, "thumbs": true }"#, ".")
        .expect_err("refused")
        .words();

    assert!(text.contains("thumbs"), "it says which: {text}");

    let text = List::read(
        r#"{ "schema": 1, "projects": [ { "path": "p", "org": "x" } ] }"#,
        ".",
    )
    .expect_err("refused")
    .words();

    assert!(text.contains("org"), "in an entry too: {text}");

    let text = List::read(r#"{ "schema": 2 }"#, ".").expect_err("refused").words();

    assert!(text.contains("newer engine"), "{text}");

    let text = List::read(r#"{ "schema": 1, "sort": "sideways" }"#, ".")
        .expect_err("refused")
        .words();

    assert!(text.contains("sideways"), "an order nobody knows: {text}");
}

#[test]
fn every_refusal_of_a_list_is_told_apart() {
    let refused = |text: &str| List::read(text, ".").expect_err("refused");

    assert!(matches!(refused("{ not json"), ListError::NotJson));
    assert!(matches!(refused(r#"{ "schema": 1, "thumbs": 1 }"#), ListError::Field(name) if name == "thumbs"));
    assert!(matches!(refused("{}"), ListError::Schema));
    assert!(matches!(refused(r#"{ "schema": 2 }"#), ListError::Newer(2)));
    assert!(matches!(refused(r#"{ "schema": 1, "projects_dir": 4 }"#), ListError::Folder));
    assert!(matches!(refused(r#"{ "schema": 1, "sort": 4 }"#), ListError::Word));
    assert!(matches!(refused(r#"{ "schema": 1, "sort": "up" }"#), ListError::Order(word) if word == "up"));
    assert!(matches!(
        refused(r#"{ "schema": 1, "projects": [ { "org": "x" } ] }"#),
        ListError::EntryField(name) if name == "org"
    ));
    assert!(matches!(refused(r#"{ "schema": 1, "projects": [ {} ] }"#), ListError::Path));
    for (text, why) in [
        (
            r#"{ "schema": 1, "projects": {} }"#,
            "the project list's projects has to be a list",
        ),
        (
            r#"{ "schema": 1, "projects": [ { "path": "a", "pinned": "yes" } ] }"#,
            "a project's pinned has to be true or false",
        ),
        (
            r#"{ "schema": 1, "projects": [ { "path": "a", "last_opened": "now" } ] }"#,
            "a project's last_opened has to be a whole number",
        ),
        (
            r#"{ "schema": 1, "projects": [ { "path": "a", "last_opened": -1 } ] }"#,
            "a project's last_opened has to be a whole number",
        ),
        (
            r#"{ "schema": 1, "sort": "it's" }"#,
            r#""it's" is not an order the list knows"#,
        ),
    ] {
        assert_eq!(refused(text).words(), why);
    }
}

#[test]
fn a_project_that_is_not_there_is_one_entry_too() {
    let disk = Disk::bare();
    let mut list = List::new("/work");

    assert!(list.add("/work/gone", &disk), "added, whether or not the directory is there");
    assert!(
        !list.add("/work/other/../gone", &disk),
        "and not a second time under another spelling"
    );
    assert_eq!(list.entries().len(), 1, "one project, one row");
}

#[test]
fn the_same_directory_is_one_entry_however_it_is_spelled() {
    let disk = Disk::bare();
    let mut list = List::new("/work");

    assert!(list.add("/work/yard", &disk), "added");
    assert!(!list.add("/work/yard", &disk), "not twice");
    assert!(!list.add("/work/yard/.", &disk), "nor through a step that goes nowhere");
    assert!(!list.add("/work/other/../yard", &disk), "nor through a step up");
    assert_eq!(list.entries().len(), 1);

    assert!(list.remove("/work/yard/.", &disk), "taken off by any spelling");
    assert!(list.entries().is_empty());
    assert!(!list.remove("/work/yard", &disk), "and not twice");
}

#[test]
fn two_paths_that_lead_to_one_place_are_one_entry() {
    let disk = Disk {
        places: vec![
            ("/work/yard".to_owned(), "/real/yard".to_owned()),
            ("/links/yard".to_owned(), "/real/yard".to_owned()),
        ],
    };
    let mut list = List::new("/work");

    assert!(list.add("/work/yard", &disk));
    assert!(!list.add("/links/yard", &disk), "a link to it is the same project");
    assert!(list.add("/work/garden", &disk));
    assert_eq!(list.find("/links/yard", &disk), Some(0));
    assert_eq!(list.find("/links/yard", &Disk::bare()), None);
}

#[test]
fn pinned_rows_come_first_and_the_rest_go_by_the_order_asked() {
    let disk = Disk::bare();
    let files = [
        ("/work/apple", "apple", "Apple"),
        ("/work/cherry", "cherry", "Cherry"),
        ("/work/banana", "banana", "banana"),
    ];
    let mut list = List::new("/work");
    list.add("/work/apple", &disk);
    list.add("/work/cherry", &disk);
    list.add("/work/banana", &disk);
    list.opened("/work/apple", 100, &disk);
    list.opened("/work/cherry", 300, &disk);
    list.opened("/work/banana", 200, &disk);

    assert_eq!(
        names(&rows(&list, &files)),
        ["Cherry", "banana", "Apple"],
        "most recent first"
    );

    list.sort = Sort::Name;

    assert_eq!(
        names(&rows(&list, &files)),
        ["Apple", "banana", "Cherry"],
        "by name, whatever the case"
    );

    list.pin("/work/apple", true, &disk);
    list.sort = Sort::Recent;

    assert_eq!(names(&rows(&list, &files)), ["Apple", "Cherry", "banana"], "pinned on top");
}

#[test]
fn rows_that_agree_on_everything_go_by_path() {
    let row = |path: &str| Shown {
        entry: Entry { path: path.to_owned(), pinned: false, last_opened: 7 },
        project: Ok(Project { name: "Same".to_owned(), id: "same".to_owned() }),
    };
    let shown = order(vec![row("/b/x"), row("/a/x"), row("/a")], Sort::Name);
    let paths: Vec<&str> = shown.iter().map(|row| row.entry.path.as_str()).collect();

    assert_eq!(paths, ["/a", "/a/x", "/b/x"]);
}

#[test]
fn a_project_whose_file_is_gone_is_kept_and_says_so() {
    let disk = Disk::bare();
    let files = [("/work/yard", "yard", "The Yard")];
    let mut list = List::new("/work");
    list.add("/work/yard", &disk);
    list.add("/work/nowhere", &disk);

    let shown = rows(&list, &files);
    let missing = shown
        .iter()
        .find(|row| row.entry.path.ends_with("nowhere"))
        .expect("still on the list");

    assert_eq!(missing.project.as_ref().err().map(String::as_str), Some("not found"));
    assert_eq!(missing.name(), "nowhere", "called by its directory");
    assert_eq!(missing.id(), "", "and has no id to show");

    let found = shown
        .iter()
        .find(|row| row.entry.path == "/work/yard")
        .expect("the other one");

    assert_eq!(found.name(), "The Yard");
    assert_eq!(found.id(), "yard");
}

#[test]
fn a_search_word_is_looked_for_in_the_name_the_id_and_the_path() {
    let disk = Disk::bare();
    let files = [("/tmp/colby_list_search/yard", "yard", "The Yard")];
    let mut list = List::new("/tmp/colby_list_search");
    list.add("/tmp/colby_list_search/yard", &disk);

    let shown = rows(&list, &files);
    let row = &shown[0];

    assert!(row.matches(""), "nothing typed matches everything");
    assert!(row.matches("  "), "and so does nothing but spaces");
    assert!(row.matches("YARD"), "in any case");
    assert!(row.matches("  yArD "), "and whatever blanks stand around it");
    assert!(row.matches("the y"), "in the name");
    assert!(row.matches("colby_list_search"), "in the path");
    assert!(!row.matches("garden"), "and not something that is nowhere");
}

#[test]
fn how_long_ago_is_said_in_the_nearest_unit() {
    let now = 10_000_000;

    assert_eq!(ago(now, 0), "never opened");
    assert_eq!(ago(now, now), "just now");
    assert_eq!(ago(now, now - 59), "just now");
    assert_eq!(ago(now, now - 60), "1 min ago");
    assert_eq!(ago(now, now - 3599), "59 min ago");
    assert_eq!(ago(now, now - 3600), "1 h ago");
    assert_eq!(ago(now, now - 5 * 3600), "5 h ago");
    assert_eq!(ago(now, now - 86_400), "yesterday");
    assert_eq!(ago(now, now - 3 * 86_400), "3 days ago");
    assert_eq!(ago(now, now + 500), "just now", "a clock that went backwards is not a panic");
}

#[test]
fn what_is_saved_is_loaded_again() {
    let disk = Disk::bare();
    let mut list = List::new("/work");
    list.add("somewhere", &disk);
    let file = format!("/work/deeper/still/{FILE}");

    let (dir, text) = list.save(&file);

    assert_eq!(dir, "/work/deeper/still", "where the directory is to be");
    assert_eq!(List::load(&file, Some(Ok(text)), ".").expect("loaded"), list);
    assert_eq!(unsaved("a/b", "no room"), "a/b cannot be written: no room");
}

#[test]
fn a_file_that_cannot_be_read_names_itself() {
    let file = format!("/work/{FILE}");
    let text = List::load(&file, Some(Ok("{ not json".to_owned())), ".").expect_err("refused");

    assert!(text.contains(FILE), "which file: {text}");
    assert_eq!(text, format!("{file}: the text is not JSON"));
    assert_eq!(
        List::load(&file, Some(Err("not yours".to_owned())), "."),
        Err(format!("{file} cannot be read: not yours"))
    );
}

#[test]
fn the_default_places_are_somewhere() {
    let file = default_file(Some("/home/somebody/.config")).expect("a config directory");

    assert!(file.ends_with(&format!("{DIRECTORY}/{FILE}")), "{file}");
    assert_eq!(default_file(None), None, "and none without one");
    assert!(default_projects_dir(Some("/home/somebody"), true).ends_with(PROJECTS_FOLDER));
    assert!(default_projects_dir(Some("/home/somebody"), false).ends_with(PROJECTS_FOLDER));
    assert!(default_projects_dir(None, false).ends_with(PROJECTS_FOLDER));
}

#[test]
fn paths_are_spelled_with_forward_slashes() {
    assert_eq!(spelled("C:\\a\\b"), "C:/a/b");
    assert_eq!(spelled("/a/b"), "/a/b");
    assert_eq!(Sort::from_word("name"), Some(Sort::Name));
    assert_eq!(Sort::from_word("Name"), None, "the words are the file's, lowercase");
}

#[test]
fn a_sort_is_read_back_from_its_word() {
    for sort in Sort::ALL {
        assert_eq!(Sort::from_word(sort.word()), Some(sort));
    }
    assert_eq!(Sort::Recent.word(), "recent");
    assert_eq!(Sort::default(), Sort::Recent);
}

#[test]
fn adding_and_taking_off_again_leaves_the_list_as_it_was() {
    let disk = Disk::bare();
    let mut list = List::new("/work");
    list.add("/work/a", &disk);
    list.add("/work/b", &disk);
    let was = list.clone();

    assert!(list.add("/work/c", &disk));
    assert_ne!(list, was);
    assert!(list.remove("/work/c", &disk));
    assert_eq!(list, was);
}

#[test]
fn a_folder_is_the_last_part_of_a_path() {
    assert_eq!(folder("/work/yard"), "yard");
    assert_eq!(folder("/work/yard/"), "yard");
    assert_eq!(folder("yard"), "yard");
    assert_eq!(folder("/"), "/");
}

#[test]
fn the_clock_is_past_the_day_this_was_written() {
    assert!(now() > 1_700_000_000, "seconds since the epoch");
    assert_eq!(seconds(Some(12)), 12);
    assert_eq!(seconds(None), 0, "a clock before the epoch is nought");
}

#[test]
fn a_path_is_folded_by_its_spelling_alone() {
    assert_eq!(lexical("/a/./b/../c"), "/a/c");
    assert_eq!(lexical(&lexical("/a/./b/../c")), "/a/c");
    assert_eq!(lexical("../x"), "../x");
    assert_eq!(lexical("/.."), "/");
}
