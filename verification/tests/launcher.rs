use colby_editor::launcher::home::{
    foot, foot_line, ready, row_buttons, row_pressed, sort_chosen, with_git, Home, Press,
};
use colby_editor::launcher::list::{Entry, List, Project, Shown, Sort};
use colby_editor::launcher::pages::{
    project_dir, Action, Change, Given, Page, Pages, PROJECT,
};
use colby_editor::launcher::template::Template;
use colby_editor::launcher::wizard::Wizard;
use colby_editor::paths::Disk;

/// The one template under the engine.
fn tiny() -> Vec<Template> {
    vec![Template::read("/engine/templates/tiny", r#"{ "title": "Tiny" }"#).expect("a template")]
}

/// A launcher whose list is kept in a file that is not there yet.
fn launcher() -> Pages {
    Pages::new(Some(Ok(List::new("/work/projects"))), "/home/colby projects", tiny(), None)
}

/// The names of the rows, where every directory holds a project called
/// "The Yard".
fn first_name(pages: &Pages) -> String {
    let read = pages
        .list
        .entries()
        .iter()
        .map(|_| Ok(Project { name: "The Yard".to_owned(), id: "yard".to_owned() }))
        .collect();

    pages.list.shown(read)[0].name()
}

#[test]
fn a_project_added_is_on_the_list_and_in_the_file_and_opening_it_is_the_action() {
    let disk = Disk::bare();
    let taken = Vec::new();
    let given = Given { disk: &disk, now: 1_788_000_000, taken: &taken };
    let yard = "/work/yard".to_owned();
    let mut pages = launcher();

    assert!(pages.list.entries().is_empty(), "nothing yet");

    let done = pages.apply(&Change::Add(yard.clone(), true), &given);

    assert_eq!(pages.list.entries().len(), 1);
    assert_eq!(first_name(&pages), "The Yard", "read from its file");
    assert!(done.save, "and written");
    assert!(done.refresh);

    let file = format!("/work/yard/{PROJECT}");
    let dir = project_dir(&file, true);
    assert_eq!(dir, yard);
    pages.apply(&Change::Add(dir, true), &given);

    assert_eq!(pages.list.entries().len(), 1, "the file's path is the same project");
    assert!(pages.notice.contains("already"), "{}", pages.notice);

    let done = pages.apply(&Change::Add("/work/nowhere".to_owned(), false), &given);

    assert_eq!(pages.list.entries().len(), 1, "a directory with no project is not added");
    assert!(pages.notice.contains(PROJECT), "{}", pages.notice);
    assert!(!done.save);

    let done = pages.apply(&Change::Open(yard.clone()), &given);
    assert_eq!(done.action, Some(Action::Open(yard.clone())));
    assert!(pages.list.entries()[0].last_opened > 0, "and noted as opened");

    pages.apply(&Change::Pin(yard.clone(), true), &given);
    assert!(pages.list.entries()[0].pinned);

    pages.apply(&Change::Sort(Sort::Name), &given);
    assert_eq!(pages.list.sort, Sort::Name);

    let again = Pages::new(
        Some(List::read(&pages.list.write(), "/home/colby projects").map_err(|why| why.words())),
        "/home/colby projects",
        tiny(),
        None,
    );

    assert_eq!(again.list, pages.list, "everything came back from the file");

    pages.apply(&Change::Remove(yard.clone()), &given);
    assert!(pages.list.entries().is_empty());
    assert_eq!(pages.notice, "/work/yard taken off the list; nothing on disk was touched");
}

#[test]
fn the_form_makes_a_project_puts_it_on_the_list_and_opens_it() {
    let disk = Disk::bare();
    let taken = Vec::new();
    let given = Given { disk: &disk, now: 1_788_000_000, taken: &taken };
    let mut pages = launcher();

    assert!(matches!(pages.page, Page::Home));
    assert_eq!(pages.apply(&Change::New, &given).action, None);

    let Page::Creator(wizard) = &mut pages.page else {
        panic!("the form is up");
    };

    wizard.name = "The Yard".to_owned();
    wizard.named();
    wizard.git_init = false;

    let made = "/work/projects/the_yard".to_owned();
    let (plan, template) = pages.create(false).expect("something to make");

    assert_eq!(plan.target, made);
    assert_eq!((plan.id.as_str(), plan.name.as_str()), ("the_yard", "The Yard"));
    assert!(plan.vcs_files, "with its git files");
    assert_eq!(template, 0);

    let done = pages.created(&made, &given);

    assert_eq!(done.action, Some(Action::Open(made)));
    assert!(done.save && done.refresh);
    assert!(matches!(pages.page, Page::Home), "and back on the list");
    assert_eq!(first_name(&pages), "The Yard");
    assert!(pages.list.entries()[0].last_opened > 0);

    assert_eq!(pages.apply(&Change::New, &given).action, None);
    let Page::Creator(wizard) = &mut pages.page else {
        panic!("the form is up again");
    };
    wizard.name = "The Yard".to_owned();
    wizard.named();
    wizard.git_init = false;

    assert!(pages.create(true).is_none(), "the same again is refused");
    assert!(pages.notice.contains("already exists"), "{}", pages.notice);
    assert!(matches!(pages.page, Page::Creator(_)), "and the form stays up to be fixed");

    assert_eq!(pages.apply(&Change::Back, &given).action, None);
    assert!(matches!(pages.page, Page::Home));
}

#[test]
fn remembering_the_location_moves_where_the_next_project_goes() {
    let disk = Disk::bare();
    let taken = Vec::new();
    let given = Given { disk: &disk, now: 1_788_000_000, taken: &taken };
    let mut pages = Pages::new(None, "/home/colby projects", tiny(), None);
    pages.apply(&Change::New, &given);

    let Page::Creator(wizard) = &mut pages.page else {
        panic!("the form is up");
    };
    wizard.location = "/elsewhere".to_owned();
    wizard.remember = true;
    wizard.git_init = false;
    let id = wizard.id.clone();

    let (plan, _) = pages.create(false).expect("something to make");
    let made = pages.created(&plan.target, &given);

    assert_eq!(made.action, Some(Action::Open(format!("/elsewhere/{id}"))));
    assert_eq!(pages.list.projects_dir, "/elsewhere");
    assert!(!made.save, "there is nowhere to keep the list");
}

#[test]
fn a_list_file_this_build_cannot_read_is_shown_as_such_and_never_written_over() {
    let disk = Disk::bare();
    let taken = Vec::new();
    let given = Given { disk: &disk, now: 1_788_000_000, taken: &taken };
    let read = List::read(r#"{ "schema": 1, "thumbs": true }"#, "/home/colby projects")
        .map_err(|why| why.words());
    let mut pages = Pages::new(Some(read), "/home/colby projects", tiny(), None);

    assert!(pages.broken.as_deref().is_some_and(|why| why.contains("thumbs")));

    let done = pages.apply(&Change::Add("/work/yard".to_owned(), true), &given);

    assert!(!done.save, "left exactly as it was");
    assert!(!pages.may_save());
}

#[test]
fn both_pages_draw_a_frame_nobody_touches_and_ask_for_nothing() {
    let disk = Disk::bare();
    let taken = Vec::new();
    let given = Given { disk: &disk, now: 1_788_000_000, taken: &taken };
    let mut pages = Pages::new(None, "/home/colby projects", tiny(), None);
    pages.apply(&Change::Add("/work/yard".to_owned(), true), &given);
    pages.apply(&Change::Add("/work/gone".to_owned(), false), &given);
    pages.list.add("/work/gone", &disk);

    let shown = pages.list.shown(vec![
        Ok(Project { name: "The Yard".to_owned(), id: "yard".to_owned() }),
        Err("not found".to_owned()),
    ]);
    let mut home = Home::new();
    let listing = home.rows(&shown);

    assert_eq!((listing.pinned.len(), listing.rest.len()), (0, 2));
    assert_eq!(home.adder(false), None, "the list");

    pages.apply(&Change::New, &given);
    assert!(matches!(pages.page, Page::Creator(_)), "still up");
}

#[test]
fn a_form_that_could_not_be_made_says_why_and_stays_up() {
    let disk = Disk::bare();
    let taken = Vec::new();
    let given = Given { disk: &disk, now: 1, taken: &taken };
    let mut pages = launcher();
    pages.apply(&Change::New, &given);
    pages.failed("the disk is full");

    assert_eq!(pages.notice, "the disk is full");
    assert!(matches!(pages.page, Page::Creator(_)));
}

#[test]
fn nothing_is_made_without_a_template_or_without_the_form() {
    let disk = Disk::bare();
    let taken = Vec::new();
    let given = Given { disk: &disk, now: 1, taken: &taken };
    let mut pages = Pages::new(None, "/home/colby projects", Vec::new(), None);

    assert!(pages.create(false).is_none());
    assert_eq!(pages.notice, "", "no form, nothing to say");

    pages.apply(&Change::New, &given);
    assert!(pages.create(false).is_none());
    assert_eq!(pages.notice, "there is no template to make a project from");
}

#[test]
fn the_projects_are_read_again_when_it_is_time() {
    assert!(Pages::due(true, Some(0)));
    assert!(Pages::due(false, None));
    assert!(!Pages::due(false, Some(1_999)));
    assert!(Pages::due(false, Some(2_000)));
}

/// A row of the list.
fn row(path: &str, pinned: bool, read: bool) -> Shown {
    Shown {
        entry: Entry { path: path.to_owned(), pinned, last_opened: 0 },
        project: if read {
            Ok(Project { name: path.to_uppercase(), id: path.to_owned() })
        } else {
            Err("not found".to_owned())
        },
    }
}

#[test]
fn the_rows_are_the_pinned_ones_and_the_rest_and_only_what_matches() {
    let shown = vec![row("alpha", true, true), row("beta", false, true), row("gamma", false, true)];
    let mut home = Home::new();

    let listing = home.rows(&shown);
    assert_eq!((listing.pinned, listing.rest), (vec![0], vec![1, 2]));

    home.search = "BET".to_owned();
    let listing = home.rows(&shown);
    assert_eq!((listing.pinned, listing.rest), (vec![], vec![1]));
}

#[test]
fn a_press_on_a_row_is_what_the_row_is_for() {
    let here = row("yard", false, true);
    let gone = row("yard", true, false);

    assert!(matches!(row_pressed(&here, Press::Twice), Some(Change::Open(path)) if path == "yard"));
    assert!(matches!(row_pressed(&here, Press::Main), Some(Change::Open(_))));
    assert!(matches!(row_pressed(&here, Press::Pin), Some(Change::Pin(_, true))));
    assert!(matches!(row_pressed(&here, Press::Remove), Some(Change::Remove(_))));
    assert!(row_pressed(&gone, Press::Twice).is_none(), "there is nothing to open");
    assert!(matches!(row_pressed(&gone, Press::Pin), Some(Change::Pin(_, false))));
    assert_eq!(row_buttons(&here).1 == row_buttons(&gone).1, false);
}

#[test]
fn the_order_already_chosen_is_no_change() {
    assert!(sort_chosen(Sort::Recent, Sort::Recent).is_none());
    assert!(matches!(
        sort_chosen(Sort::Recent, Sort::Name),
        Some(Change::Sort(Sort::Name))
    ));
}

#[test]
fn create_waits_for_a_form_that_checks_and_a_template() {
    let wizard = Wizard::new("/work", &Vec::new(), true);

    assert!(ready(&wizard, false, true));
    assert!(!ready(&wizard, true, true));
    assert!(!ready(&wizard, false, false));
}

#[test]
fn there_is_no_repository_without_git() {
    let mut wizard = Wizard::new("/work", &Vec::new(), true);

    with_git(&mut wizard, true);
    assert!(wizard.git_init);
    with_git(&mut wizard, false);
    assert!(!wizard.git_init);
}

#[test]
fn an_empty_list_says_why_it_is_empty() {
    let mut home = Home::new();

    assert!(home.empty_words(&Vec::new()).starts_with("no projects yet"));

    home.search = "  say \"hi\" ".to_owned();
    assert_eq!(
        home.empty_words(&vec![row("yard", false, true)]),
        "nothing on the list matches \"say \\\"hi\\\"\""
    );
}

#[test]
fn under_the_list_is_what_is_worth_saying() {
    assert_eq!(foot(None, ""), None);
    assert_eq!(foot(None, "made"), Some("made".to_owned()));
    assert_eq!(
        foot(Some("odd"), "made"),
        Some("the project list cannot be read and is left alone: odd".to_owned())
    );
    assert_eq!(
        foot_line("0.1.0", "C:\\engine", "/work"),
        "colby 0.1.0  .  engine C:/engine  .  projects in /work"
    );
}

#[test]
fn a_directory_typed_is_added_once_and_the_box_is_shut() {
    let mut home = Home::new();
    home.adding = true;
    home.add_path = "   ".to_owned();
    assert_eq!(home.adder(true), None, "nothing but spaces is nothing");
    assert!(home.adding);

    home.add_path = " /work/yard ".to_owned();
    assert_eq!(home.adder(true), Some("/work/yard".to_owned()));
    assert_eq!(home.add_path, "");
    assert!(!home.adding);
}

#[test]
fn a_project_file_stands_for_its_directory_as_it_is_spelled() {
    for (path, dir) in [
        ("a//b/colby.project", "a//b"),
        ("a/b//colby.project", "a/b"),
        ("./a/./colby.project", "./a"),
        ("./colby.project", "."),
        ("../a/../colby.project", "../a/.."),
        ("/colby.project", "/"),
        ("//colby.project/", "/"),
        ("colby.project", ""),
    ] {
        assert_eq!(project_dir(path, true), dir, "{path}");
        assert_eq!(
            std::path::Path::new(path).parent(),
            Some(std::path::Path::new(dir)),
            "{path}"
        );
    }
    assert_eq!(project_dir("a//b", true), "a//b", "another file stands for itself");
    assert_eq!(project_dir("a/colby.project", false), "a/colby.project");
}

#[test]
fn a_broken_list_file_is_left_alone_whatever_happens() {
    let disk = Disk::bare();
    let taken = Vec::new();
    let given = Given { disk: &disk, now: 1_788_000_000, taken: &taken };
    let read = List::read(r#"{ "schema": 1, "projects": {} }"#, "/home/colby projects")
        .map_err(|why| why.words());
    let mut pages = Pages::new(Some(read), "/home/colby projects", tiny(), None);
    let yard = || "/work/yard".to_owned();

    for change in [
        Change::Add(yard(), true),
        Change::Pin(yard(), true),
        Change::Sort(Sort::Name),
        Change::Open(yard()),
        Change::Remove(yard()),
        Change::New,
    ] {
        assert!(!pages.apply(&change, &given).save, "{change:?}");
    }
    pages.failed("the disk is full");
    assert!(!pages.created("/work/yard", &given).save);
    assert!(!pages.apply(&Change::Back, &given).save);
    assert!(pages.broken.is_some());
}

#[test]
fn a_list_that_was_not_written_is_said_where_nothing_else_is() {
    let disk = Disk::bare();
    let taken = Vec::new();
    let given = Given { disk: &disk, now: 1_788_000_000, taken: &taken };
    let mut pages = launcher();
    let yard = || "/work/yard".to_owned();

    assert!(!pages.apply(&Change::Add(yard(), true), &given).says, "it is on the list");
    assert!(pages.apply(&Change::Pin(yard(), true), &given).says);
    assert!(pages.apply(&Change::Sort(Sort::Name), &given).says);
    assert!(pages.apply(&Change::Open(yard()), &given).says);
    assert!(pages.apply(&Change::Remove(yard()), &given).says);
    assert!(!pages.created("/work/yard", &given).says, "nothing is said of one that was made");
}
