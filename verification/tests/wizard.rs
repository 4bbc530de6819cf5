use colby_editor::launcher::wizard::{
    git_version, ident, unused_name, valid_id, write_vcs_files, Wizard, GITATTRIBUTES, GITIGNORE,
    ID_LONGEST,
};

/// The names of folders.
fn taken(names: &[&str]) -> Vec<String> {
    names.iter().map(|name| name.to_string()).collect()
}

#[test]
fn an_id_is_the_name_in_lowercase_with_everything_else_an_underscore() {
    assert_eq!(ident("My Project"), "my_project");
    assert_eq!(ident("Garry's Project"), "garry_s_project");
    assert_eq!(ident("  spaced   out  "), "spaced_out", "runs folded, ends trimmed");
    assert_eq!(ident("Yard-2"), "yard_2");
    assert_eq!(ident("UPPER"), "upper");
    assert_eq!(ident("---"), "", "nothing usable is nothing");
    assert_eq!(
        ident("\u{414}\u{432}\u{43e}\u{440}"),
        "",
        "an alphabet with no place in an id is nothing"
    );
    assert_eq!(ident("x"), "x", "too short is the check's business, not this one's");
    assert_eq!(ident(&"a".repeat(40)).len(), ID_LONGEST, "cut to the longest");
    assert_eq!(
        ident(&format!("{} b", "a".repeat(31))),
        "a".repeat(31),
        "and trimmed at the end once it is cut"
    );
}

#[test]
fn a_letter_that_lowers_to_several_is_all_of_them() {
    // the Kelvin sign lowers to a plain k, a dotted capital I to an i and a mark
    assert_eq!(ident("\u{212a}ey"), "key");
    assert_eq!(ident("\u{130}x"), "i_x");
}

#[test]
fn the_id_follows_the_name_until_it_is_typed_by_hand() {
    let mut wizard = Wizard::new("/work", &taken(&[]), false);

    assert_eq!(wizard.name, "My Project");
    assert_eq!(wizard.id, "my_project");

    wizard.name = "The Yard".to_owned();
    wizard.named();

    assert_eq!(wizard.id, "the_yard", "followed");

    wizard.id = "yard".to_owned();
    wizard.id_edited = true;
    wizard.name = "The Yard Again".to_owned();
    wizard.named();

    assert_eq!(wizard.id, "yard", "and left alone once typed");
}

#[test]
fn typing_in_the_form_is_following_and_stopping_to_follow() {
    let mut wizard = Wizard::new("/work", &taken(&[]), false);

    wizard.enter_name("The Yard");
    assert_eq!((wizard.name.as_str(), wizard.id.as_str()), ("The Yard", "the_yard"));

    wizard.enter_id("yard");
    wizard.enter_name("Elsewhere");
    assert_eq!((wizard.name.as_str(), wizard.id.as_str()), ("Elsewhere", "yard"));
}

#[test]
fn the_default_name_steps_past_a_folder_that_is_taken() {
    assert_eq!(unused_name(&taken(&[])), "My Project");
    assert_eq!(unused_name(&taken(&["my_project"])), "My Project 2");
    assert_eq!(unused_name(&taken(&["my_project", "my_project_2"])), "My Project 3");
}

#[test]
fn the_check_says_what_stops_the_form() {
    let mut wizard = Wizard::new("/work", &taken(&[]), false);

    assert_eq!(wizard.check(false).expect("fine as it starts"), "/work/my_project");

    wizard.name = " ".to_owned();
    assert!(wizard.check(false).expect_err("no name").contains("name"));

    wizard.name = "Yard".to_owned();
    wizard.id = "Y".to_owned();
    assert!(wizard.check(false).expect_err("a bad id").contains("id"));

    wizard.id = "yard".to_owned();
    wizard.location = String::new();
    assert!(wizard.check(false).expect_err("nowhere").contains("somewhere"));

    wizard.location = "/work".to_owned();
    assert!(wizard.check(true).expect_err("taken").contains("already exists"));
}

#[test]
fn creating_writes_the_project_and_the_two_git_files_and_nothing_starts_git() {
    let mut wizard = Wizard::new("/work", &taken(&[]), false);
    wizard.name = "The Yard".to_owned();
    wizard.named();

    let plan = wizard.create(false).expect("created");

    assert_eq!(plan.target, "/work/the_yard");
    assert_eq!(plan.name, "The Yard");
    assert_eq!(plan.id, "the_yard");
    assert!(plan.vcs_files);
    assert!(!plan.git_init, "git init was not asked for");

    let written = write_vcs_files(false, false);

    assert_eq!(written.len(), 2);
    assert_eq!((written[0].name, written[0].text), (".gitignore", GITIGNORE));
    assert_eq!((written[1].name, written[1].text), (".gitattributes", GITATTRIBUTES));
    assert!(wizard.create(true).expect_err("not twice").contains("already exists"));
}

#[test]
fn the_two_git_files_are_left_alone_when_the_template_brought_its_own() {
    let written = write_vcs_files(true, false);

    assert_eq!(written.len(), 1);
    assert_eq!(
        (written[0].name, written[0].text),
        (".gitattributes", GITATTRIBUTES),
        "and the one it did not bring is written"
    );
    assert!(write_vcs_files(true, true).is_empty());
}

#[test]
fn git_is_found_on_a_developers_machine_and_starts_a_repository_when_asked() {
    let version = git_version(true, "git version 2.43.0\n").expect("git is on the path");

    assert!(version.starts_with("git version"), "{version}");
    assert_eq!(version, "git version 2.43.0");
    assert_eq!(git_version(false, "git version 2.43.0"), None);

    let mut wizard = Wizard::new("/work", &taken(&[]), true);
    wizard.vcs_files = false;

    assert!(wizard.git_init, "on by default when git is there");

    let plan = wizard.create(false).expect("created");

    assert!(plan.git_init, "a repository");
    assert!(!plan.vcs_files, "and no files, because they were not asked for");
}

#[test]
fn an_id_is_two_letters_or_more_and_all_of_them_lowercase() {
    assert!(valid_id("yard"));
    assert!(valid_id("my_project_2"));
    assert!(!valid_id("Y"));
    assert!(!valid_id("Yard"));
    assert!(!valid_id("y"));
    assert!(!valid_id(""));
    assert!(!valid_id(&"a".repeat(ID_LONGEST + 1)));
}
