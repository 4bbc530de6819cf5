use colby_editor::launcher::template::{
    copying, is_text, Candidate, Copying, Template, TemplateError, Words, FILE,
};

/// The text of a template's file.
fn marker(name: &str, order: u64) -> String {
    format!(r#"{{ "title": "{name}", "description": "a {name}", "order": {order} }}"#)
}

/// Where a file of a template's own directory lands, and whether its text is
/// filled in.
fn landed(name: &str, words: &Words) -> Option<(String, bool)> {
    match copying(name, false, true, words) {
        Copying::Text(name) => Some((name, true)),
        Copying::Bytes(name) => Some((name, false)),
        _ => None,
    }
}

#[test]
fn a_template_is_copied_with_the_words_filled_in_and_a_binary_left_alone() {
    let template = Template::read("/templates/plain", &marker("plain", 0)).expect("a template");
    let words = template
        .apply("/work/yard", false, "yard", "The Yard", "0.9.0")
        .expect("copied");

    assert_eq!(landed("colby.project", &words), Some(("colby.project".to_owned(), true)));
    assert_eq!(
        words.fill(
            r#"{ "schema": 1, "engine": "$engine", "id": "$id", "name": "$name", "game": "game" }"#
        ),
        r#"{ "schema": 1, "engine": "0.9.0", "id": "yard", "name": "The Yard", "game": "game" }"#
    );
    assert!(matches!(copying("game", true, true, &words), Copying::Dir(name) if name == "game"));
    assert!(matches!(
        copying("Cargo.toml", false, false, &words),
        Copying::Text(name) if name == "Cargo.toml"
    ));
    assert_eq!(
        words.fill("[package]\nname = \"$id_game\"\n"),
        "[package]\nname = \"yard_game\"\n"
    );
    assert_eq!(landed("$id.txt", &words), Some(("yard.txt".to_owned(), true)));
    assert_eq!(words.fill("$name\n"), "The Yard\n");
    assert_eq!(
        landed("picture.png", &words),
        Some(("picture.png".to_owned(), false)),
        "a picture is bytes, whatever it happens to contain"
    );
    assert_eq!(
        landed(".gitignore", &words),
        Some((".gitignore".to_owned(), true)),
        "a dotfile is text without an extension to say so"
    );
    assert_eq!(words.fill("$id/\n"), "yard/\n");
    assert!(
        matches!(copying(FILE, false, true, &words), Copying::Skip),
        "the marker is the template's, not the project's"
    );
    assert!(
        matches!(copying(FILE, false, false, &words), Copying::Text(_)),
        "and only at its root"
    );
}

#[test]
fn a_target_that_is_already_there_is_refused_untouched() {
    let template = Template::read("/templates/plain", &marker("plain", 0)).expect("a template");
    let text = template
        .apply("/work/taken", true, "taken", "Taken", "0.1.0")
        .expect_err("refused");

    assert!(text.contains("already exists"), "{text}");
}

#[test]
fn templates_are_found_in_order_and_a_directory_without_the_file_is_not_one() {
    let found = vec![
        Candidate { dir: "/templates/second".to_owned(), text: marker("second", 5) },
        Candidate { dir: "/templates/first".to_owned(), text: marker("first", 1) },
        Candidate { dir: "/templates/also_first".to_owned(), text: marker("also_first", 1) },
        Candidate { dir: "/templates/broken".to_owned(), text: "{ not json".to_owned() },
    ];
    let titles: Vec<String> = Template::find(&found)
        .into_iter()
        .map(|template| template.title)
        .collect();

    assert_eq!(titles, ["also_first", "first", "second"], "by order, then by title");
    assert!(Template::find(&Vec::new()).is_empty(), "no directory, no templates");
}

#[test]
fn a_file_this_build_does_not_know_and_a_template_with_no_title_are_refused() {
    let text = Template::read("/odd", r#"{ "title": "x", "icon": "star" }"#)
        .expect_err("refused")
        .words();

    assert!(text.contains("icon"), "it says which: {text}");

    let text = Template::read("/odd", r#"{ "description": "no title" }"#)
        .expect_err("refused")
        .words();

    assert!(text.contains("title"), "{text}");
}

#[test]
fn every_refusal_of_a_template_is_told_apart() {
    let refused = |text: &str| Template::read("/odd", text).expect_err("refused");

    assert!(matches!(refused("{ not json"), TemplateError::NotJson));
    assert!(matches!(refused(r#"{ "icon": 1 }"#), TemplateError::Field(name) if name == "icon"));
    assert!(matches!(refused("{}"), TemplateError::Title));
    assert!(matches!(refused(r#"{ "title": "" }"#), TemplateError::Title));
    assert!(matches!(refused(r#"{ "title": 4 }"#), TemplateError::Title));
}

#[test]
fn what_a_template_does_not_say_is_nothing() {
    let template = Template::read("/templates/tiny", r#"{ "title": "Tiny" }"#).expect("a template");

    assert_eq!(
        template,
        Template {
            dir: "/templates/tiny".to_owned(),
            title: "Tiny".to_owned(),
            description: String::new(),
            order: 0,
        }
    );
}

#[test]
fn a_text_with_no_word_in_it_is_left_alone() {
    let words = Words { id: "yard", name: "The Yard", engine: "0.9.0" };

    assert_eq!(words.fill("nothing to fill, and a lone $"), "nothing to fill, and a lone $");
    assert_eq!(words.fill("$id$id"), "yardyard");
    assert_eq!(words.fill("$engine of $name"), "0.9.0 of The Yard");
}

#[test]
fn a_word_that_brings_the_next_word_stays_as_it_was_said() {
    let words = Words { id: "a", name: "$engine", engine: "1" };

    assert_eq!(words.fill("$id $name"), "a $engine", "what is filled in is not read again");
    assert_eq!(words.fill("$id$engine$name"), "a1$engine");
    assert_eq!(words.fill("nothing to say"), "nothing to say");
}

#[test]
fn what_is_text_is_said_by_the_extension_or_the_name() {
    for name in ["a.rs", "b.scene", "x/c.toml", ".gitignore", "d/.editorconfig", "e.f.md"] {
        assert!(is_text(name), "{name}");
    }
    for name in ["a.png", "b", "rs", ".rs", "c.RS", "d.toml.bin"] {
        assert!(!is_text(name), "{name}");
    }
}
