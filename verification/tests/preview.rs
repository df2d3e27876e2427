use letur_project::document::{
    create_file, asset_bytes, read_document, read_sections_with, remove_file, render_with, supply, Asset,
    Compiled, Image, Named, Placed, Render, Unread,
};
use letur_project::files::MemFiles;
use letur_project::preview::{
    external_change, Appearance, Asked, Changed, Compile, External, Preview, State, Trashed, DIVERGED,
    SAVED, SWITCHING, TRASHING,
};

/// The sections a master names with `[](path)` on a line of its own.
fn markers(markdown: &str) -> Vec<Named> {
    markdown
        .lines()
        .enumerate()
        .filter_map(|(at, line)| {
            line.trim()
                .strip_prefix("[](")
                .and_then(|rest| rest.strip_suffix(')'))
                .map(|path| Named { path: path.to_string(), location: format!("at line {}", at + 1) })
        })
        .collect()
}

/// A stand-in typesetter: raw HTML is refused, and the bytes are the text and
/// every asset it was handed; each heading of the master lands on page 1.
fn typeset(markdown: &str, assets: &[Asset]) -> Result<Compiled, Unread> {
    if markdown.contains("<div>") {
        return Err(Unread { message: "raw HTML is outside the dialect".to_string(), url: None });
    }
    let mut pdf = markdown.as_bytes().to_vec();
    for asset in assets {
        pdf.extend_from_slice(&asset.bytes);
    }
    let placed = markdown
        .lines()
        .enumerate()
        .filter(|(_, line)| line.starts_with('#'))
        .map(|(at, _)| Placed { file: None, line: at + 1, page: 1 })
        .collect();
    Ok(Compiled { pdf, placed })
}

fn render(files: &MemFiles, plan: &Compile) -> Result<Render, String> {
    let input = plan.input(files)?;
    let source = plan.source(files);
    let named = markers(&input.markdown);
    let sections = read_sections_with(&named, &input.directory, &source);
    let images: Result<Vec<Image>, String> = Ok(Vec::new());
    let bibliography: Result<Option<Named>, String> = Ok(None);
    let outcome = supply(sections, &images, &bibliography, &input.directory, plan.fetched(), &source)
        .and_then(|assets| typeset(&input.markdown, &assets));
    let paths = named.iter().map(|n| n.path.clone()).collect();
    Ok(render_with(paths, &images, &bibliography, outcome, input.pane()))
}

/// The compile the pane is due, run and taken in.
fn compile(preview: &mut Preview) {
    let Some(plan) = preview.compile() else {
        return;
    };
    let outcome = render(preview.files().unwrap(), &plan);
    preview.absorb(&plan, outcome, 0);
}

fn opened() -> Preview {
    let files = MemFiles::new(vec![
        ("book.md".to_string(), b"# Book\n\n[](sections/one.md)\n".to_vec()),
        ("sections/one.md".to_string(), b"# One\n\nText.\n".to_vec()),
    ]);
    let mut preview = Preview::default();
    preview.open(files, "book.md".to_string(), "book.md".to_string(), Vec::new());
    preview.load();
    assert!(preview.due(), "a load falls due for a compile");
    compile(&mut preview);
    assert_eq!(preview.state(), State::Current, "{:?}", preview.error());
    preview
}

fn read(preview: &Preview, path: &str) -> String {
    read_document(preview.files().unwrap(), path).unwrap()
}

#[test]
fn a_switch_over_unsaved_work_is_refused_in_switching_s_words() {
    let mut preview = opened();
    preview.edit("# Book, unsaved\n".to_string());

    assert_eq!(preview.set_edited("sections/one.md"), Ok(Asked::Refused));
    assert_eq!(preview.edited(), Some("book.md"), "the pane moved");
    assert_eq!(preview.status().divergence.as_deref(), Some(SWITCHING));

    assert_eq!(preview.ask_main("sections/one.md"), Ok(Asked::Refused));

    preview.discard();
    assert_eq!(preview.status().divergence, None);
    assert_eq!(preview.set_edited("sections/one.md"), Ok(Asked::Granted));
    assert_eq!(preview.edited(), Some("sections/one.md"));
    assert_eq!(preview.text(), "# One\n\nText.\n");
}

#[test]
fn a_delete_of_the_file_in_the_pane_over_unsaved_work_is_refused_in_trashing_s_words() {
    let mut preview = opened();
    assert_eq!(preview.set_edited("sections/one.md"), Ok(Asked::Granted));
    preview.edit("# One, unsaved\n".to_string());

    assert_eq!(preview.trash("sections/one.md"), Ok(Trashed::Refused));
    assert_eq!(preview.status().divergence.as_deref(), Some(TRASHING));
    assert!(preview.files().unwrap().holds("sections/one.md"), "the file went");

    preview.save().unwrap();
    assert_eq!(preview.trash("sections/one.md"), Ok(Trashed::Removed { holding: true }));
    assert_eq!(preview.edited(), Some("book.md"));
    assert!(!preview.files().unwrap().holds("sections/one.md"));
    let row = preview
        .status()
        .entries
        .into_iter()
        .find(|entry| entry.path == "sections/one.md")
        .expect("the master's missing section has no row");
    assert!(row.missing);

    assert_eq!(
        preview.trash("book.md"),
        Err("book.md is the file this project compiles. Set another file as main first.".to_string())
    );
}

#[test]
fn a_save_writes_the_buffer_and_answers_saved() {
    let mut preview = opened();
    preview.edit("# Book, kept\n\n[](sections/one.md)\n".to_string());

    assert_eq!(preview.save(), Ok(SAVED.to_string()));
    assert_eq!(read(&preview, "book.md"), "# Book, kept\n\n[](sections/one.md)\n");
    assert_eq!(read(&preview, "sections/one.md"), "# One\n\nText.\n");
    assert_eq!(preview.saved(), preview.text());

    assert_eq!(Preview::default().save(), Err("no document is open".to_string()));
}

#[test]
fn an_export_is_refused_in_one_of_two_sentences() {
    let empty = Preview::default();
    assert_eq!(empty.exportable().err().as_deref(), Some("no document is open"));
    assert!(empty.export_path().is_err());

    let mut preview = opened();
    assert_eq!(preview.export_path().as_deref(), Ok("book.pdf"));

    preview.edit("# Broken\n\n<div>raw HTML</div>\n".to_string());
    compile(&mut preview);
    assert_eq!(preview.state(), State::Stale);
    assert_eq!(
        preview.exportable().err().as_deref(),
        Some("the last compile failed, so the page is out of date")
    );
    assert!(preview.export_path().is_err());
}

#[test]
fn revision_rises_on_a_page_and_not_on_a_failure() {
    let mut preview = opened();
    let first = preview.revision();
    assert_eq!(first, 1, "the open's compile drew a page");

    preview.edit("# Broken\n\n<div>raw HTML</div>\n".to_string());
    compile(&mut preview);
    assert_eq!(preview.revision(), first, "a failed compile counted");
    assert!(preview.is_stale());

    preview.edit("# Fixed\n\nText.\n".to_string());
    compile(&mut preview);
    assert_eq!(preview.revision(), first + 1);
    assert_eq!(preview.status().time.as_deref(), Some("0 ms"), "the host timed it at nothing");
}

#[test]
fn a_path_that_climbs_out_of_the_project_is_refused() {
    let mut preview = opened();

    assert_eq!(
        preview.set_edited("../escape.md"),
        Err("../escape.md is not a file in this project".to_string())
    );
    assert_eq!(
        preview.ask_main("../escape.md"),
        Err("../escape.md is not a file in this project".to_string())
    );
    let files = preview.files_mut().unwrap();
    assert_eq!(
        asset_bytes(files, "../escape.png"),
        Err("../escape.png is not a file in this project".to_string())
    );
    assert_eq!(
        create_file(files, "../escape.md"),
        Err("../escape.md would land outside this project".to_string())
    );
    assert_eq!(
        create_file(files, "newdir/x.md"),
        Err("newdir/x.md would land outside this project".to_string()),
        "a folder is not created by a create"
    );
    assert_eq!(
        remove_file(files, "../escape.md"),
        Err("../escape.md is outside this project".to_string())
    );
}

#[test]
fn an_external_change_is_one_of_three() {
    assert_eq!(external_change("same", "same", "old"), External::Unchanged);
    assert_eq!(external_change("disk", "buffer", "buffer"), External::Taken);
    assert_eq!(external_change("disk", "buffer", "saved"), External::Diverged);
}

#[test]
fn the_apps_own_save_arrives_back_unchanged() {
    let mut preview = opened();
    preview.edit("# Book, saved\n".to_string());
    preview.save().unwrap();
    assert_eq!(preview.reload(), External::Unchanged);
    assert!(!preview.due(), "the app's own save compiles nothing a second time");
}

#[test]
fn a_change_on_disk_is_taken_over_a_clean_pane_and_named_over_a_dirty_one() {
    let mut preview = opened();
    preview.files_mut().unwrap().write("book.md", b"# Book, elsewhere\n").unwrap();
    assert_eq!(preview.reload(), External::Taken);
    assert_eq!(preview.text(), "# Book, elsewhere\n");
    assert!(preview.due());
    compile(&mut preview);

    preview.edit("# Mine\n".to_string());
    preview.files_mut().unwrap().write("book.md", b"# Theirs\n").unwrap();
    assert_eq!(preview.reload(), External::Diverged);
    assert_eq!(preview.text(), "# Mine\n", "the work is kept");
    assert_eq!(preview.status().divergence.as_deref(), Some(DIVERGED));
}

#[test]
fn an_open_discards_every_answer_in_flight() {
    let mut preview = opened();
    let plan = preview.compile().unwrap();
    let outcome = render(preview.files().unwrap(), &plan);

    let files = MemFiles::new(vec![("other.md".to_string(), b"# Other\n".to_vec())]);
    preview.open(files, "other.md".to_string(), "other.md".to_string(), Vec::new());
    assert_eq!(preview.landed(), preview.started());
    preview.absorb(&plan, outcome, 5);
    assert_eq!(preview.state(), State::Failed, "the orphan's page was taken");
    assert_eq!(preview.revision(), 0);
}

#[test]
fn an_older_answer_is_dropped_after_a_newer_one() {
    let mut preview = opened();
    preview.edit("# Book\n\nFirst.\n".to_string());
    let first = preview.compile().unwrap();
    let second = preview.compile().unwrap();
    assert!(second.serial() > first.serial());

    let answer = render(preview.files().unwrap(), &second);
    preview.absorb(&second, answer, 1);
    let revision = preview.revision();
    let late = render(preview.files().unwrap(), &first);
    preview.absorb(&first, late, 2);
    assert_eq!(preview.revision(), revision, "the older answer was taken");
    assert_eq!(preview.status().time.as_deref(), Some("1 ms"));
}

#[test]
fn an_answer_for_text_that_moved_on_is_dropped() {
    let mut preview = opened();
    let plan = preview.compile().unwrap();
    preview.edit("# Moved on\n".to_string());
    let outcome = render(preview.files().unwrap(), &plan);
    let revision = preview.revision();
    preview.absorb(&plan, outcome, 3);
    assert_eq!(preview.revision(), revision);
}

#[test]
fn a_save_as_inside_the_project_moves_the_pane_and_says_where() {
    let mut preview = opened();
    preview.edit("# Book, copied\n".to_string());
    let saved = preview.save_as("sections/two.md").unwrap();
    assert!(saved.moved);
    assert_eq!(saved.receipt, "saved as two.md in sections");
    assert_eq!(preview.edited(), Some("sections/two.md"));
    assert_eq!(preview.main(), Some("book.md"), "the main does not follow");
    assert_eq!(preview.saved(), preview.text());
    assert!(preview.due());
    assert!(preview.status().entries.iter().any(|e| e.path == "sections/two.md"));

    assert_eq!(
        preview.save_as("figure.png"),
        Err("figure.png is neither markdown nor a bibliography: a new file is a .md, .bib, .yml or .yaml".to_string())
    );
    assert_eq!(
        preview.save_as("/elsewhere/copy.md"),
        Err("cannot write /elsewhere/copy.md: outside this project".to_string())
    );
}

#[test]
fn an_event_takes_the_file_or_compiles_or_relists() {
    let mut preview = opened();
    preview.files_mut().unwrap().write("book.md", b"# Changed\n").unwrap();
    let taken = preview.on_change(Changed { edited: true, document: true, assets: false, tree: false });
    assert!(taken.announce);
    assert!(taken.compile.is_some(), "the file taken is compiled");
    assert_eq!(preview.text(), "# Changed\n");

    let named = preview.on_change(Changed { edited: false, document: false, assets: true, tree: false });
    assert!(named.announce && named.compile.is_some());

    let tree = preview.on_change(Changed { edited: false, document: false, assets: false, tree: true });
    assert!(tree.announce && tree.compile.is_none());

    let nothing = preview.on_change(Changed { edited: true, document: false, assets: false, tree: false });
    assert!(!nothing.announce && nothing.compile.is_none(), "the file says what the pane says");
}

#[test]
fn the_status_of_nothing_open_is_empty_and_untimed() {
    let status = Preview::default().status();
    assert_eq!(status.state, State::Empty);
    assert_eq!(status.time, None);
    assert!(!status.page);
    assert!(status.entries.is_empty());
    assert_eq!(status.appearance, Appearance::System);
    assert_eq!(Appearance::default(), Appearance::System);
}

#[test]
fn a_stale_status_names_the_error_and_keeps_the_page() {
    let mut preview = opened();
    let anchors = preview.anchors().to_vec();
    preview.edit("# Broken\n\n<div>raw HTML</div>\n".to_string());
    compile(&mut preview);
    let status = preview.status();
    assert_eq!(status.state, State::Stale);
    assert_eq!(status.error.as_deref(), Some("raw HTML is outside the dialect"));
    assert!(status.page);
    assert_eq!(status.anchors, anchors, "the anchors describe the page on screen");
}

#[test]
fn a_press_allows_the_sites_and_claims_each_url_once() {
    let mut preview = Preview::new(Vec::new(), true);
    let files = MemFiles::new(vec![("book.md".to_string(), b"# Book\n".to_vec())]);
    preview.open(files, "book.md".to_string(), "book.md".to_string(), Vec::new());
    preview.load();
    let plan = preview.compile().unwrap();
    let images: Result<Vec<Image>, String> = Ok(vec![Image {
        path: "https://on.example/a.png".to_string(),
        location: "at line 3".to_string(),
        url: true,
    }]);
    let rendered = render_with(
        Vec::new(),
        &images,
        &Ok(None),
        Err(Unread { message: "no image fetched".to_string(), url: Some("https://on.example/a.png".to_string()) }),
        letur_project::document::Pane::Master,
    );
    assert!(preview.absorb(&plan, Ok(rendered), 0).is_empty(), "nothing is fetched before the press");
    assert_eq!(
        preview.status().web.map(|line| line.sentence).as_deref(),
        Some("1 image on on.example is not fetched.")
    );

    let allowed = preview.widened();
    assert_eq!(allowed, vec!["on.example".to_string()]);
    assert_eq!(preview.allow(allowed), vec!["https://on.example/a.png".to_string()]);
    assert_eq!(preview.status().error, None, "the refusal of an image on its way is hidden");
    assert!(preview.begin("https://on.example/a.png"));
    preview.land("https://on.example/a.png", Ok(vec![1, 2]));
    assert_eq!(
        preview.status().web.map(|line| line.sentence).as_deref(),
        Some("Fetching 1 image from on.example…")
    );
}

#[test]
fn no_answer_lands_ahead_of_the_plans_made() {
    let mut preview = opened();
    for _ in 0..3 {
        preview.edit(format!("# Book\n\nRevision {}.\n", preview.revision()));
        compile(&mut preview);
        assert!(preview.landed() <= preview.started());
    }
    assert_eq!(preview.landed(), preview.started());
}

#[test]
fn the_next_save_goes_where_a_save_as_moved_the_pane() {
    let mut preview = opened();
    preview.edit("# Draft\n".to_string());
    preview.save_as("draft.md").unwrap();
    preview.edit("# Draft, again\n".to_string());
    assert_eq!(preview.save(), Ok(SAVED.to_string()));
    assert_eq!(read(&preview, "draft.md"), "# Draft, again\n");
    assert_eq!(read(&preview, "book.md"), "# Book\n\n[](sections/one.md)\n", "the master was written");
    assert_eq!(preview.main(), Some("book.md"));
}

#[test]
fn a_save_as_outside_the_project_keeps_the_work_unsaved() {
    let mut preview = opened();
    let on_disk = read(&preview, "book.md");
    preview.edit("# Mine\n".to_string());
    let saved = preview.saved_as("/elsewhere/copy.md", None).unwrap();
    assert!(!saved.moved);
    assert_eq!(saved.receipt, "saved as copy.md in /elsewhere");
    assert_eq!(preview.edited(), Some("book.md"), "the pane keeps its file");
    assert_eq!(preview.text(), "# Mine\n");
    assert_eq!(preview.saved(), on_disk, "the buffer is still dirty against the file");
    assert_ne!(preview.saved(), preview.text());
    assert_eq!(read(&preview, "book.md"), on_disk, "nothing in the project was written");
}

#[test]
fn a_save_as_the_disk_placed_inside_moves_the_pane() {
    let mut preview = opened();
    preview.edit("# Copied\n".to_string());
    let saved = preview.saved_as("sections/two.md", Some("sections/two.md".to_string())).unwrap();
    assert!(saved.moved);
    assert_eq!(saved.receipt, "saved as two.md in sections");
    assert_eq!(preview.edited(), Some("sections/two.md"));
    assert_eq!(read(&preview, "sections/two.md"), "# Copied\n");
    assert_eq!(preview.saved(), preview.text());
    assert!(preview.due());
    assert_eq!(
        Preview::default().saved_as("/elsewhere/copy.md", None),
        Err("no document is open".to_string())
    );
}

#[test]
fn a_time_is_shown_only_beside_a_page() {
    let preview = opened();
    let status = preview.status();
    assert!(status.page);
    assert_eq!(status.time.as_deref(), Some("0 ms"));

    let files = MemFiles::new(vec![("book.md".to_string(), b"<div>raw</div>\n".to_vec())]);
    let mut failing = Preview::default();
    failing.open(files, "book.md".to_string(), "book.md".to_string(), Vec::new());
    failing.load();
    compile(&mut failing);
    let status = failing.status();
    assert_eq!(status.state, State::Failed);
    assert!(!status.page);
    assert_eq!(status.time, None);
}
