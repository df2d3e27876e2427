use letur_project::document::{
    anchors_in, asset_bytes, beside, candidates, creatable, create_file, discover_main, files_under,
    kind_of, listed, merge, not_a_file, read_assets_with, read_document, read_sections_with,
    remove_file, render_project, render_with, spell, supply, title, under, urls_of, Anchor, Asset,
    Compiled, Entry, Image, Kind, Named, Pane, Placed, Render, Source, Unread,
};
use letur_project::files::MemFiles;
use letur_project::remote::Fetched;

fn files_of(pairs: &[(&str, &[u8])]) -> MemFiles {
    MemFiles::new(
        pairs
            .iter()
            .map(|(path, bytes)| (path.to_string(), bytes.to_vec()))
            .collect(),
    )
}

fn images() -> Vec<String> {
    ["png", "svg", "jpg", "pdf"].iter().map(|e| e.to_string()).collect()
}

/// The sections a master names with `[](path)` on a line of its own, which
/// is all a test needs of the engine's reading of the marker.
fn markers(markdown: &str) -> Vec<Named> {
    markdown
        .lines()
        .enumerate()
        .filter_map(|(at, line)| {
            let line = line.trim();
            line.strip_prefix("[](")
                .and_then(|rest| rest.strip_suffix(')'))
                .map(|path| Named {
                    path: path.to_string(),
                    location: format!("at line {}", at + 1),
                })
        })
        .collect()
}

/// A stand-in typesetter: the bytes are the text and every asset it was
/// handed, so two compiles that read the same things make the same bytes.
fn typeset(markdown: &str, assets: &[Asset]) -> Result<Compiled, Unread> {
    if markdown.contains("<div>") {
        return Err(Unread {
            message: "raw HTML is outside the dialect".to_string(),
            url: None,
        });
    }
    let mut pdf = markdown.as_bytes().to_vec();
    for asset in assets {
        pdf.extend_from_slice(asset.path.as_bytes());
        pdf.extend_from_slice(&asset.bytes);
    }
    Ok(Compiled { pdf, placed: Vec::new() })
}

fn compiled(files: &MemFiles, main: &str, edited: &str, buffer: &str) -> Render {
    let input = render_project(files, main, edited, buffer).expect("the master would not read");
    let source = Source { files, edited: edited.to_string(), buffer };
    let named = markers(&input.markdown);
    let sections = read_sections_with(&named, &input.directory, &source);
    let images: Result<Vec<Image>, String> = Ok(Vec::new());
    let bibliography: Result<Option<Named>, String> = Ok(None);
    let outcome = supply(sections, &images, &bibliography, &input.directory, &Fetched::new(), &source)
        .and_then(|assets| typeset(&input.markdown, &assets));
    let paths = named.iter().map(|n| n.path.clone()).collect();
    render_with(paths, &images, &bibliography, outcome, input.pane())
}

#[test]
fn the_title_is_the_documents_file_name() {
    assert_eq!(title("/tmp/notes/paper.md"), "paper.md");
}

#[test]
fn a_title_with_no_file_name_is_the_whole_path() {
    assert_eq!(title("/"), "/");
    assert_eq!(title("notes/.."), "notes/..");
    assert_eq!(title("notes/paper.md/"), "paper.md");
}

#[test]
fn a_section_is_named_beside_the_master_that_reads_it() {
    assert_eq!(beside("book.md", "sections/text.md"), "sections/text.md");
    assert_eq!(beside("parts/book.md", "text.md"), "parts/text.md");
    assert_eq!(beside("parts/book.md", "../shared/text.md"), "shared/text.md");
}

#[test]
fn a_file_in_the_pane_is_named_the_way_the_master_would_name_it() {
    let root = "/p";

    assert_eq!(
        under(&format!("{root}/book.md"), &format!("{root}/sections/text.md")).as_deref(),
        Some("sections/text.md")
    );
    assert_eq!(
        under(&format!("{root}/parts/book.md"), &format!("{root}/parts/text.md")).as_deref(),
        Some("text.md"),
        "a master in a subdirectory names its neighbour by its bare name"
    );
    assert_eq!(
        under(&format!("{root}/parts/book.md"), &format!("{root}/README.md")),
        None,
        "a file the master's own directory does not reach has no such spelling"
    );
    assert_eq!(
        spell(root, &format!("{root}/sections/text.md")).as_deref(),
        Some("sections/text.md")
    );
    assert_eq!(spell(root, root), None, "the root is not under itself");
}

#[test]
fn the_panes_buffer_stands_in_for_the_file_it_is_holding() {
    let mut files = files_of(&[
        ("book.md", b"# Book\n\n[](sections/one.md)\n"),
        ("sections/one.md", b"# On disk\n\nThe disk's own text.\n"),
    ]);

    let buffer = "# In the pane\n\nText nobody has saved.\n";
    let unsaved = compiled(&files, "book.md", "sections/one.md", buffer);

    files.write("sections/one.md", buffer.as_bytes()).unwrap();
    let master = read_document(&files, "book.md").unwrap();
    let saved = compiled(&files, "book.md", "book.md", &master);

    assert_eq!(
        unsaved.pdf.expect("the unsaved compile failed"),
        saved.pdf.expect("the saved compile failed"),
        "the buffer reached the compile, or it did not"
    );
}

#[test]
fn a_main_that_will_not_read_says_so_in_the_terminals_own_words() {
    let files = files_of(&[("held.md", b"# Held\n"), ("binary.md", &[0xff, 0xfe, 0x00])]);

    assert_eq!(
        render_project(&files, "nothing.md", "held.md", "# Held\n").err(),
        read_document(&files, "nothing.md").err()
    );
    assert_eq!(
        render_project(&files, "binary.md", "held.md", "# Held\n").err(),
        read_document(&files, "binary.md").err()
    );

    assert!(
        render_project(&files, "nothing.md", "nothing.md", "# Text the disk never held\n").is_ok(),
        "the pane holds the main, so the store is not consulted at all"
    );
}

#[test]
fn a_main_that_will_not_read_is_named_with_the_reason() {
    let files = files_of(&[("binary.md", &[0xff, 0xfe, 0x00])]);
    assert_eq!(
        read_document(&files, "nothing.md").err().as_deref(),
        Some("cannot read nothing.md: No such file or directory")
    );
    assert_eq!(
        read_document(&files, "binary.md").err().as_deref(),
        Some("cannot read binary.md: stream did not contain valid UTF-8")
    );
}

#[test]
fn a_figure_outside_the_project_is_refused_by_name() {
    let files = files_of(&[("book.md", b"# Book\n"), ("figure.png", b"png")]);

    for path in ["/tmp/escape.png", "outside/decoy.png"] {
        assert_eq!(
            asset_bytes(&files, path).err().as_deref(),
            Some(format!("{path} is not a file in this project").as_str()),
            "{path} was not refused in the sentence the other two refusals use"
        );
    }
    assert_eq!(asset_bytes(&files, "figure.png"), Ok(b"png".to_vec()));
}

#[test]
fn a_create_through_a_link_out_of_the_project_is_refused() {
    let mut files = files_of(&[("book.md", b"# Book\n")]);

    assert_eq!(
        create_file(&mut files, "outside/escape.md").err().as_deref(),
        Some("outside/escape.md would land outside this project")
    );
    assert!(!files.holds("outside/escape.md"), "a refused create wrote something");
}

#[test]
fn a_create_puts_one_empty_file_in_the_project() {
    let mut files = files_of(&[("book.md", b"# Book\n"), ("sections/one.md", b"# One\n")]);

    assert_eq!(create_file(&mut files, "sections/two.md"), Ok(()));
    assert_eq!(read_document(&files, "sections/two.md").as_deref(), Ok(""));
    assert_eq!(
        create_file(&mut files, "book.md").err().as_deref(),
        Some("book.md already exists")
    );
    assert_eq!(
        create_file(&mut files, "figure.png").err().as_deref(),
        Some(
            "figure.png is neither markdown nor a bibliography: a new file is a .md, .bib, .yml or .yaml"
        )
    );
    assert!(creatable("refs.BIB").is_ok());
}

#[test]
fn a_remove_takes_one_file_and_refuses_what_is_not_there() {
    let mut files = files_of(&[("book.md", b"# Book\n"), ("notes.md", b"n")]);

    assert_eq!(remove_file(&mut files, "notes.md"), Ok(()));
    assert!(!files.holds("notes.md"));
    assert_eq!(
        remove_file(&mut files, "notes.md").err().as_deref(),
        Some("notes.md is not there")
    );
    assert_eq!(
        remove_file(&mut files, "/etc/passwd").err().as_deref(),
        Some("/etc/passwd is outside this project")
    );
    assert_eq!(not_a_file("x.md"), "x.md is not a file in this project");
}

#[test]
fn each_channel_is_matched_the_way_it_reads() {
    let images = images();
    assert_eq!(kind_of("book.MD", &images), Some(Kind::Markdown));
    assert_eq!(kind_of("refs.yaml", &images), Some(Kind::Bibliography));
    assert_eq!(kind_of("figure.png", &images), Some(Kind::Image));
    assert_eq!(kind_of("figure.PNG", &images), None, "an image extension is matched exactly");
    assert_eq!(kind_of("notes.txt", &images), None);
    assert_eq!(kind_of("Makefile", &images), None);
}

#[test]
fn the_listing_is_files_first_then_folders_each_in_byte_order() {
    let files = files_of(&[
        ("sections/b.md", b""),
        ("book.md", b""),
        ("a/z.png", b""),
        ("notes.txt", b""),
        ("Zed.md", b""),
    ]);
    let listed: Vec<(String, Kind)> = files_under(&files, &images())
        .into_iter()
        .map(|entry| (entry.path, entry.kind))
        .collect();
    assert_eq!(
        listed,
        vec![
            ("Zed.md".to_string(), Kind::Markdown),
            ("book.md".to_string(), Kind::Markdown),
            ("a/z.png".to_string(), Kind::Image),
            ("sections/b.md".to_string(), Kind::Markdown),
        ]
    );
}

#[test]
fn a_named_section_the_disk_lacks_is_listed_missing_in_its_place() {
    let found = vec![
        Entry { path: "book.md".to_string(), kind: Kind::Markdown, missing: false },
        Entry { path: "sections/a.md".to_string(), kind: Kind::Markdown, missing: false },
    ];
    let merged = merge(
        found,
        &["sections/a.md".to_string(), "sections/b.md".to_string(), "intro.md".to_string()],
    );
    let rows: Vec<(&str, bool)> = merged.iter().map(|e| (e.path.as_str(), e.missing)).collect();
    assert_eq!(
        rows,
        vec![("book.md", false), ("intro.md", true), ("sections/a.md", false), ("sections/b.md", true)]
    );
}

#[test]
fn the_main_is_the_one_master_or_the_first_of_several() {
    let panel = files_of(&[("book.md", b""), ("notes.md", b""), ("sections/text.md", b"")]);
    assert_eq!(candidates(&panel), vec!["book.md".to_string(), "notes.md".to_string()]);

    let one = vec!["book.md".to_string()];
    assert_eq!(discover_main(&one, "sections/text.md"), "book.md");
    assert_eq!(discover_main(&[], "orphan.md"), "orphan.md");
    let pair = vec!["alpha.md".to_string(), "beta.md".to_string()];
    assert_eq!(discover_main(&pair, "note.md"), "alpha.md");
    assert_eq!(discover_main(&pair, "beta.md"), "beta.md");
}

fn source<'a>(files: &'a MemFiles, buffer: &'a str) -> Source<'a> {
    Source { files, edited: "book.md".to_string(), buffer }
}

#[test]
fn a_missing_section_names_the_path_the_line_and_the_reason() {
    let files = files_of(&[("multi_file.md", b"# Multi\n")]);
    let named = vec![Named { path: "sections/introduction.md".to_string(), location: "at line 7".to_string() }];
    let error = read_sections_with(&named, "", &source(&files, "# Multi\n")).unwrap_err();
    assert!(error.contains("sections/introduction.md"), "{error}");
    assert!(error.contains("for the section"), "{error}");
    assert!(error.contains("at line 7"), "{error}");
    assert_eq!(error, "cannot read sections/introduction.md for the section at line 7: No such file or directory");
}

#[test]
fn a_path_named_twice_is_read_once() {
    let files = files_of(&[("book.md", b"# Book\n"), ("dot.png", b"png")]);
    let images: Result<Vec<Image>, String> = Ok(vec![
        Image { path: "dot.png".to_string(), location: "at line 1".to_string(), url: false },
        Image { path: "dot.png".to_string(), location: "at line 5".to_string(), url: false },
    ]);
    let bibliography: Result<Option<Named>, String> = Ok(None);
    let assets = read_assets_with(&images, &bibliography, Vec::new(), "", &Fetched::new(), &source(&files, ""))
        .expect("the assets would not read");
    assert_eq!(assets.len(), 1);
    assert_eq!(assets[0].path, "dot.png");
    assert_eq!(assets[0].bytes, b"png".to_vec());
}

#[test]
fn a_url_image_is_supplied_fetched_refused_or_left_for_the_engine() {
    let files = files_of(&[("book.md", b"# Book\n")]);
    let url = "https://on.example/a.png".to_string();
    let images: Result<Vec<Image>, String> = Ok(vec![Image {
        path: url.clone(),
        location: "at line 2".to_string(),
        url: true,
    }]);
    let none: Result<Option<Named>, String> = Ok(None);

    let fetched: Fetched = vec![(url.clone(), Ok(vec![7, 8]))];
    let supplied = read_assets_with(&images, &none, Vec::new(), "", &fetched, &source(&files, "")).unwrap();
    assert_eq!(supplied.len(), 1);
    assert_eq!(supplied[0].path, url);
    assert_eq!(supplied[0].bytes, vec![7, 8]);

    let failed: Fetched = vec![(url.clone(), Err("404 Not Found".to_string()))];
    let refused = read_assets_with(&images, &none, Vec::new(), "", &failed, &source(&files, "")).unwrap_err();
    assert_eq!(
        refused.message,
        "cannot fetch https://on.example/a.png for the image at line 2: 404 Not Found"
    );
    assert_eq!(refused.url.as_deref(), Some(url.as_str()));

    let left = read_assets_with(&images, &none, Vec::new(), "", &Fetched::new(), &source(&files, "")).unwrap();
    assert!(left.is_empty(), "a URL nothing fetched is left for the engine to refuse");
}

#[test]
fn a_missing_bibliography_names_the_path_the_line_and_the_reason() {
    let files = files_of(&[("book.md", b"# Book\n")]);
    let images: Result<Vec<Image>, String> = Ok(Vec::new());
    let bibliography = Ok(Some(Named { path: "refs.bib".to_string(), location: "at line 1".to_string() }));
    let refused = read_assets_with(&images, &bibliography, Vec::new(), "", &Fetched::new(), &source(&files, ""))
        .unwrap_err();
    assert_eq!(
        refused.message,
        "cannot read refs.bib for the bibliography at line 1: No such file or directory"
    );
    assert_eq!(refused.url, None);
}

#[test]
fn the_lists_survive_a_failed_compile_and_the_urls_are_named_once() {
    let images: Result<Vec<Image>, String> = Ok(vec![
        Image { path: "https://a.example/1.png".to_string(), location: "l1".to_string(), url: true },
        Image { path: "figure.png".to_string(), location: "l2".to_string(), url: false },
        Image { path: "https://a.example/1.png".to_string(), location: "l3".to_string(), url: true },
    ]);
    let bibliography = Ok(Some(Named { path: "refs.bib".to_string(), location: "l0".to_string() }));
    let render = render_with(
        vec!["sections/one.md".to_string()],
        &images,
        &bibliography,
        Err(Unread { message: "no".to_string(), url: Some("https://a.example/1.png".to_string()) }),
        Pane::Master,
    );
    assert_eq!(
        render.assets,
        Some(vec!["sections/one.md".to_string(), "refs.bib".to_string(), "figure.png".to_string()])
    );
    assert_eq!(render.urls, Some(vec!["https://a.example/1.png".to_string()]));
    assert_eq!(render.pdf, Err("no".to_string()));
    assert_eq!(render.refused.as_deref(), Some("https://a.example/1.png"));
    assert!(render.anchors.is_empty());

    let unlisted: Result<Vec<Image>, String> = Err("out of the dialect".to_string());
    let named = render_with(vec!["a.md".to_string()], &unlisted, &Ok(None), Err(Unread { message: "x".to_string(), url: None }), Pane::Away);
    assert_eq!(named.assets, Some(vec!["a.md".to_string()]));
    assert_eq!(named.urls, None);
    assert_eq!(listed(&Vec::new(), &unlisted, &Ok(None)), None);
    assert_eq!(urls_of(&Vec::new()), Vec::<String>::new());
}

#[test]
fn the_anchors_are_the_headings_of_the_file_the_pane_is_holding() {
    let placed = vec![
        Placed { file: None, line: 1, page: 1 },
        Placed { file: Some("sections/one.md".to_string()), line: 2, page: 3 },
    ];
    let lines = |pane| anchors_in(pane, &placed).iter().map(|a| a.line).collect::<Vec<usize>>();

    assert_eq!(lines(Pane::Master), [1], "the master's own heading");
    assert_eq!(lines(Pane::Beside("sections/one.md")), [2], "the section's own heading");
    assert!(lines(Pane::Away).is_empty(), "no heading is a number about a file the master does not reach");
    assert_eq!(anchors_in(Pane::Beside("sections/one.md"), &placed), vec![Anchor { line: 2, page: 3 }]);
}

#[test]
fn under_runs_beside_backwards() {
    for (main, named) in [
        ("book.md", "sections/text.md"),
        ("parts/book.md", "text.md"),
        ("parts/ch1/book.md", "figures/a.png"),
    ] {
        let spelled = beside(main, named);
        assert_eq!(under(main, &spelled).as_deref(), Some(named), "{main} naming {named}");
    }
}

#[test]
fn the_panel_is_the_project_listing_with_what_it_cannot_read_left_out() {
    let files = files_of(&[("b.md", b""), ("a.bin", b""), ("a.md", b""), ("d/c.png", b"")]);
    let paths: Vec<String> = files_under(&files, &images()).into_iter().map(|e| e.path).collect();
    let expected: Vec<String> = files
        .list()
        .into_iter()
        .filter(|p| kind_of(p, &images()).is_some())
        .collect();
    assert_eq!(paths, expected);
    assert_eq!(paths, vec!["a.md".to_string(), "b.md".to_string(), "d/c.png".to_string()]);
}

#[test]
fn a_compile_reads_what_a_compile_after_saving_would() {
    let files = files_of(&[("book.md", b"# Book\n"), ("ch.md", b"# Old\n")]);
    let mut saved = files_of(&[("book.md", b"# Book\n"), ("ch.md", b"# Old\n")]);
    saved.write("ch.md", "# New\n".as_bytes()).unwrap();
    let through = Source { files: &files, edited: "ch.md".to_string(), buffer: "# New\n" };
    let main_text = read_document(&saved, "book.md").unwrap();
    let after = Source { files: &saved, edited: "book.md".to_string(), buffer: &main_text };
    assert_eq!(through.read("ch.md"), after.read("ch.md"));
    assert_eq!(through.read("book.md"), after.read("book.md"));
    assert_eq!(
        render_project(&files, "book.md", "ch.md", "# New\n").unwrap().markdown,
        render_project(&saved, "book.md", "book.md", &main_text).unwrap().markdown
    );
}

#[test]
fn the_buffer_stands_in_for_no_path_outside_the_project() {
    let files = files_of(&[("book.md", b"# Book\n")]);
    let outside = Source { files: &files, edited: "/elsewhere/book.md".to_string(), buffer: "# Mine\n" };
    assert!(outside.read("/other/file.md").is_err());
    assert!(outside.read("../climbs.md").is_err());
    assert_eq!(outside.read("book.md"), Ok(b"# Book\n".to_vec()));
}
