use letur_project::remote::{fetched, host, status_refusal, too_large, Web, WebLine};

fn urls(named: &[&str]) -> Vec<String> {
    named.iter().map(|url| url.to_string()).collect()
}

/// A `Web` allowing these sites, with each URL brought where the case wants
/// it by the calls that put it there.
fn web(allowed: &[&str], states: &[(&str, &str)]) -> Web {
    let mut web = Web::default();
    web.install(allowed.iter().map(|site| site.to_string()).collect());
    for (url, stage) in states {
        match *stage {
            "waiting" => {
                web.claim(&urls(&[*url]), false);
            }
            "fetching" => {
                web.claim(&urls(&[*url]), false);
                web.begin(url, true);
            }
            "arrived" => web.land(url, Ok(Vec::new())),
            "failed" => {
                web.land(url, Err("503 Service Unavailable".to_string()));
                let (_, read) = web.finished();
                web.promote(&read);
            }
            other => panic!("no such stage: {other}"),
        }
    }
    web
}

fn said(line: Option<WebLine>) -> Option<(String, Option<String>)> {
    line.map(|line| (line.sentence, line.action))
}

#[test]
fn the_line_names_the_sites_not_allowed_first_and_says_nothing_while_waiting() {
    let allow = Some("Fetch images from the web".to_string());

    let one = urls(&["https://CDN.example.com/a.png"]);
    assert_eq!(
        said(web(&[], &[]).line(&one)),
        Some(("1 image on cdn.example.com is not fetched.".to_string(), allow.clone()))
    );
    let two = urls(&[
        "https://a.example/1.png",
        "https://b.example/2.png",
        "https://a.example/3.png",
        "https://allowed.example/4.png",
    ]);
    assert_eq!(
        said(web(&["allowed.example"], &[]).line(&two)),
        Some(("3 images on a.example and b.example are not fetched.".to_string(), allow.clone()))
    );
    let three = urls(&["https://a.example/1.png", "https://b.example/2.png", "https://c.example/3.png"]);
    assert_eq!(
        said(web(&[], &[]).line(&three)),
        Some(("3 images on a.example, b.example and c.example are not fetched.".to_string(), allow.clone()))
    );

    let mixed = urls(&["https://on.example/1.png", "https://off.example/2.png"]);
    for stage in ["fetching", "arrived", "failed"] {
        assert_eq!(
            said(web(&["on.example"], &[("https://on.example/1.png", stage)]).line(&mixed)),
            Some(("1 image on off.example is not fetched.".to_string(), allow.clone())),
            "beside a URL that is {stage}"
        );
    }

    let both = urls(&["https://on.example/1.png", "https://on.example/2.png"]);
    let fetching = web(
        &["on.example"],
        &[("https://on.example/1.png", "fetching"), ("https://on.example/2.png", "failed")],
    );
    assert_eq!(
        said(fetching.line(&both)),
        Some(("Fetching 1 image from on.example…".to_string(), None))
    );
    let arrived = web(
        &["on.example"],
        &[("https://on.example/1.png", "arrived"), ("https://on.example/2.png", "fetching")],
    );
    assert_eq!(
        said(arrived.line(&both)),
        Some(("Fetching 2 images from on.example…".to_string(), None))
    );

    let failed = web(&["on.example"], &[("https://on.example/2.png", "failed")]);
    assert_eq!(
        said(failed.line(&both)),
        Some(("1 image could not be fetched.".to_string(), Some("Try again".to_string())))
    );

    let waiting = web(&["on.example"], &[("https://on.example/1.png", "waiting")]);
    assert_eq!(said(waiting.line(&both[..1])), None);
    assert_eq!(said(Web::default().line(&[])), None);
}

#[test]
fn the_site_is_the_lowercased_host_or_the_url_itself() {
    assert_eq!(host("https://CDN.Example.COM:8443/a/b.png?x=1"), "cdn.example.com");
    assert_eq!(host("http://127.0.0.1:4446/dot.png"), "127.0.0.1");
    assert_eq!(host("https:/example.com/x.png"), "https:/example.com/x.png");
}

#[test]
fn a_claim_waits_and_begin_drops_what_is_no_longer_named() {
    let mut web = web(&["on.example"], &[("https://on.example/f.png", "failed")]);
    let named = urls(&[
        "https://on.example/a.png",
        "https://on.example/a.png",
        "https://off.example/b.png",
        "https://on.example/f.png",
    ]);

    assert_eq!(web.claim(&named, false), urls(&["https://on.example/a.png"]));
    assert_eq!(web.stage("https://on.example/a.png"), Some("waiting"));
    assert_eq!(web.claim(&named, false), Vec::<String>::new());
    assert_eq!(web.claim(&named, true), urls(&["https://on.example/f.png"]));

    assert!(web.begin("https://on.example/a.png", true));
    assert_eq!(web.stage("https://on.example/a.png"), Some("fetching"));
    assert!(!web.begin("https://on.example/f.png", false));
    assert_eq!(web.stage("https://on.example/f.png"), None);
}

#[test]
fn a_compile_reads_the_allowed_sites_and_promotes_the_generation_it_read() {
    let mut web = Web::default();
    web.install(vec!["on.example".to_string()]);
    web.land("https://on.example/a.png", Ok(vec![1]));
    web.land("https://off.example/b.png", Ok(vec![2]));

    let (fetched, read) = web.finished();
    assert_eq!(fetched.len(), 1);
    assert_eq!(read, vec![("https://on.example/a.png".to_string(), 1)]);

    web.land("https://on.example/a.png", Ok(vec![3]));
    web.promote(&read);
    assert_eq!(web.stage("https://on.example/a.png"), Some("arrived"));

    let (_, read) = web.finished();
    web.promote(&read);
    assert_eq!(web.stage("https://on.example/a.png"), Some("done"));
    assert!(!web.on_its_way("https://on.example/a.png"));
}

#[test]
fn a_second_claim_takes_nothing() {
    let mut web = Web::default();
    web.install(vec!["on.example".to_string()]);
    let named = urls(&["https://on.example/a.png", "https://on.example/b.png"]);
    assert_eq!(web.claim(&named, true), named);
    assert!(web.claim(&named, false).is_empty());
}

#[test]
fn the_widened_sites_are_the_allowed_and_the_named() {
    let mut web = Web::default();
    web.install(vec!["on.example".to_string()]);
    let mut widened = web.widened(&urls(&["https://OFF.example/a.png", "https://on.example/b.png"]));
    widened.sort();
    widened.dedup();
    assert_eq!(widened, urls(&["off.example", "on.example"]));
    assert!(web.allows("https://on.example/z.png"));
    assert!(!web.allows("https://off.example/z.png"));
}

#[test]
fn what_a_compile_reads_under_a_url_is_the_first_fetch_under_it() {
    let fetched_rows = vec![
        ("https://a/1.png".to_string(), Ok(vec![1u8])),
        ("https://a/2.png".to_string(), Err("404 Not Found".to_string())),
    ];
    assert_eq!(fetched(&fetched_rows, "https://a/1.png"), Some(Ok(vec![1u8])));
    assert_eq!(fetched(&fetched_rows, "https://a/2.png"), Some(Err("404 Not Found".to_string())));
    assert_eq!(fetched(&fetched_rows, "https://a/3.png"), None);
}

#[test]
fn a_fetch_is_refused_in_the_terminals_words() {
    assert_eq!(status_refusal(404, Some("Not Found")), "404 Not Found");
    assert_eq!(status_refusal(599, None), "599");
    assert_eq!(too_large(), "larger than 20 MB");
}

#[test]
fn a_compile_reads_each_url_once_at_its_newest_landing() {
    let mut web = Web::default();
    web.install(vec!["on.example".to_string()]);
    web.land("https://on.example/a.png", Ok(vec![1]));
    web.land("https://on.example/a.png", Ok(vec![3]));
    let (got, read) = web.finished();
    assert_eq!(got.len(), 1);
    assert_eq!(fetched(&got, "https://on.example/a.png"), Some(Ok(vec![3])));
    assert_eq!(read, vec![("https://on.example/a.png".to_string(), 2)]);
}

#[test]
fn a_landing_is_newer_than_anything_read_before_it() {
    let mut web = Web::default();
    web.install(vec!["on.example".to_string()]);
    web.land("https://on.example/a.png", Ok(vec![1]));
    web.land("https://on.example/b.png", Ok(vec![2]));
    let (_, before) = web.finished();
    let newest = before.iter().map(|(_, g)| *g).max().unwrap();
    web.land("https://on.example/a.png", Ok(vec![4]));
    let (_, after) = web.finished();
    let again = after.iter().find(|(u, _)| u == "https://on.example/a.png").unwrap().1;
    assert!(again > newest);
    assert_eq!(again, 3);
}

#[test]
fn a_claim_answers_each_url_once_in_the_order_first_named() {
    let mut web = Web::default();
    web.install(vec!["on.example".to_string()]);
    let named = urls(&[
        "https://on.example/b.png",
        "https://off.example/x.png",
        "https://on.example/a.png",
        "https://on.example/b.png",
    ]);
    assert_eq!(web.claim(&named, false), urls(&["https://on.example/b.png", "https://on.example/a.png"]));
    assert_eq!(web.stage("https://off.example/x.png"), None);
}
