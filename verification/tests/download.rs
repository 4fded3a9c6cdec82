use os_dev_specs::download::{download_plan, next_fetch_step, DownloadPlan, FetchFacts, FetchStep};

fn plan(index_exists: bool, up_to_date: bool, dry_run: bool, failed: &[&str]) -> DownloadPlan {
    let failed: Vec<String> = failed.iter().map(|s| s.to_string()).collect();
    download_plan(index_exists, up_to_date, dry_run, &failed)
}

#[test]
fn plan_first_download_replaces_spec() {
    let p = plan(false, false, false, &[]);
    assert!(p.replace_spec);
    assert!(!p.show_diff);
    assert!(!p.ask_confirmation);
    assert!(!p.report_up_to_date);
    assert!(!p.report_failures);
}

#[test]
fn plan_up_to_date_keeps_spec() {
    let p = plan(true, true, false, &["a"]);
    assert!(p.report_up_to_date);
    assert!(!p.replace_spec);
    assert!(!p.show_diff);
    assert!(p.report_failures);
}

#[test]
fn plan_changed_index_asks_then_replaces() {
    let p = plan(true, false, false, &[]);
    assert!(p.show_diff);
    assert!(p.ask_confirmation);
    assert!(p.replace_spec);
    assert!(!p.announce_dry_run);
}

#[test]
fn plan_dry_run_modifies_nothing() {
    for &(exists, fresh) in &[(false, false), (true, false), (true, true)] {
        let p = plan(exists, fresh, true, &["x"]);
        assert!(!p.replace_spec);
        assert!(!p.ask_confirmation);
    }
    let p = plan(false, false, true, &[]);
    assert!(p.announce_dry_run);
    assert!(!p.show_diff);
}

#[test]
fn plan_reports_failures_also_in_a_dry_run() {
    let p = plan(true, false, true, &["broken_spec"]);
    assert!(p.show_diff);
    assert!(p.announce_dry_run);
    assert!(p.report_failures);
    assert!(!p.keep_fetched);
    let q = plan(false, false, false, &["broken_spec"]);
    assert!(q.report_failures);
    assert!(q.keep_fetched);
}

fn facts(is_zip: bool, cached: bool) -> FetchFacts {
    FetchFacts { is_zip, cached, fetched: None, unpacked: None, extracted: None }
}

#[test]
fn fetch_of_a_pdf() {
    let mut f = facts(false, false);
    assert_eq!(next_fetch_step(f, false), FetchStep::Download { in_cache: true });
    f.fetched = Some(true);
    assert_eq!(next_fetch_step(f, false), FetchStep::Copy { in_cache: true });
    f.fetched = Some(false);
    assert_eq!(next_fetch_step(f, false), FetchStep::DiscardAndFail { in_cache: true });
    assert_eq!(next_fetch_step(facts(false, true), false), FetchStep::Copy { in_cache: true });
}

#[test]
fn fetch_of_an_archive() {
    let mut f = facts(true, false);
    f.fetched = Some(true);
    assert_eq!(next_fetch_step(f, false), FetchStep::Unpack { in_cache: true });
    f.unpacked = Some(false);
    assert_eq!(next_fetch_step(f, false), FetchStep::FailUnpack);
    f.unpacked = Some(true);
    assert_eq!(next_fetch_step(f, false), FetchStep::LookForExtracted { in_cache: true });
    f.extracted = Some(false);
    assert_eq!(next_fetch_step(f, false), FetchStep::FailMissingExtracted);
    f.extracted = Some(true);
    assert_eq!(next_fetch_step(f, false), FetchStep::Copy { in_cache: true });
    let mut c = facts(true, true);
    assert_eq!(next_fetch_step(c, false), FetchStep::LookForExtracted { in_cache: true });
    c.extracted = Some(true);
    assert_eq!(next_fetch_step(c, true), FetchStep::Copy { in_cache: true });
}

#[test]
fn dry_run_fetches_into_scratch() {
    let mut f = facts(true, false);
    assert_eq!(next_fetch_step(f, true), FetchStep::Download { in_cache: false });
    f.fetched = Some(true);
    assert_eq!(next_fetch_step(f, true), FetchStep::Unpack { in_cache: false });
    f.unpacked = Some(true);
    assert_eq!(next_fetch_step(f, true), FetchStep::LookForExtracted { in_cache: false });
    let mut g = facts(false, false);
    g.fetched = Some(false);
    assert_eq!(next_fetch_step(g, true), FetchStep::DiscardAndFail { in_cache: false });
}
