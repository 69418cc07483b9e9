use call_logger::config::{load_config, render_config, Config};
use call_logger::form::{append_record, FormState};

fn b(s: &str) -> Vec<u8> {
    s.as_bytes().to_vec()
}

fn bl(items: &[&str]) -> Vec<Vec<u8>> {
    items.iter().map(|s| b(s)).collect()
}

fn fresh_form() -> FormState {
    FormState::new(load_config(&None))
}

#[test]
fn new_form_has_timestamp_and_empty_entry() {
    let s = fresh_form();
    assert!(!s.date.is_empty());
    assert_eq!(s.available_categories, bl(&["sales", "client", "marketing", "support"]));
    assert_eq!(s.projects, bl(&["Project Alpha", "Project Beta", "Project Gamma"]));
    assert!(s.selected_categories.is_empty());
    assert!(s.selected_project.is_empty());
    assert!(s.contact.is_empty());
    assert!(s.notes.is_empty());
    assert!(s.next_step.is_empty());
    assert!(s.status.is_empty());
}

#[test]
fn add_category_appends_once_and_selects() {
    let mut s = fresh_form();
    let added = s.add_category(&b("finance"));
    assert!(added);
    assert_eq!(
        s.available_categories,
        bl(&["sales", "client", "marketing", "support", "finance"])
    );
    assert_eq!(s.selected_categories, bl(&["finance"]));

    let again = s.add_category(&b("finance"));
    assert!(!again);
    assert_eq!(
        s.available_categories,
        bl(&["sales", "client", "marketing", "support", "finance"])
    );
    assert_eq!(s.selected_categories, bl(&["finance"]));
}

#[test]
fn add_category_trims_and_ignores_blank() {
    let mut s = fresh_form();
    assert!(!s.add_category(&b("   ")));
    assert!(!s.add_category(&b("")));
    assert!(s.add_category(&b("  finance  ")));
    assert_eq!(
        s.available_categories,
        bl(&["sales", "client", "marketing", "support", "finance"])
    );
}

#[test]
fn toggle_category_adds_and_removes() {
    let mut s = fresh_form();
    s.toggle_category(&b("sales"), true);
    assert_eq!(s.selected_categories, bl(&["sales"]));
    s.toggle_category(&b("client"), true);
    assert_eq!(s.selected_categories, bl(&["sales", "client"]));
    s.toggle_category(&b("sales"), true);
    assert_eq!(s.selected_categories, bl(&["sales", "client"]));
    s.toggle_category(&b("sales"), false);
    assert_eq!(s.selected_categories, bl(&["client"]));
    s.toggle_category(&b("sales"), false);
    assert_eq!(s.selected_categories, bl(&["client"]));
}

#[test]
fn add_project_appends_and_replaces_selection() {
    let mut s = fresh_form();
    s.select_project(&b("Project Alpha"));
    assert_eq!(s.selected_project, b("Project Alpha"));
    let added = s.add_project(&b("New Thing"));
    assert!(added);
    assert_eq!(
        s.projects,
        bl(&["Project Alpha", "Project Beta", "Project Gamma", "New Thing"])
    );
    assert_eq!(s.selected_project, b("New Thing"));

    s.select_project(&b("Project Beta"));
    let again = s.add_project(&b("New Thing"));
    assert!(!again);
    assert_eq!(
        s.projects,
        bl(&["Project Alpha", "Project Beta", "Project Gamma", "New Thing"])
    );
    assert_eq!(s.selected_project, b("Project Beta"));
}

#[test]
fn set_now_overwrites_timestamp_only() {
    let mut s = fresh_form();
    s.date = b("stale");
    s.contact = b("Ada");
    s.set_now();
    assert!(!s.date.is_empty());
    assert_ne!(s.date, b("stale"));
    assert_eq!(s.contact, b("Ada"));
}

#[test]
fn commit_builds_exact_line_and_status() {
    let mut s = fresh_form();
    s.date = b("2024-01-02T03:04:05+00:00");
    s.selected_categories = bl(&["sales", "client"]);
    s.contact = b("Ada Lovelace");
    s.selected_project = b("Project Alpha");
    s.notes = b("talked numbers");
    s.next_step = b("send deck");
    let line = s.commit();
    let expected = b(
        "- @2024-01-02T03:04:05+00:00 | #sales,client | [[Ada Lovelace]] | [[Project Alpha]] | talked numbers | >send deck",
    );
    assert_eq!(line, expected);
    let mut status = b("Saved: ");
    status.extend_from_slice(&expected);
    assert_eq!(s.status, status);
}

#[test]
fn commit_with_empty_fields_keeps_separators() {
    let mut s = fresh_form();
    s.date = b("T");
    let line = s.commit();
    assert_eq!(line, b("- @T | # | [[]] | [[]] |  | >"));
}

#[test]
fn commit_does_not_reset_entry() {
    let mut s = fresh_form();
    s.date = b("T");
    s.contact = b("Ada");
    s.notes = b("n");
    s.next_step = b("x");
    s.selected_categories = bl(&["sales"]);
    s.selected_project = b("Project Beta");
    s.commit();
    assert_eq!(s.contact, b("Ada"));
    assert_eq!(s.notes, b("n"));
    assert_eq!(s.next_step, b("x"));
    assert_eq!(s.selected_categories, bl(&["sales"]));
    assert_eq!(s.selected_project, b("Project Beta"));
    assert_eq!(s.date, b("T"));
}

#[test]
fn three_commits_append_three_lines_in_order() {
    let mut s = fresh_form();
    let mut log: Vec<u8> = Vec::new();
    s.date = b("T1");
    let l1 = s.commit();
    append_record(&mut log, &l1);
    s.date = b("T2");
    let l2 = s.commit();
    append_record(&mut log, &l2);
    s.date = b("T3");
    let l3 = s.commit();
    append_record(&mut log, &l3);
    assert_eq!(log.iter().filter(|&&c| c == b'\n').count(), 3);
    let text = String::from_utf8(log).unwrap();
    let lines: Vec<&str> = text.lines().collect();
    assert_eq!(lines.len(), 3);
    assert!(lines[0].starts_with("- @T1"));
    assert!(lines[1].starts_with("- @T2"));
    assert!(lines[2].starts_with("- @T3"));
}

#[test]
fn config_document_renders_current_lists() {
    let mut s = FormState::new(Config {
        categories: bl(&["a"]),
        projects: bl(&["P"]),
        log_file: b("log.md"),
    });
    s.add_category(&b("zeta"));
    let doc = s.config_document();
    let direct = render_config(&Config {
        categories: bl(&["a", "zeta"]),
        projects: bl(&["P"]),
        log_file: b("log.md"),
    });
    assert_eq!(doc, direct);
}

#[test]
fn toggle_off_removes_every_occurrence() {
    let mut s = fresh_form();
    s.selected_categories = bl(&["a", "b", "a"]);
    s.toggle_category(&b("a"), false);
    assert_eq!(s.selected_categories, bl(&["b"]));
}
