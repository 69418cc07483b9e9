use call_logger::config::{load_config, parse_config, render_config, Config};

fn b(s: &str) -> Vec<u8> {
    s.as_bytes().to_vec()
}

fn bl(items: &[&str]) -> Vec<Vec<u8>> {
    items.iter().map(|s| b(s)).collect()
}

#[test]
fn load_none_yields_defaults() {
    let c = load_config(&None);
    assert_eq!(c.categories, bl(&["sales", "client", "marketing", "support"]));
    assert_eq!(c.projects, bl(&["Project Alpha", "Project Beta", "Project Gamma"]));
    assert_eq!(c.log_file, b("call_log.md"));
}

#[test]
fn parse_categories_only_document() {
    let doc = b("## Categories\n- alpha\n- beta\n- gamma\n");
    let c = parse_config(&doc);
    assert_eq!(c.categories, bl(&["alpha", "beta", "gamma"]));
    assert_eq!(c.projects, Vec::<Vec<u8>>::new());
    assert_eq!(c.log_file, Vec::<u8>::new());
}

#[test]
fn load_categories_only_document() {
    let doc = b("## Categories\n- alpha\n- beta\n- gamma\n");
    let c = load_config(&Some(doc));
    assert_eq!(c.categories, bl(&["alpha", "beta", "gamma"]));
    assert_eq!(c.projects, bl(&["Project Alpha", "Project Beta", "Project Gamma"]));
    assert_eq!(c.log_file, b("call_log.md"));
}

#[test]
fn unknown_header_items_ignored() {
    let doc = b("## Wibble\n- x\n- y\n## Categories\n- a\n");
    let c = parse_config(&doc);
    assert_eq!(c.categories, bl(&["a"]));
    assert_eq!(c.projects, Vec::<Vec<u8>>::new());
    assert_eq!(c.log_file, Vec::<u8>::new());
}

#[test]
fn items_before_any_header_ignored() {
    let doc = b("- stray\nplain text\n## Projects\n- p1\n");
    let c = parse_config(&doc);
    assert_eq!(c.categories, Vec::<Vec<u8>>::new());
    assert_eq!(c.projects, bl(&["p1"]));
}

#[test]
fn headers_match_case_insensitively() {
    let doc = b("## CATEGORIES\n- a\n## projects\n- p\n## logfile\n- notes.md\n");
    let c = parse_config(&doc);
    assert_eq!(c.categories, bl(&["a"]));
    assert_eq!(c.projects, bl(&["p"]));
    assert_eq!(c.log_file, b("notes.md"));
}

#[test]
fn log_file_keeps_first_item() {
    let doc = b("## LogFile\n- first.md\n- second.md\n");
    let c = parse_config(&doc);
    assert_eq!(c.log_file, b("first.md"));
}

#[test]
fn items_are_trimmed_of_markers_and_whitespace() {
    let doc = b("## Categories\n  -   spaced out  \n-- doubled\n");
    let c = parse_config(&doc);
    assert_eq!(c.categories, bl(&["spaced out", "doubled"]));
}

#[test]
fn unrecognized_header_resets_section() {
    let doc = b("## Categories\n- kept\n## Other\n- lost\n");
    let c = parse_config(&doc);
    assert_eq!(c.categories, bl(&["kept"]));
    assert_eq!(c.projects, Vec::<Vec<u8>>::new());
    assert_eq!(c.log_file, Vec::<u8>::new());
}

#[test]
fn render_writes_fixed_order_document() {
    let c = Config {
        categories: bl(&["a", "b"]),
        projects: bl(&["P One"]),
        log_file: b("log.md"),
    };
    let out = render_config(&c);
    assert_eq!(
        out,
        b("## Categories\n- a\n- b\n\n## Projects\n- P One\n\n## LogFile\n- log.md")
    );
}

#[test]
fn save_load_round_trip() {
    let doc = b("## Categories\n- one\n- two\n## Projects\n- Big Work\n## LogFile\n- my log.md\n");
    let first = load_config(&Some(doc));
    let saved = render_config(&first);
    let second = load_config(&Some(saved));
    assert_eq!(second.categories, first.categories);
    assert_eq!(second.projects, first.projects);
    assert_eq!(second.log_file, first.log_file);
}

#[test]
fn round_trip_from_defaults() {
    let first = load_config(&None);
    let saved = render_config(&first);
    let second = load_config(&Some(saved));
    assert_eq!(second.categories, first.categories);
    assert_eq!(second.projects, first.projects);
    assert_eq!(second.log_file, first.log_file);
}

#[test]
fn empty_document_loads_as_defaults() {
    let c = load_config(&Some(Vec::new()));
    assert_eq!(c.categories, bl(&["sales", "client", "marketing", "support"]));
    assert_eq!(c.projects, bl(&["Project Alpha", "Project Beta", "Project Gamma"]));
    assert_eq!(c.log_file, b("call_log.md"));
}

#[test]
fn dashed_item_survives_round_trip() {
    let doc = b("## Categories\n- -x\n");
    let first = load_config(&Some(doc));
    assert_eq!(first.categories[0], b("-x"));
    let second = load_config(&Some(render_config(&first)));
    assert_eq!(second.categories, first.categories);
}
