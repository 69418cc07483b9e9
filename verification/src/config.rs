//! The configuration codec: a document of headered sections (`## Categories`,
//! `## Projects`, `## LogFile`) whose dash lines contribute trimmed items, is
//! parsed to, and rendered from, ordered category and project lists plus one
//! log-file path.

use vstd::prelude::*;

use crate::bytes::{
    append_bytes, clean, eq_ignore_case, eq_ignore_case_bytes, is_space, lemma_lines_of_no_nl,
    lemma_lines_of_prefix, lemma_lines_of_single, lemma_strip_front_single,
    lemma_trim_back_keeps_head, lemma_trim_back_single, lemma_trim_front_single,
    lemma_trimmed_clean, lines_of, nl, single_line, split_lines, strip_front, strip_leading, trim,
    trim_back, trim_front, trimmed,
};

verus! {

/// Which section of the configuration document the parser is inside.
#[derive(PartialEq, Eq, Structural, Clone, Copy, Debug)]
pub enum Section {
    NoSection,
    Categories,
    Projects,
    LogFile,
}

/// The parser's running state: the active section and what each section has
/// collected so far.
#[verifier::ext_equal]
pub struct ParseState {
    pub sec: Section,
    pub categories: Seq<Seq<u8>>,
    pub projects: Seq<Seq<u8>>,
    pub log_file: Seq<u8>,
}

/// The mathematical value of a configuration: ordered category and project
/// names and the log-file path.
#[verifier::ext_equal]
pub struct ConfigModel {
    pub categories: Seq<Seq<u8>>,
    pub projects: Seq<Seq<u8>>,
    pub log_file: Seq<u8>,
}

/// A loaded configuration: ordered category and project names and the
/// log-file path, all as UTF-8 bytes.
pub struct Config {
    pub categories: Vec<Vec<u8>>,
    pub projects: Vec<Vec<u8>>,
    pub log_file: Vec<u8>,
}

impl View for Config {
    type V = ConfigModel;

    open spec fn view(&self) -> ConfigModel {
        ConfigModel {
            categories: self.categories.deep_view(),
            projects: self.projects.deep_view(),
            log_file: self.log_file@,
        }
    }
}

/// The section name `Categories`.
pub open spec fn title_categories() -> Seq<u8> {
    seq![67u8, 97, 116, 101, 103, 111, 114, 105, 101, 115]
}

/// The section name `Projects`.
pub open spec fn title_projects() -> Seq<u8> {
    seq![80u8, 114, 111, 106, 101, 99, 116, 115]
}

/// The section name `LogFile`.
pub open spec fn title_log_file() -> Seq<u8> {
    seq![76u8, 111, 103, 70, 105, 108, 101]
}

/// Which section a header of this name (case-insensitively) introduces.
pub open spec fn section_of_header(name: Seq<u8>) -> Section {
    if eq_ignore_case(name, title_categories()) {
        Section::Categories
    } else if eq_ignore_case(name, title_projects()) {
        Section::Projects
    } else if eq_ignore_case(name, title_log_file()) {
        Section::LogFile
    } else {
        Section::NoSection
    }
}

/// A trimmed line that introduces a section: it begins with `##`.
pub open spec fn is_header_line(t: Seq<u8>) -> bool {
    t.len() >= 2 && t[0] == 35 && t[1] == 35
}

/// A trimmed line that contributes an item: it begins with a dash and is not
/// a header.
pub open spec fn is_item_line(t: Seq<u8>) -> bool {
    !is_header_line(t) && t.len() >= 1 && t[0] == 45
}

/// The section name of a trimmed header line: the leading `#` run and the
/// surrounding whitespace removed.
pub open spec fn header_name(t: Seq<u8>) -> Seq<u8> {
    trimmed(strip_front(t, 35))
}

/// The item a trimmed dash line contributes: the leading dash run and the
/// surrounding whitespace removed.
pub open spec fn item_text(t: Seq<u8>) -> Seq<u8> {
    trimmed(strip_front(t, 45))
}

/// One line of the document applied to the parser state: a header line
/// switches the section (an unrecognized name switches to none), a dash line
/// contributes its item to the active section (`LogFile` keeps only the first
/// item), and every other line is ignored.
pub open spec fn parse_step(st: ParseState, line: Seq<u8>) -> ParseState {
    let t = trimmed(line);
    if is_header_line(t) {
        ParseState { sec: section_of_header(header_name(t)), ..st }
    } else if is_item_line(t) {
        match st.sec {
            Section::Categories => ParseState { categories: st.categories.push(item_text(t)), ..st },
            Section::Projects => ParseState { projects: st.projects.push(item_text(t)), ..st },
            Section::LogFile => if st.log_file.len() == 0 {
                ParseState { log_file: item_text(t), ..st }
            } else {
                st
            },
            Section::NoSection => st,
        }
    } else {
        st
    }
}

/// Before any line is read: no active section, nothing collected.
pub open spec fn parse_init() -> ParseState {
    ParseState {
        sec: Section::NoSection,
        categories: Seq::empty(),
        projects: Seq::empty(),
        log_file: Seq::empty(),
    }
}

/// The parser state after reading `lines` in order, starting from `st`.
pub open spec fn parse_lines(st: ParseState, lines: Seq<Seq<u8>>) -> ParseState
    decreases lines.len(),
{
    if lines.len() == 0 {
        st
    } else {
        parse_lines(parse_step(st, lines[0]), lines.drop_first())
    }
}

/// The parser state after reading a whole document.
pub open spec fn parse_doc(text: Seq<u8>) -> ParseState {
    parse_lines(parse_init(), lines_of(text))
}

/// The configuration a parser state has collected.
pub open spec fn config_of(st: ParseState) -> ConfigModel {
    ConfigModel { categories: st.categories, projects: st.projects, log_file: st.log_file }
}

/// The built-in default category names.
pub open spec fn default_categories_model() -> Seq<Seq<u8>> {
    seq![
        seq![115u8, 97, 108, 101, 115],
        seq![99u8, 108, 105, 101, 110, 116],
        seq![109u8, 97, 114, 107, 101, 116, 105, 110, 103],
        seq![115u8, 117, 112, 112, 111, 114, 116],
    ]
}

/// The built-in default project names.
pub open spec fn default_projects_model() -> Seq<Seq<u8>> {
    seq![
        seq![80u8, 114, 111, 106, 101, 99, 116, 32, 65, 108, 112, 104, 97],
        seq![80u8, 114, 111, 106, 101, 99, 116, 32, 66, 101, 116, 97],
        seq![80u8, 114, 111, 106, 101, 99, 116, 32, 71, 97, 109, 109, 97],
    ]
}

/// The built-in default log-file path.
pub open spec fn default_log_file_model() -> Seq<u8> {
    seq![99u8, 97, 108, 108, 95, 108, 111, 103, 46, 109, 100]
}

/// A parsed configuration with the built-in default substituted for each
/// section that came out empty.
pub open spec fn with_defaults(m: ConfigModel) -> ConfigModel {
    ConfigModel {
        categories: if m.categories.len() == 0 {
            default_categories_model()
        } else {
            m.categories
        },
        projects: if m.projects.len() == 0 {
            default_projects_model()
        } else {
            m.projects
        },
        log_file: if m.log_file.len() == 0 {
            default_log_file_model()
        } else {
            m.log_file
        },
    }
}

/// What loading yields: the parsed document with defaults filled in, or the
/// all-default configuration when no document could be read.
pub open spec fn load_result(doc: Option<Seq<u8>>) -> ConfigModel {
    match doc {
        Option::Some(t) => with_defaults(config_of(parse_doc(t))),
        Option::None => with_defaults(
            ConfigModel { categories: Seq::empty(), projects: Seq::empty(), log_file: Seq::empty() },
        ),
    }
}

/// The section name `Categories` as bytes.
pub fn title_categories_bytes() -> (r: Vec<u8>)
    ensures
        r@ == title_categories(),
{
    let mut v: Vec<u8> = Vec::new();
    v.push(67);
    v.push(97);
    v.push(116);
    v.push(101);
    v.push(103);
    v.push(111);
    v.push(114);
    v.push(105);
    v.push(101);
    v.push(115);
    proof {
        assert(v@ =~= title_categories());
    }
    v
}

/// The section name `Projects` as bytes.
pub fn title_projects_bytes() -> (r: Vec<u8>)
    ensures
        r@ == title_projects(),
{
    let mut v: Vec<u8> = Vec::new();
    v.push(80);
    v.push(114);
    v.push(111);
    v.push(106);
    v.push(101);
    v.push(99);
    v.push(116);
    v.push(115);
    proof {
        assert(v@ =~= title_projects());
    }
    v
}

/// The section name `LogFile` as bytes.
pub fn title_log_file_bytes() -> (r: Vec<u8>)
    ensures
        r@ == title_log_file(),
{
    let mut v: Vec<u8> = Vec::new();
    v.push(76);
    v.push(111);
    v.push(103);
    v.push(70);
    v.push(105);
    v.push(108);
    v.push(101);
    proof {
        assert(v@ =~= title_log_file());
    }
    v
}

/// Which section a header of this name introduces, matched without regard to
/// ASCII case.
fn section_of_header_bytes(name: &Vec<u8>) -> (r: Section)
    ensures
        r == section_of_header(name@),
{
    if eq_ignore_case_bytes(name, &title_categories_bytes()) {
        Section::Categories
    } else if eq_ignore_case_bytes(name, &title_projects_bytes()) {
        Section::Projects
    } else if eq_ignore_case_bytes(name, &title_log_file_bytes()) {
        Section::LogFile
    } else {
        Section::NoSection
    }
}

/// Parses a configuration document. Lines outside any recognized section are
/// ignored; the `LogFile` section keeps only its first item.
pub fn parse_config(text: &Vec<u8>) -> (c: Config)
    ensures
        c@ == config_of(parse_doc(text@)),
{
    let lines = split_lines(text);
    let n = lines.len();
    let mut sec = Section::NoSection;
    let mut categories: Vec<Vec<u8>> = Vec::new();
    let mut projects: Vec<Vec<u8>> = Vec::new();
    let mut log_file: Vec<u8> = Vec::new();
    let mut i: usize = 0;
    proof {
        assert(lines_of(text@).skip(0) =~= lines_of(text@));
        assert(categories.deep_view() =~= Seq::<Seq<u8>>::empty());
        assert(projects.deep_view() =~= Seq::<Seq<u8>>::empty());
        assert((ParseState {
            sec: sec,
            categories: categories.deep_view(),
            projects: projects.deep_view(),
            log_file: log_file@,
        }) =~= parse_init());
    }
    while i < n
        invariant
            i <= n,
            n == lines.len(),
            lines.deep_view() == lines_of(text@),
            parse_lines(
                ParseState {
                    sec: sec,
                    categories: categories.deep_view(),
                    projects: projects.deep_view(),
                    log_file: log_file@,
                },
                lines_of(text@).skip(i as int),
            ) == parse_doc(text@),
        decreases n - i,
    {
        let ghost st = ParseState {
            sec: sec,
            categories: categories.deep_view(),
            projects: projects.deep_view(),
            log_file: log_file@,
        };
        let ghost line = lines_of(text@)[i as int];
        proof {
            assert(lines.deep_view()[i as int] =~= lines@[i as int]@);
            assert(line == lines@[i as int]@);
            assert(lines_of(text@).skip(i as int).drop_first() =~= lines_of(text@).skip(
                i + 1 as int,
            ));
            assert(lines_of(text@).skip(i as int)[0] == line);
            assert(parse_lines(st, lines_of(text@).skip(i as int)) == parse_lines(
                parse_step(st, line),
                lines_of(text@).skip(i + 1 as int),
            ));
        }
        let t = trim(&lines[i]);
        if t.len() >= 2 && t[0] == 35 && t[1] == 35 {
            let stripped = strip_leading(&t, 35);
            let name = trim(&stripped);
            sec = section_of_header_bytes(&name);
            proof {
                assert(name@ == header_name(trimmed(line)));
                assert((ParseState {
                    sec: sec,
                    categories: categories.deep_view(),
                    projects: projects.deep_view(),
                    log_file: log_file@,
                }) =~= parse_step(st, line));
            }
        } else if t.len() >= 1 && t[0] == 45 {
            let stripped = strip_leading(&t, 45);
            let item = trim(&stripped);
            proof {
                assert(item@ == item_text(trimmed(line)));
            }
            match sec {
                Section::Categories => {
                    let ghost pre = categories.deep_view();
                    categories.push(item);
                    proof {
                        assert(categories.deep_view() =~~= pre.push(item_text(trimmed(line))));
                    }
                },
                Section::Projects => {
                    let ghost pre = projects.deep_view();
                    projects.push(item);
                    proof {
                        assert(projects.deep_view() =~~= pre.push(item_text(trimmed(line))));
                    }
                },
                Section::LogFile => {
                    if log_file.len() == 0 {
                        log_file = item;
                    }
                },
                Section::NoSection => {},
            }
            proof {
                assert((ParseState {
                    sec: sec,
                    categories: categories.deep_view(),
                    projects: projects.deep_view(),
                    log_file: log_file@,
                }) =~= parse_step(st, line));
            }
        } else {
            proof {
                assert((ParseState {
                    sec: sec,
                    categories: categories.deep_view(),
                    projects: projects.deep_view(),
                    log_file: log_file@,
                }) =~= parse_step(st, line));
            }
        }
        i = i + 1;
    }
    proof {
        assert(lines_of(text@).skip(n as int) =~= Seq::<Seq<u8>>::empty());
    }
    let c = Config { categories, projects, log_file };
    proof {
        assert(c@ =~= config_of(parse_doc(text@)));
    }
    c
}

/// The built-in default category names as bytes.
pub fn default_categories() -> (r: Vec<Vec<u8>>)
    ensures
        r.deep_view() == default_categories_model(),
{
    let mut sales: Vec<u8> = Vec::new();
    sales.push(115);
    sales.push(97);
    sales.push(108);
    sales.push(101);
    sales.push(115);
    let mut client: Vec<u8> = Vec::new();
    client.push(99);
    client.push(108);
    client.push(105);
    client.push(101);
    client.push(110);
    client.push(116);
    let mut marketing: Vec<u8> = Vec::new();
    marketing.push(109);
    marketing.push(97);
    marketing.push(114);
    marketing.push(107);
    marketing.push(101);
    marketing.push(116);
    marketing.push(105);
    marketing.push(110);
    marketing.push(103);
    let mut support: Vec<u8> = Vec::new();
    support.push(115);
    support.push(117);
    support.push(112);
    support.push(112);
    support.push(111);
    support.push(114);
    support.push(116);
    let mut r: Vec<Vec<u8>> = Vec::new();
    r.push(sales);
    r.push(client);
    r.push(marketing);
    r.push(support);
    proof {
        assert(r.deep_view() =~~= default_categories_model());
    }
    r
}

/// The built-in default project names as bytes.
pub fn default_projects() -> (r: Vec<Vec<u8>>)
    ensures
        r.deep_view() == default_projects_model(),
{
    let mut alpha: Vec<u8> = Vec::new();
    alpha.push(80);
    alpha.push(114);
    alpha.push(111);
    alpha.push(106);
    alpha.push(101);
    alpha.push(99);
    alpha.push(116);
    alpha.push(32);
    alpha.push(65);
    alpha.push(108);
    alpha.push(112);
    alpha.push(104);
    alpha.push(97);
    let mut beta: Vec<u8> = Vec::new();
    beta.push(80);
    beta.push(114);
    beta.push(111);
    beta.push(106);
    beta.push(101);
    beta.push(99);
    beta.push(116);
    beta.push(32);
    beta.push(66);
    beta.push(101);
    beta.push(116);
    beta.push(97);
    let mut gamma: Vec<u8> = Vec::new();
    gamma.push(80);
    gamma.push(114);
    gamma.push(111);
    gamma.push(106);
    gamma.push(101);
    gamma.push(99);
    gamma.push(116);
    gamma.push(32);
    gamma.push(71);
    gamma.push(97);
    gamma.push(109);
    gamma.push(109);
    gamma.push(97);
    let mut r: Vec<Vec<u8>> = Vec::new();
    r.push(alpha);
    r.push(beta);
    r.push(gamma);
    proof {
        assert(r.deep_view() =~~= default_projects_model());
    }
    r
}

/// The built-in default log-file path as bytes.
pub fn default_log_file() -> (r: Vec<u8>)
    ensures
        r@ == default_log_file_model(),
{
    let mut v: Vec<u8> = Vec::new();
    v.push(99);
    v.push(97);
    v.push(108);
    v.push(108);
    v.push(95);
    v.push(108);
    v.push(111);
    v.push(103);
    v.push(46);
    v.push(109);
    v.push(100);
    proof {
        assert(v@ =~= default_log_file_model());
    }
    v
}

/// Loads a configuration from the text of its document, or from nothing when
/// the document could not be read; every section that comes out empty falls
/// back to its built-in default.
pub fn load_config(doc: &Option<Vec<u8>>) -> (c: Config)
    ensures
        c@ == load_result(doc.deep_view()),
{
    match doc {
        Option::Some(t) => {
            proof {
                assert(t.deep_view() =~= t@);
            }
            let mut c = parse_config(t);
            if c.categories.len() == 0 {
                c.categories = default_categories();
            }
            if c.projects.len() == 0 {
                c.projects = default_projects();
            }
            if c.log_file.len() == 0 {
                c.log_file = default_log_file();
            }
            proof {
                assert(c@ =~= load_result(doc.deep_view()));
            }
            c
        },
        Option::None => {
            let c = Config {
                categories: default_categories(),
                projects: default_projects(),
                log_file: default_log_file(),
            };
            proof {
                assert(c@ =~= load_result(doc.deep_view()));
            }
            c
        },
    }
}

/// A dash item line without its terminator: `- ` then the item.
pub open spec fn dash_line(e: Seq<u8>) -> Seq<u8> {
    seq![45u8, 32] + e
}

/// A section header line without its terminator: `## ` then the name.
pub open spec fn header_line(title: Seq<u8>) -> Seq<u8> {
    seq![35u8, 35, 32] + title
}

/// The item block of one section: one terminated dash line per item.
pub open spec fn render_items(items: Seq<Seq<u8>>) -> Seq<u8>
    decreases items.len(),
{
    if items.len() == 0 {
        Seq::empty()
    } else {
        dash_line(items[0]) + seq![nl()] + render_items(items.drop_first())
    }
}

/// The rendered document: the three sections in fixed order, a blank line
/// between sections, and the log-file path as a single unterminated item.
pub open spec fn render_doc(m: ConfigModel) -> Seq<u8> {
    header_line(title_categories()) + seq![nl()] + render_items(m.categories) + seq![nl()]
        + header_line(title_projects()) + seq![nl()] + render_items(m.projects) + seq![nl()]
        + header_line(title_log_file()) + seq![nl()] + dash_line(m.log_file)
}

proof fn lemma_render_items_snoc(items: Seq<Seq<u8>>, x: Seq<u8>)
    ensures
        render_items(items.push(x)) == render_items(items) + dash_line(x) + seq![nl()],
    decreases items.len(),
{
    if items.len() == 0 {
        reveal_with_fuel(render_items, 2);
        assert(items.push(x)[0] == x);
        assert(items.push(x).drop_first() =~= Seq::<Seq<u8>>::empty());
        assert(render_items(items.push(x)) =~= render_items(items) + dash_line(x) + seq![nl()]);
    } else {
        assert(items.push(x)[0] == items[0]);
        assert(items.push(x).drop_first() =~= items.drop_first().push(x));
        lemma_render_items_snoc(items.drop_first(), x);
        assert(render_items(items.push(x)) == dash_line(items[0]) + seq![nl()] + render_items(
            items.drop_first().push(x),
        ));
        assert(render_items(items) == dash_line(items[0]) + seq![nl()] + render_items(
            items.drop_first(),
        ));
        assert(render_items(items.push(x)) =~= render_items(items) + dash_line(x) + seq![nl()]);
    }
}

/// Appends one terminated dash line per item to `out`.
fn append_items(out: &mut Vec<u8>, items: &Vec<Vec<u8>>)
    ensures
        final(out)@ == old(out)@ + render_items(items.deep_view()),
{
    let n = items.len();
    let mut i: usize = 0;
    proof {
        assert(items.deep_view().take(0) =~= Seq::<Seq<u8>>::empty());
        assert(out@ =~= old(out)@ + render_items(items.deep_view().take(0)));
    }
    while i < n
        invariant
            i <= n,
            n == items.len(),
            out@ == old(out)@ + render_items(items.deep_view().take(i as int)),
        decreases n - i,
    {
        proof {
            assert(items.deep_view()[i as int] =~= items@[i as int]@);
            assert(items.deep_view().take(i + 1 as int) =~= items.deep_view().take(
                i as int,
            ).push(items.deep_view()[i as int]));
            lemma_render_items_snoc(items.deep_view().take(i as int), items.deep_view()[i as int]);
        }
        out.push(45);
        out.push(32);
        append_bytes(out, &items[i]);
        out.push(10);
        proof {
            assert(out@ =~= old(out)@ + render_items(items.deep_view().take(i + 1 as int)));
        }
        i = i + 1;
    }
    proof {
        assert(items.deep_view().take(n as int) =~= items.deep_view());
    }
}

/// Renders a configuration as its document: the three sections in fixed
/// order, one item per dash line, the log-file path last and unterminated.
/// This is the full overwrite text a save writes to disk.
pub fn render_config(c: &Config) -> (out: Vec<u8>)
    ensures
        out@ == render_doc(c@),
{
    let mut out: Vec<u8> = Vec::new();
    out.push(35);
    out.push(35);
    out.push(32);
    append_bytes(&mut out, &title_categories_bytes());
    out.push(10);
    append_items(&mut out, &c.categories);
    out.push(10);
    out.push(35);
    out.push(35);
    out.push(32);
    append_bytes(&mut out, &title_projects_bytes());
    out.push(10);
    append_items(&mut out, &c.projects);
    out.push(10);
    out.push(35);
    out.push(35);
    out.push(32);
    append_bytes(&mut out, &title_log_file_bytes());
    out.push(10);
    out.push(45);
    out.push(32);
    append_bytes(&mut out, &c.log_file);
    proof {
        assert(out@ =~= render_doc(c@));
    }
    out
}

/// The dash lines of a list of items.
pub open spec fn item_lines(items: Seq<Seq<u8>>) -> Seq<Seq<u8>> {
    items.map_values(|e: Seq<u8>| dash_line(e))
}

/// Every list entry and the log-file path a parse collects is clean.
pub open spec fn state_clean(st: ParseState) -> bool {
    &&& forall|k: int| 0 <= k < st.categories.len() ==> clean(#[trigger] st.categories[k])
    &&& forall|k: int| 0 <= k < st.projects.len() ==> clean(#[trigger] st.projects[k])
    &&& clean(st.log_file)
}

proof fn lemma_step_blank(st: ParseState)
    ensures
        parse_step(st, Seq::<u8>::empty()) == st,
{
    assert(trim_front(Seq::<u8>::empty()) == Seq::<u8>::empty());
    assert(trim_back(Seq::<u8>::empty()) == Seq::<u8>::empty());
}

proof fn lemma_dash_line_form(e: Seq<u8>)
    requires
        clean(e),
    ensures
        ({
            let t = trimmed(dash_line(e));
            &&& is_item_line(t)
            &&& item_text(t) == e
        }),
{
    let d = dash_line(e);
    assert(d[0] == 45);
    assert(trim_front(d) == d);
    if e.len() == 0 {
        reveal_with_fuel(trim_back, 3);
        assert(d =~= seq![45u8, 32]);
        assert(d.drop_last() =~= seq![45u8]);
        assert(trim_back(d) == seq![45u8]);
        let t = trimmed(d);
        assert(t == seq![45u8]);
        reveal_with_fuel(strip_front, 2);
        assert(seq![45u8].drop_first() =~= Seq::<u8>::empty());
        assert(strip_front(t, 45) == Seq::<u8>::empty());
        assert(trim_front(Seq::<u8>::empty()) == Seq::<u8>::empty());
        assert(trim_back(Seq::<u8>::empty()) == Seq::<u8>::empty());
        assert(item_text(t) =~= e);
    } else {
        assert(d[d.len() - 1] == e[e.len() - 1]);
        assert(trim_back(d) == d);
        reveal_with_fuel(strip_front, 2);
        assert(d.drop_first() =~= seq![32u8] + e);
        assert(strip_front(d, 45) == seq![32u8] + e);
        reveal_with_fuel(trim_front, 2);
        assert((seq![32u8] + e).drop_first() =~= e);
        assert(trim_front(seq![32u8] + e) == trim_front(e));
        assert(trim_front(e) == e);
        assert(trim_back(e) == e);
        assert(item_text(trimmed(d)) == e);
    }
}

proof fn lemma_header_line_form(title: Seq<u8>)
    requires
        title.len() > 0,
        !is_space(title[0]),
        !is_space(title[title.len() - 1]),
    ensures
        ({
            let t = trimmed(header_line(title));
            &&& is_header_line(t)
            &&& header_name(t) == title
        }),
{
    let h = header_line(title);
    assert(h[0] == 35);
    assert(trim_front(h) == h);
    assert(h[h.len() - 1] == title[title.len() - 1]);
    assert(trim_back(h) == h);
    assert(h[1] == 35);
    reveal_with_fuel(strip_front, 3);
    assert(h.drop_first() =~= seq![35u8, 32] + title);
    assert((seq![35u8, 32] + title).drop_first() =~= seq![32u8] + title);
    assert(strip_front(h, 35) == seq![32u8] + title);
    reveal_with_fuel(trim_front, 2);
    assert((seq![32u8] + title).drop_first() =~= title);
    assert(trim_front(seq![32u8] + title) == trim_front(title));
    assert(trim_front(title) == title);
    assert(trim_back(title) == title);
}

proof fn lemma_section_of_titles()
    ensures
        section_of_header(title_categories()) == Section::Categories,
        section_of_header(title_projects()) == Section::Projects,
        section_of_header(title_log_file()) == Section::LogFile,
{
    assert(eq_ignore_case(title_categories(), title_categories()));
    assert(title_projects().len() != title_categories().len());
    assert(eq_ignore_case(title_projects(), title_projects()));
    assert(title_log_file().len() != title_categories().len());
    assert(title_log_file().len() != title_projects().len());
    assert(eq_ignore_case(title_log_file(), title_log_file()));
}

proof fn lemma_parse_lines_append(st: ParseState, a: Seq<Seq<u8>>, b: Seq<Seq<u8>>)
    ensures
        parse_lines(st, a + b) == parse_lines(parse_lines(st, a), b),
    decreases a.len(),
{
    if a.len() == 0 {
        assert(a + b =~= b);
    } else {
        assert((a + b)[0] == a[0]);
        assert((a + b).drop_first() =~= a.drop_first() + b);
        lemma_parse_lines_append(parse_step(st, a[0]), a.drop_first(), b);
    }
}

proof fn lemma_parse_lines_one(st: ParseState, l: Seq<u8>)
    ensures
        parse_lines(st, seq![l]) == parse_step(st, l),
{
    reveal_with_fuel(parse_lines, 2);
    assert(seq![l].drop_first() =~= Seq::<Seq<u8>>::empty());
}

proof fn lemma_parse_items_in_section(st: ParseState, items: Seq<Seq<u8>>)
    requires
        forall|k: int| 0 <= k < items.len() ==> clean(#[trigger] items[k]),
    ensures
        st.sec == Section::Categories ==> parse_lines(st, item_lines(items)) == (ParseState {
            categories: st.categories + items,
            ..st
        }),
        st.sec == Section::Projects ==> parse_lines(st, item_lines(items)) == (ParseState {
            projects: st.projects + items,
            ..st
        }),
    decreases items.len(),
{
    if items.len() == 0 {
        assert(item_lines(items) =~= Seq::<Seq<u8>>::empty());
        assert((ParseState { categories: st.categories + items, ..st }) =~= st);
        assert((ParseState { projects: st.projects + items, ..st }) =~= st);
    } else {
        let e = items[0];
        assert(clean(e));
        lemma_dash_line_form(e);
        assert(item_lines(items)[0] == dash_line(e));
        assert(item_lines(items).drop_first() =~= item_lines(items.drop_first()));
        let st1 = parse_step(st, dash_line(e));
        assert(forall|k: int|
            0 <= k < items.drop_first().len() ==> clean(#[trigger] items.drop_first()[k]));
        lemma_parse_items_in_section(st1, items.drop_first());
        if st.sec == Section::Categories {
            assert(st1 =~= (ParseState { categories: st.categories.push(e), ..st }));
            assert(st.categories.push(e) + items.drop_first() =~= st.categories + items);
            assert(parse_lines(st, item_lines(items)) =~= (ParseState {
                categories: st.categories + items,
                ..st
            }));
        }
        if st.sec == Section::Projects {
            assert(st1 =~= (ParseState { projects: st.projects.push(e), ..st }));
            assert(st.projects.push(e) + items.drop_first() =~= st.projects + items);
            assert(parse_lines(st, item_lines(items)) =~= (ParseState {
                projects: st.projects + items,
                ..st
            }));
        }
    }
}

proof fn lemma_item_text_clean(line: Seq<u8>)
    requires
        single_line(line),
    ensures
        clean(item_text(trimmed(line))),
{
    lemma_trim_front_single(line);
    lemma_trim_back_single(trim_front(line));
    lemma_strip_front_single(trimmed(line), 45);
    lemma_trimmed_clean(strip_front(trimmed(line), 45));
}

proof fn lemma_parse_step_clean(st: ParseState, line: Seq<u8>)
    requires
        state_clean(st),
        single_line(line),
    ensures
        state_clean(parse_step(st, line)),
{
    lemma_item_text_clean(line);
}

proof fn lemma_parse_lines_clean(st: ParseState, lines: Seq<Seq<u8>>)
    requires
        state_clean(st),
        forall|k: int| 0 <= k < lines.len() ==> single_line(#[trigger] lines[k]),
    ensures
        state_clean(parse_lines(st, lines)),
    decreases lines.len(),
{
    if lines.len() > 0 {
        lemma_parse_step_clean(st, lines[0]);
        assert(forall|k: int|
            0 <= k < lines.drop_first().len() ==> single_line(#[trigger] lines.drop_first()[k]));
        lemma_parse_lines_clean(parse_step(st, lines[0]), lines.drop_first());
    }
}

/// Every item a parse collects, and its log-file path, is clean: trimmed on
/// both sides and free of line feeds.
pub proof fn lemma_parse_doc_clean(text: Seq<u8>)
    ensures
        state_clean(parse_doc(text)),
{
    lemma_lines_of_no_nl(text);
    lemma_parse_lines_clean(parse_init(), lines_of(text));
}

proof fn lemma_dash_line_single(e: Seq<u8>)
    requires
        single_line(e),
    ensures
        single_line(dash_line(e)),
{
    let d = dash_line(e);
    assert forall|i: int| 0 <= i < d.len() implies d[i] != nl() by {
        if i >= 2 {
            assert(d[i] == e[i - 2]);
        }
    }
}

proof fn lemma_lines_of_items_then(items: Seq<Seq<u8>>, rest: Seq<u8>)
    requires
        forall|k: int| 0 <= k < items.len() ==> clean(#[trigger] items[k]),
    ensures
        lines_of(render_items(items) + rest) == item_lines(items) + lines_of(rest),
    decreases items.len(),
{
    if items.len() == 0 {
        assert(render_items(items) + rest =~= rest);
        assert(item_lines(items) + lines_of(rest) =~= lines_of(rest));
    } else {
        let e = items[0];
        assert(clean(e));
        lemma_dash_line_single(e);
        assert(render_items(items) + rest =~= dash_line(e) + seq![nl()] + (render_items(
            items.drop_first(),
        ) + rest));
        lemma_lines_of_prefix(dash_line(e), render_items(items.drop_first()) + rest);
        assert(forall|k: int|
            0 <= k < items.drop_first().len() ==> clean(#[trigger] items.drop_first()[k]));
        lemma_lines_of_items_then(items.drop_first(), rest);
        assert(item_lines(items) =~= seq![dash_line(e)] + item_lines(items.drop_first()));
        assert(lines_of(render_items(items) + rest) =~= item_lines(items) + lines_of(rest));
    }
}

proof fn lemma_titles_clean()
    ensures
        clean(title_categories()),
        clean(title_projects()),
        clean(title_log_file()),
{
}

proof fn lemma_header_line_single(title: Seq<u8>)
    requires
        single_line(title),
    ensures
        single_line(header_line(title)),
{
    let h = header_line(title);
    assert forall|i: int| 0 <= i < h.len() implies h[i] != nl() by {
        if i >= 3 {
            assert(h[i] == title[i - 3]);
        }
    }
}

/// Law: rendering a configuration of clean entries and parsing the document
/// back yields exactly that configuration.
pub proof fn lemma_parse_render_round_trip(m: ConfigModel)
    requires
        forall|k: int| 0 <= k < m.categories.len() ==> clean(#[trigger] m.categories[k]),
        forall|k: int| 0 <= k < m.projects.len() ==> clean(#[trigger] m.projects[k]),
        clean(m.log_file),
    ensures
        config_of(parse_doc(render_doc(m))) == m,
{
    let text = render_doc(m);
    let hc = header_line(title_categories());
    let hp = header_line(title_projects());
    let hl = header_line(title_log_file());
    let dl = dash_line(m.log_file);
    let blank = Seq::<u8>::empty();
    lemma_titles_clean();
    lemma_header_line_single(title_categories());
    lemma_header_line_single(title_projects());
    lemma_header_line_single(title_log_file());
    lemma_dash_line_single(m.log_file);

    // The rendered text splits into exactly the lines the renderer wrote.
    let t6 = hl + seq![nl()] + dl;
    let t5 = seq![nl()] + t6;
    let t4 = render_items(m.projects) + t5;
    let t3 = hp + seq![nl()] + t4;
    let t2 = seq![nl()] + t3;
    let t1 = render_items(m.categories) + t2;
    assert(text =~= hc + seq![nl()] + t1);
    lemma_lines_of_prefix(hc, t1);
    lemma_lines_of_items_then(m.categories, t2);
    assert(t2 =~= blank + seq![nl()] + t3);
    lemma_lines_of_prefix(blank, t3);
    lemma_lines_of_prefix(hp, t4);
    lemma_lines_of_items_then(m.projects, t5);
    assert(t5 =~= blank + seq![nl()] + t6);
    lemma_lines_of_prefix(blank, t6);
    lemma_lines_of_prefix(hl, dl);
    lemma_lines_of_single(dl);
    let l8 = seq![dl];
    let l7 = seq![hl] + l8;
    let l6 = seq![blank] + l7;
    let l5 = item_lines(m.projects) + l6;
    let l4 = seq![hp] + l5;
    let l3 = seq![blank] + l4;
    let l2 = item_lines(m.categories) + l3;
    let ls = seq![hc] + l2;
    assert(lines_of(text) =~= ls);

    // Folding the parser over those lines collects exactly the entries.
    lemma_section_of_titles();
    let st0 = parse_init();
    lemma_parse_lines_append(st0, seq![hc], l2);
    lemma_parse_lines_one(st0, hc);
    lemma_header_line_form(title_categories());
    let st1 = parse_step(st0, hc);
    assert(st1 =~= (ParseState { sec: Section::Categories, ..st0 }));
    lemma_parse_lines_append(st1, item_lines(m.categories), l3);
    lemma_parse_items_in_section(st1, m.categories);
    let st2 = parse_lines(st1, item_lines(m.categories));
    assert(st2.categories =~= m.categories);
    lemma_parse_lines_append(st2, seq![blank], l4);
    lemma_parse_lines_one(st2, blank);
    lemma_step_blank(st2);
    lemma_parse_lines_append(st2, seq![hp], l5);
    lemma_parse_lines_one(st2, hp);
    lemma_header_line_form(title_projects());
    let st3 = parse_step(st2, hp);
    assert(st3 =~= (ParseState { sec: Section::Projects, ..st2 }));
    lemma_parse_lines_append(st3, item_lines(m.projects), l6);
    lemma_parse_items_in_section(st3, m.projects);
    let st4 = parse_lines(st3, item_lines(m.projects));
    assert(st4.projects =~= m.projects);
    assert(st4.categories =~= m.categories);
    lemma_parse_lines_append(st4, seq![blank], l7);
    lemma_parse_lines_one(st4, blank);
    lemma_step_blank(st4);
    lemma_parse_lines_append(st4, seq![hl], l8);
    lemma_parse_lines_one(st4, hl);
    lemma_header_line_form(title_log_file());
    let st5 = parse_step(st4, hl);
    assert(st5 =~= (ParseState { sec: Section::LogFile, ..st4 }));
    lemma_parse_lines_one(st5, dl);
    lemma_dash_line_form(m.log_file);
    assert(st5.log_file.len() == 0);
    let st6 = parse_step(st5, dl);
    assert(st6.log_file == m.log_file);
    assert(parse_lines(st5, l8) == st6);
    assert(parse_doc(text) == st6);
    assert(config_of(st6) =~= m);
}

proof fn lemma_defaults_clean()
    ensures
        forall|k: int|
            0 <= k < default_categories_model().len() ==> clean(
                #[trigger] default_categories_model()[k],
            ),
        forall|k: int|
            0 <= k < default_projects_model().len() ==> clean(
                #[trigger] default_projects_model()[k],
            ),
        clean(default_log_file_model()),
{
    assert(clean(default_categories_model()[0]));
    assert(clean(default_categories_model()[1]));
    assert(clean(default_categories_model()[2]));
    assert(clean(default_categories_model()[3]));
    assert(clean(default_projects_model()[0]));
    assert(clean(default_projects_model()[1]));
    assert(clean(default_projects_model()[2]));
}

/// Law: saving what was loaded and loading again yields the same categories,
/// projects, and log-file path as the first load, whatever document the first
/// load read — and likewise when it read none.
pub proof fn lemma_save_load_round_trip(doc: Option<Seq<u8>>)
    ensures
        load_result(Option::Some(render_doc(load_result(doc)))) == load_result(doc),
{
    let m = load_result(doc);
    lemma_defaults_clean();
    if doc is Some {
        lemma_parse_doc_clean(doc->Some_0);
    }
    assert(forall|k: int| 0 <= k < m.categories.len() ==> clean(#[trigger] m.categories[k]));
    assert(forall|k: int| 0 <= k < m.projects.len() ==> clean(#[trigger] m.projects[k]));
    assert(clean(m.log_file));
    lemma_parse_render_round_trip(m);
    assert(m.categories.len() > 0);
    assert(m.projects.len() > 0);
    assert(m.log_file.len() > 0);
    assert(load_result(Option::Some(render_doc(m))) =~= m);
}

proof fn lemma_items_in_no_section(st: ParseState, items: Seq<Seq<u8>>)
    requires
        st.sec == Section::NoSection,
    ensures
        parse_lines(st, item_lines(items)) == st,
    decreases items.len(),
{
    if items.len() == 0 {
        assert(item_lines(items) =~= Seq::<Seq<u8>>::empty());
    } else {
        let e = items[0];
        let d = dash_line(e);
        assert(item_lines(items)[0] == d);
        assert(item_lines(items).drop_first() =~= item_lines(items.drop_first()));
        assert(d[0] == 45);
        assert(trim_front(d) == d);
        lemma_trim_back_keeps_head(d);
        let t = trimmed(d);
        assert(t[0] == 45);
        assert(!is_header_line(t));
        assert(parse_step(st, d) == st);
        lemma_items_in_no_section(st, items.drop_first());
    }
}

/// Law: dash items below an unrecognized section header are ignored entirely;
/// they appear in no list, and the parser leaves the active section unset.
pub proof fn lemma_unknown_section_ignored(st: ParseState, header: Seq<u8>, items: Seq<Seq<u8>>)
    requires
        is_header_line(trimmed(header)),
        section_of_header(header_name(trimmed(header))) == Section::NoSection,
    ensures
        parse_lines(parse_step(st, header), item_lines(items)) == (ParseState {
            sec: Section::NoSection,
            ..st
        }),
{
    let st1 = parse_step(st, header);
    assert(st1 =~= (ParseState { sec: Section::NoSection, ..st }));
    lemma_items_in_no_section(st1, items);
}

} // verus!
