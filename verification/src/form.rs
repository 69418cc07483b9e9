//! The form state: the in-progress call-log entry, the loaded category and
//! project lists, and the operations a user action triggers. Every operation
//! is a pure transition here; writing the configuration document and
//! appending to the log file is the caller's side of the bargain, fed by
//! `config_document` and the line `commit` returns.

use vstd::prelude::*;

use crate::bytes::{
    append_bytes, bytes_eq, contains_entry, copy_bytes, lemma_newline_count_append,
    lemma_single_concat, lemma_single_line_count, newline_count, nl, single_line, trim, trimmed,
};
use crate::clock::now_rfc3339;
use crate::config::{render_config, render_doc, Config, ConfigModel};

verus! {

/// The mathematical value of the form state.
#[verifier::ext_equal]
pub struct FormModel {
    pub date: Seq<u8>,
    pub available_categories: Seq<Seq<u8>>,
    pub selected_categories: Seq<Seq<u8>>,
    pub projects: Seq<Seq<u8>>,
    pub selected_project: Seq<u8>,
    pub contact: Seq<u8>,
    pub notes: Seq<u8>,
    pub next_step: Seq<u8>,
    pub status: Seq<u8>,
    pub log_file: Seq<u8>,
}

/// The in-progress entry and the loaded configuration. Fields are bytes of
/// UTF-8 text; the entry is never reset by a commit, so stale text stays
/// until the user clears it.
pub struct FormState {
    pub date: Vec<u8>,
    pub available_categories: Vec<Vec<u8>>,
    pub selected_categories: Vec<Vec<u8>>,
    pub projects: Vec<Vec<u8>>,
    pub selected_project: Vec<u8>,
    pub contact: Vec<u8>,
    pub notes: Vec<u8>,
    pub next_step: Vec<u8>,
    pub status: Vec<u8>,
    pub log_file: Vec<u8>,
}

impl View for FormState {
    type V = FormModel;

    open spec fn view(&self) -> FormModel {
        FormModel {
            date: self.date@,
            available_categories: self.available_categories.deep_view(),
            selected_categories: self.selected_categories.deep_view(),
            projects: self.projects.deep_view(),
            selected_project: self.selected_project@,
            contact: self.contact@,
            notes: self.notes@,
            next_step: self.next_step@,
            status: self.status@,
            log_file: self.log_file@,
        }
    }
}

/// What adding a category does: a blank or known name changes nothing; a new
/// name is appended to the available list and to the selection.
pub open spec fn add_category_step(m: FormModel, t: Seq<u8>) -> FormModel {
    if t.len() > 0 && !m.available_categories.contains(t) {
        FormModel {
            available_categories: m.available_categories.push(t),
            selected_categories: m.selected_categories.push(t),
            ..m
        }
    } else {
        m
    }
}

/// What adding a project does: a blank or known name changes nothing; a new
/// name is appended to the project list and becomes the single selection.
pub open spec fn add_project_step(m: FormModel, t: Seq<u8>) -> FormModel {
    if t.len() > 0 && !m.projects.contains(t) {
        FormModel { projects: m.projects.push(t), selected_project: t, ..m }
    } else {
        m
    }
}

/// What toggling a category does: selecting adds the name to the selection
/// unless it is already there; deselecting removes every occurrence.
pub open spec fn toggle_category_step(m: FormModel, name: Seq<u8>, on: bool) -> FormModel {
    if on {
        if m.selected_categories.contains(name) {
            m
        } else {
            FormModel { selected_categories: m.selected_categories.push(name), ..m }
        }
    } else {
        FormModel { selected_categories: without_name(m.selected_categories, name), ..m }
    }
}

/// `items` with every occurrence of `name` removed, order kept.
pub open spec fn without_name(items: Seq<Seq<u8>>, name: Seq<u8>) -> Seq<Seq<u8>>
    decreases items.len(),
{
    if items.len() == 0 {
        Seq::empty()
    } else {
        let rest = without_name(items.drop_last(), name);
        if items.last() == name {
            rest
        } else {
            rest.push(items.last())
        }
    }
}

/// The selected categories joined with commas.
pub open spec fn join_comma(items: Seq<Seq<u8>>) -> Seq<u8>
    decreases items.len(),
{
    if items.len() == 0 {
        Seq::empty()
    } else if items.len() == 1 {
        items[0]
    } else {
        items[0] + seq![44u8] + join_comma(items.drop_first())
    }
}

/// The field separator of a log line: ` | `.
pub open spec fn field_sep() -> Seq<u8> {
    seq![32u8, 124, 32]
}

/// The one log line a commit of this entry writes: a dash item holding, in
/// fixed order and separated by ` | `, the timestamp, the comma-joined
/// selected categories, the contact and the project each wrapped as a
/// `[[...]]` cross-reference, the notes, and the next step. Field content is
/// written verbatim, unescaped.
pub open spec fn log_line(m: FormModel) -> Seq<u8> {
    seq![45u8, 32, 64] + m.date + field_sep() + seq![35u8] + join_comma(m.selected_categories)
        + field_sep() + seq![91u8, 91] + m.contact + seq![93u8, 93] + field_sep() + seq![91u8, 91]
        + m.selected_project + seq![93u8, 93] + field_sep() + m.notes + field_sep() + seq![62u8]
        + m.next_step
}

/// The status text a commit leaves: `Saved: ` and the line it wrote.
pub open spec fn status_line(line: Seq<u8>) -> Seq<u8> {
    seq![83u8, 97, 118, 101, 100, 58, 32] + line
}

proof fn lemma_join_comma_snoc(items: Seq<Seq<u8>>, x: Seq<u8>)
    ensures
        join_comma(items.push(x)) == if items.len() == 0 {
            x
        } else {
            join_comma(items) + seq![44u8] + x
        },
    decreases items.len(),
{
    if items.len() == 0 {
        assert(items.push(x)[0] == x);
    } else if items.len() == 1 {
        reveal_with_fuel(join_comma, 2);
        assert(items.push(x)[0] == items[0]);
        assert(items.push(x).drop_first() =~= seq![x]);
        assert(join_comma(seq![x]) == x);
        assert(join_comma(items) == items[0]);
    } else {
        assert(items.push(x)[0] == items[0]);
        assert(items.push(x).drop_first() =~= items.drop_first().push(x));
        lemma_join_comma_snoc(items.drop_first(), x);
        assert(join_comma(items.push(x)) =~= join_comma(items) + seq![44u8] + x);
    }
}

/// The selected categories joined with commas, as bytes.
fn join_comma_bytes(items: &Vec<Vec<u8>>) -> (r: Vec<u8>)
    ensures
        r@ == join_comma(items.deep_view()),
{
    let n = items.len();
    let mut r: Vec<u8> = Vec::new();
    let mut i: usize = 0;
    proof {
        assert(items.deep_view().take(0) =~= Seq::<Seq<u8>>::empty());
    }
    while i < n
        invariant
            i <= n,
            n == items.len(),
            r@ == join_comma(items.deep_view().take(i as int)),
        decreases n - i,
    {
        proof {
            assert(items.deep_view()[i as int] =~= items@[i as int]@);
            assert(items.deep_view().take(i + 1 as int) =~= items.deep_view().take(
                i as int,
            ).push(items.deep_view()[i as int]));
            lemma_join_comma_snoc(items.deep_view().take(i as int), items.deep_view()[i as int]);
        }
        if i > 0 {
            r.push(44);
        }
        append_bytes(&mut r, &items[i]);
        proof {
            assert(r@ =~= join_comma(items.deep_view().take(i + 1 as int)));
        }
        i = i + 1;
    }
    proof {
        assert(items.deep_view().take(n as int) =~= items.deep_view());
    }
    r
}

impl FormState {
    /// A fresh form over a loaded configuration: the current time as the
    /// timestamp, nothing selected, every text field empty.
    pub fn new(config: Config) -> (s: FormState)
        ensures
            s@.available_categories == config@.categories,
            s@.projects == config@.projects,
            s@.log_file == config@.log_file,
            s@.date.len() > 0,
            s@.selected_categories == Seq::<Seq<u8>>::empty(),
            s@.selected_project == Seq::<u8>::empty(),
            s@.contact == Seq::<u8>::empty(),
            s@.notes == Seq::<u8>::empty(),
            s@.next_step == Seq::<u8>::empty(),
            s@.status == Seq::<u8>::empty(),
    {
        let s = FormState {
            date: now_rfc3339(),
            available_categories: config.categories,
            selected_categories: Vec::new(),
            projects: config.projects,
            selected_project: Vec::new(),
            contact: Vec::new(),
            notes: Vec::new(),
            next_step: Vec::new(),
            status: Vec::new(),
            log_file: config.log_file,
        };
        proof {
            assert(s@.selected_categories =~= Seq::<Seq<u8>>::empty());
        }
        s
    }

    /// Adds a category: the trimmed name, when it is neither blank nor
    /// already available, is appended to the available list and selected;
    /// otherwise nothing changes. A true result is the caller's cue to save
    /// the configuration.
    pub fn add_category(&mut self, name: &Vec<u8>) -> (added: bool)
        ensures
            added == ({
                let t = trimmed(name@);
                t.len() > 0 && !old(self)@.available_categories.contains(t)
            }),
            final(self)@ == add_category_step(old(self)@, trimmed(name@)),
    {
        let t = trim(name);
        if t.len() > 0 && !contains_entry(&self.available_categories, &t) {
            let ghost pre_avail = self.available_categories.deep_view();
            let ghost pre_sel = self.selected_categories.deep_view();
            let t2 = copy_bytes(&t);
            self.available_categories.push(t);
            self.selected_categories.push(t2);
            proof {
                assert(self.available_categories.deep_view() =~~= pre_avail.push(trimmed(name@)));
                assert(self.selected_categories.deep_view() =~~= pre_sel.push(trimmed(name@)));
                assert(self@ =~= add_category_step(old(self)@, trimmed(name@)));
            }
            true
        } else {
            proof {
                assert(self@ =~= add_category_step(old(self)@, trimmed(name@)));
            }
            false
        }
    }

    /// Adds a project: the trimmed name, when it is neither blank nor already
    /// known, is appended to the project list and becomes the selection;
    /// otherwise nothing changes. A true result is the caller's cue to save
    /// the configuration.
    pub fn add_project(&mut self, name: &Vec<u8>) -> (added: bool)
        ensures
            added == ({
                let t = trimmed(name@);
                t.len() > 0 && !old(self)@.projects.contains(t)
            }),
            final(self)@ == add_project_step(old(self)@, trimmed(name@)),
    {
        let t = trim(name);
        if t.len() > 0 && !contains_entry(&self.projects, &t) {
            let ghost pre = self.projects.deep_view();
            let t2 = copy_bytes(&t);
            self.projects.push(t);
            self.selected_project = t2;
            proof {
                assert(self.projects.deep_view() =~~= pre.push(trimmed(name@)));
                assert(self@ =~= add_project_step(old(self)@, trimmed(name@)));
            }
            true
        } else {
            proof {
                assert(self@ =~= add_project_step(old(self)@, trimmed(name@)));
            }
            false
        }
    }

    /// Toggles a category in the current entry's selection; the available
    /// list and the configuration are untouched.
    pub fn toggle_category(&mut self, name: &Vec<u8>, on: bool)
        ensures
            final(self)@ == toggle_category_step(old(self)@, name@, on),
    {
        if on {
            if !contains_entry(&self.selected_categories, name) {
                let ghost pre = self.selected_categories.deep_view();
                let n2 = copy_bytes(name);
                self.selected_categories.push(n2);
                proof {
                    assert(self.selected_categories.deep_view() =~~= pre.push(name@));
                    assert(self@ =~= toggle_category_step(old(self)@, name@, on));
                }
            } else {
                proof {
                    assert(self@ =~= toggle_category_step(old(self)@, name@, on));
                }
            }
        } else {
            let ghost dv = self.selected_categories.deep_view();
            let n = self.selected_categories.len();
            let mut kept: Vec<Vec<u8>> = Vec::new();
            let mut i: usize = 0;
            proof {
                assert(dv.take(0) =~= Seq::<Seq<u8>>::empty());
                assert(kept.deep_view() =~= without_name(dv.take(0), name@));
            }
            while i < n
                invariant
                    i <= n,
                    n == self.selected_categories.len(),
                    self.selected_categories.deep_view() == dv,
                    kept.deep_view() == without_name(dv.take(i as int), name@),
                decreases n - i,
            {
                proof {
                    assert(dv[i as int] =~= self.selected_categories@[i as int]@);
                    assert(dv.take(i + 1 as int).drop_last() =~= dv.take(i as int));
                    assert(dv.take(i + 1 as int).last() == dv[i as int]);
                }
                let keep = !bytes_eq(&self.selected_categories[i], name);
                if keep {
                    let ghost pre = kept.deep_view();
                    let e = copy_bytes(&self.selected_categories[i]);
                    kept.push(e);
                    proof {
                        assert(kept.deep_view() =~~= pre.push(dv[i as int]));
                        assert(without_name(dv.take(i + 1 as int), name@) =~= kept.deep_view());
                    }
                } else {
                    proof {
                        assert(without_name(dv.take(i + 1 as int), name@) =~= kept.deep_view());
                    }
                }
                i = i + 1;
            }
            proof {
                assert(dv.take(n as int) =~= dv);
            }
            self.selected_categories = kept;
            proof {
                assert(self@ =~= toggle_category_step(old(self)@, name@, on));
            }
        }
    }

    /// Selects a project as the single selection; the project list and the
    /// configuration are untouched.
    pub fn select_project(&mut self, name: &Vec<u8>)
        ensures
            final(self)@ == (FormModel { selected_project: name@, ..old(self)@ }),
    {
        self.selected_project = copy_bytes(name);
        proof {
            assert(self@ =~= (FormModel { selected_project: name@, ..old(self)@ }));
        }
    }

    /// Overwrites the timestamp with the current local time in RFC 3339
    /// form; every other field is untouched.
    pub fn set_now(&mut self)
        ensures
            final(self)@.date.len() > 0,
            final(self)@ == (FormModel { date: final(self)@.date, ..old(self)@ }),
    {
        self.date = now_rfc3339();
        proof {
            assert(self@ =~= (FormModel { date: self@.date, ..old(self)@ }));
        }
    }

    /// The configuration this form would save: its document text. The caller
    /// writes it to disk wholesale after any operation that returned true,
    /// and on every commit.
    pub fn config_document(&self) -> (out: Vec<u8>)
        ensures
            out@ == render_doc(
                ConfigModel {
                    categories: self@.available_categories,
                    projects: self@.projects,
                    log_file: self@.log_file,
                },
            ),
    {
        let categories = clone_entries(&self.available_categories);
        let projects = clone_entries(&self.projects);
        let log_file = copy_bytes(&self.log_file);
        let c = Config { categories, projects, log_file };
        proof {
            assert(c@ =~= (ConfigModel {
                categories: self@.available_categories,
                projects: self@.projects,
                log_file: self@.log_file,
            }));
        }
        render_config(&c)
    }

    /// Commits the entry: returns the one log line the caller appends (with
    /// a terminator) to the log file, and records the status text echoing
    /// it. No field of the entry is cleared — consecutive commits keep the
    /// accumulated text.
    pub fn commit(&mut self) -> (line: Vec<u8>)
        ensures
            line@ == log_line(old(self)@),
            final(self)@ == (FormModel { status: status_line(log_line(old(self)@)), ..old(self)@ }),
    {
        let mut line: Vec<u8> = Vec::new();
        line.push(45);
        line.push(32);
        line.push(64);
        append_bytes(&mut line, &self.date);
        push_sep(&mut line);
        line.push(35);
        let cats = join_comma_bytes(&self.selected_categories);
        append_bytes(&mut line, &cats);
        push_sep(&mut line);
        line.push(91);
        line.push(91);
        append_bytes(&mut line, &self.contact);
        line.push(93);
        line.push(93);
        push_sep(&mut line);
        line.push(91);
        line.push(91);
        append_bytes(&mut line, &self.selected_project);
        line.push(93);
        line.push(93);
        push_sep(&mut line);
        append_bytes(&mut line, &self.notes);
        push_sep(&mut line);
        line.push(62);
        append_bytes(&mut line, &self.next_step);
        proof {
            assert(line@ =~= log_line(old(self)@));
        }
        let mut status: Vec<u8> = Vec::new();
        status.push(83);
        status.push(97);
        status.push(118);
        status.push(101);
        status.push(100);
        status.push(58);
        status.push(32);
        append_bytes(&mut status, &line);
        proof {
            assert(status@ =~= status_line(log_line(old(self)@)));
        }
        self.status = status;
        proof {
            assert(self@ =~= (FormModel { status: status_line(log_line(old(self)@)), ..old(self)@ }));
        }
        line
    }
}

/// Appends the ` | ` field separator.
fn push_sep(line: &mut Vec<u8>)
    ensures
        final(line)@ == old(line)@ + field_sep(),
{
    line.push(32);
    line.push(124);
    line.push(32);
    proof {
        assert(line@ =~= old(line)@ + field_sep());
    }
}

/// A copy of a list of byte strings.
fn clone_entries(list: &Vec<Vec<u8>>) -> (r: Vec<Vec<u8>>)
    ensures
        r.deep_view() == list.deep_view(),
{
    let n = list.len();
    let mut r: Vec<Vec<u8>> = Vec::new();
    let mut i: usize = 0;
    proof {
        assert(r.deep_view() =~= list.deep_view().take(0));
    }
    while i < n
        invariant
            i <= n,
            n == list.len(),
            r.deep_view() == list.deep_view().take(i as int),
        decreases n - i,
    {
        let ghost pre = r.deep_view();
        let e = copy_bytes(&list[i]);
        r.push(e);
        proof {
            assert(list.deep_view()[i as int] =~= list@[i as int]@);
            assert(r.deep_view() =~~= pre.push(list.deep_view()[i as int]));
            assert(r.deep_view() =~= list.deep_view().take(i + 1 as int));
        }
        i = i + 1;
    }
    proof {
        assert(list.deep_view().take(n as int) =~= list.deep_view());
    }
    r
}

/// Appends `line` and its terminator to a log held as bytes: what one commit
/// does to the log file's content.
pub fn append_record(log: &mut Vec<u8>, line: &Vec<u8>)
    ensures
        final(log)@ == old(log)@ + line@ + seq![nl()],
{
    append_bytes(log, line);
    log.push(10);
    proof {
        assert(log@ =~= old(log)@ + line@ + seq![nl()]);
    }
}

/// Law: adding a new category appends it to the available list and to the
/// selection exactly once; adding the same name again changes nothing at
/// all — in particular no duplicate appears, and the name stays selected.
pub proof fn lemma_add_category_twice(m: FormModel, t: Seq<u8>)
    requires
        t.len() > 0,
        !m.available_categories.contains(t),
    ensures
        ({
            let m1 = add_category_step(m, t);
            &&& m1.available_categories == m.available_categories.push(t)
            &&& m1.selected_categories == m.selected_categories.push(t)
            &&& m1.available_categories.contains(t)
            &&& m1.selected_categories.contains(t)
            &&& add_category_step(m1, t) == m1
        }),
{
    let m1 = add_category_step(m, t);
    assert(m1.available_categories[m.available_categories.len() as int] == t);
    assert(m1.selected_categories[m.selected_categories.len() as int] == t);
}

/// Law: each commit appends exactly one line to the log: appending a record
/// whose line holds no line feed raises the log's line count by one, and the
/// log grows only at its end, so records stay in call order.
pub proof fn lemma_record_adds_one_line(log: Seq<u8>, line: Seq<u8>)
    requires
        single_line(line),
    ensures
        newline_count(log + line + seq![nl()]) == newline_count(log) + 1,
{
    lemma_newline_count_append(log, line);
    lemma_newline_count_append(log + line, seq![nl()]);
    lemma_single_line_count(line);
    reveal_with_fuel(newline_count, 2);
    assert(seq![nl()].drop_last() =~= Seq::<u8>::empty());
    assert(newline_count(seq![nl()]) == 1);
    assert((log + line) + seq![nl()] =~= log + line + seq![nl()]);
}

proof fn lemma_join_comma_single(items: Seq<Seq<u8>>)
    requires
        forall|k: int| 0 <= k < items.len() ==> single_line(#[trigger] items[k]),
    ensures
        single_line(join_comma(items)),
    decreases items.len(),
{
    if items.len() == 0 {
    } else if items.len() == 1 {
        assert(single_line(items[0]));
    } else {
        assert(forall|k: int|
            0 <= k < items.drop_first().len() ==> single_line(#[trigger] items.drop_first()[k]));
        lemma_join_comma_single(items.drop_first());
        lemma_single_concat(items[0], seq![44u8]);
        lemma_single_concat(items[0] + seq![44u8], join_comma(items.drop_first()));
    }
}

/// A commit's line holds no line feed whenever every entry field is a single
/// line; with `lemma_record_adds_one_line`, each such commit adds exactly
/// one line to the log.
pub proof fn lemma_log_line_single(m: FormModel)
    requires
        single_line(m.date),
        forall|k: int|
            0 <= k < m.selected_categories.len() ==> single_line(#[trigger] m.selected_categories[k]),
        single_line(m.contact),
        single_line(m.selected_project),
        single_line(m.notes),
        single_line(m.next_step),
    ensures
        single_line(log_line(m)),
{
    lemma_join_comma_single(m.selected_categories);
    let a1 = seq![45u8, 32, 64] + m.date;
    lemma_single_concat(seq![45u8, 32, 64], m.date);
    let a2 = a1 + field_sep();
    lemma_single_concat(a1, field_sep());
    let a3 = a2 + seq![35u8];
    lemma_single_concat(a2, seq![35u8]);
    let a4 = a3 + join_comma(m.selected_categories);
    lemma_single_concat(a3, join_comma(m.selected_categories));
    let a5 = a4 + field_sep();
    lemma_single_concat(a4, field_sep());
    let a6 = a5 + seq![91u8, 91];
    lemma_single_concat(a5, seq![91u8, 91]);
    let a7 = a6 + m.contact;
    lemma_single_concat(a6, m.contact);
    let a8 = a7 + seq![93u8, 93];
    lemma_single_concat(a7, seq![93u8, 93]);
    let a9 = a8 + field_sep();
    lemma_single_concat(a8, field_sep());
    let a10 = a9 + seq![91u8, 91];
    lemma_single_concat(a9, seq![91u8, 91]);
    let a11 = a10 + m.selected_project;
    lemma_single_concat(a10, m.selected_project);
    let a12 = a11 + seq![93u8, 93];
    lemma_single_concat(a11, seq![93u8, 93]);
    let a13 = a12 + field_sep();
    lemma_single_concat(a12, field_sep());
    let a14 = a13 + m.notes;
    lemma_single_concat(a13, m.notes);
    let a15 = a14 + field_sep();
    lemma_single_concat(a14, field_sep());
    let a16 = a15 + seq![62u8];
    lemma_single_concat(a15, seq![62u8]);
    let a17 = a16 + m.next_step;
    lemma_single_concat(a16, m.next_step);
    assert(log_line(m) == a17);
}

} // verus!
