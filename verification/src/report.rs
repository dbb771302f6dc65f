//! Report summarising a diff: counts per class, the first drifted questions,
//! and whether any class named in the fail-on list is present; and its
//! rendering as text.
use vstd::prelude::*;

use crate::diff::{DiffClass, DiffRow, class_name, class_named};
use crate::text::{
    append_decimal, append_joined, append_padded, append_text, decimal_spec, join_spec, pad_spec,
    is_space, split, split_spec, text_lt, texts, trim, trim_spec, trim_start_spec,
};

verus! {

/// Configuration for the report: the drift classes that make it fail.
#[derive(Debug)]
pub struct ReportConfig {
    /// Drift classes that should cause a non-zero exit.
    pub fail_on: Vec<DiffClass>,
}

impl Default for ReportConfig {
    /// No class makes the report fail.
    fn default() -> (r: Self)
        ensures
            r.fail_on@.len() == 0,
    {
        ReportConfig { fail_on: Vec::new() }
    }
}

/// A fail-on list named a class that does not exist.
#[derive(Debug)]
pub struct UnknownClass {
    /// The offending name, trimmed.
    pub name: String,
}

impl UnknownClass {
    /// The error's message.
    pub fn message(&self) -> (m: String)
        ensures
            m@ == "unknown drift class: "@ + self.name@,
    {
        let mut m = String::from_str("unknown drift class: ");
        append_text(&mut m, self.name.as_str());
        m
    }
}

/// The classes named by `parts`, each trimmed; or the first part, trimmed,
/// that names no class.
pub open spec fn parse_classes(parts: Seq<Seq<char>>) -> Result<Seq<DiffClass>, Seq<char>>
    decreases parts.len(),
{
    if parts.len() == 0 {
        Ok(Seq::empty())
    } else {
        match class_named(trim_spec(parts[0])) {
            None => Err(trim_spec(parts[0])),
            Some(c) => match parse_classes(parts.drop_first()) {
                Ok(cs) => Ok(seq![c] + cs),
                Err(e) => Err(e),
            },
        }
    }
}

/// The fail-on list written as `s`: no class when `s` is empty, otherwise
/// the classes named by its comma-separated parts.
pub open spec fn fail_on_spec(s: Seq<char>) -> Result<Seq<DiffClass>, Seq<char>> {
    if s.len() == 0 {
        Ok(Seq::empty())
    } else {
        parse_classes(split_spec(s, ','))
    }
}

/// `done` followed by the outcome `rest`.
pub open spec fn after(done: Seq<DiffClass>, rest: Result<Seq<DiffClass>, Seq<char>>) -> Result<
    Seq<DiffClass>,
    Seq<char>,
> {
    match rest {
        Ok(cs) => Ok(done + cs),
        Err(e) => Err(e),
    }
}

impl ReportConfig {
    /// Parse a comma-separated list of class names.
    pub fn parse_fail_on(s: &str) -> (res: Result<Vec<DiffClass>, UnknownClass>)
        ensures
            res matches Ok(v) ==> fail_on_spec(s@) == Ok::<Seq<DiffClass>, Seq<char>>(v@),
            res matches Err(e) ==> fail_on_spec(s@) == Err::<Seq<DiffClass>, Seq<char>>(e.name@),
    {
        if s.is_empty() {
            return Ok(Vec::new());
        }
        let parts = split(s, ',');
        let ghost ps = texts(parts@);
        let mut out: Vec<DiffClass> = Vec::new();
        let mut i: usize = 0;
        assert(ps.skip(0) == ps);
        assert(out@ + Seq::<DiffClass>::empty() == out@);
        while i < parts.len()
            invariant
                i <= parts.len(),
                ps == texts(parts@),
                ps == split_spec(s@, ','),
                s@.len() > 0,
                after(out@, parse_classes(ps.skip(i as int))) == parse_classes(ps),
            decreases parts.len() - i,
        {
            let t = trim(parts[i].as_str());
            let ghost rest = ps.skip(i as int);
            assert(rest[0] == parts@[i as int]@);
            assert(rest.drop_first() == ps.skip(i + 1));
            match DiffClass::from_name(t.as_str()) {
                None => {
                    return Err(UnknownClass { name: t });
                },
                Some(c) => {
                    proof {
                        match parse_classes(ps.skip(i + 1)) {
                            Ok(cs) => {
                                assert(out@ + (seq![c] + cs) == out@.push(c) + cs);
                            },
                            Err(_) => {},
                        }
                    }
                    out.push(c);
                },
            }
            i = i + 1;
        }
        assert(ps.skip(parts.len() as int) == Seq::<Seq<char>>::empty());
        assert(out@ + Seq::<DiffClass>::empty() == out@);
        Ok(out)
    }
}

/// The class counts of a report, by class name: (name, count) entries whose
/// names are distinct and in increasing string order.
#[derive(Debug)]
pub struct ClassCounts {
    entries: Vec<(String, usize)>,
}

/// The entries' names are in strictly increasing string order (so no name
/// occurs twice).
pub open spec fn keys_increasing(e: Seq<(Seq<char>, nat)>) -> bool {
    forall|i: int, j: int| 0 <= i < j < e.len() ==> text_lt((#[trigger] e[i]).0, (#[trigger] e[j]).0)
}

/// The count that `entries` gives `key`: that of its first entry named
/// `key`.
pub open spec fn first_count(entries: Seq<(Seq<char>, nat)>, key: Seq<char>) -> Option<nat>
    decreases entries.len(),
{
    if entries.len() == 0 {
        None
    } else if entries[0].0 == key {
        Some(entries[0].1)
    } else {
        first_count(entries.drop_first(), key)
    }
}

/// The count that `entries` gives `key`, zero when none.
pub open spec fn count_or_zero(entries: Seq<(Seq<char>, nat)>, key: Seq<char>) -> nat {
    match first_count(entries, key) {
        Some(n) => n,
        None => 0,
    }
}

/// The entries as (name, count) pairs.
pub open spec fn entry_views(v: Seq<(String, usize)>) -> Seq<(Seq<char>, nat)> {
    v.map_values(|e: (String, usize)| (e.0@, e.1 as nat))
}

proof fn lemma_first_count(entries: Seq<(Seq<char>, nat)>, key: Seq<char>, i: int)
    requires
        0 <= i <= entries.len(),
        forall|k: int| 0 <= k < i ==> (#[trigger] entries[k]).0 != key,
    ensures
        i < entries.len() && entries[i].0 == key ==> first_count(entries, key) == Some(
            entries[i].1,
        ),
        i == entries.len() ==> first_count(entries, key) is None,
    decreases i,
{
    if i > 0 {
        let rest = entries.drop_first();
        assert forall|k: int| 0 <= k < i - 1 implies (#[trigger] rest[k]).0 != key by {
            assert(rest[k] == entries[k + 1]);
        }
        lemma_first_count(rest, key, i - 1);
    }
}

impl View for ClassCounts {
    type V = Seq<(Seq<char>, nat)>;

    closed spec fn view(&self) -> Seq<(Seq<char>, nat)> {
        entry_views(self.entries@)
    }
}

impl ClassCounts {
    #[verifier::type_invariant]
    closed spec fn keys_sorted(&self) -> bool {
        keys_increasing(entry_views(self.entries@))
    }

    /// Counts from (name, count) entries, when their names are in strictly
    /// increasing string order; `None` otherwise.
    pub fn from_sorted(entries: Vec<(String, usize)>) -> (r: Option<ClassCounts>)
        ensures
            r is Some <==> keys_increasing(entry_views(entries@)),
            r matches Some(c) ==> c@ == entry_views(entries@),
    {
        let ghost ev = entry_views(entries@);
        let n = entries.len();
        let mut i: usize = 0;
        while i < n
            invariant
                i <= n == entries@.len(),
                ev == entry_views(entries@),
                forall|a: int, b: int| 0 <= a < b < n && a < i ==> text_lt(
                    (#[trigger] ev[a]).0,
                    (#[trigger] ev[b]).0,
                ),
            decreases n - i,
        {
            let mut j: usize = i + 1;
            while j < n
                invariant
                    i < n == entries@.len(),
                    i + 1 <= j <= n,
                    ev == entry_views(entries@),
                    forall|a: int, b: int| 0 <= a < b < n && a < i ==> text_lt(
                        (#[trigger] ev[a]).0,
                        (#[trigger] ev[b]).0,
                    ),
                    forall|b: int| i < b < j ==> text_lt(ev[i as int].0, (#[trigger] ev[b]).0),
                decreases n - j,
            {
                if !crate::text::text_less(entries[i].0.as_str(), entries[j].0.as_str()) {
                    assert(!keys_increasing(ev)) by {
                        assert(ev[i as int].0 == entries@[i as int].0@);
                        assert(ev[j as int].0 == entries@[j as int].0@);
                    }
                    return None;
                }
                j = j + 1;
            }
            i = i + 1;
        }
        Some(ClassCounts { entries })
    }

    /// The (name, count) entries, in increasing name order.
    pub fn entries(&self) -> (r: &Vec<(String, usize)>)
        ensures
            entry_views(r@) == self@,
            keys_increasing(self@),
    {
        proof {
            use_type_invariant(self);
        }
        &self.entries
    }

    /// The count recorded for class name `name`, if any.
    pub fn get(&self, name: &str) -> (r: Option<&usize>)
        ensures
            match r {
                Some(n) => first_count(self@, name@) == Some(*n as nat),
                None => first_count(self@, name@) is None,
            },
    {
        let ghost ev = entry_views(self.entries@);
        let mut i: usize = 0;
        while i < self.entries.len()
            invariant
                i <= self.entries.len(),
                ev == entry_views(self.entries@),
                forall|k: int| 0 <= k < i ==> (#[trigger] ev[k]).0 != name@,
            decreases self.entries.len() - i,
        {
            if crate::text::same_text(self.entries[i].0.as_str(), name) {
                proof {
                    lemma_first_count(ev, name@, i as int);
                }
                return Some(&self.entries[i].1);
            }
            i = i + 1;
        }
        proof {
            lemma_first_count(ev, name@, i as int);
        }
        None
    }

    /// The count recorded for class name `name`, zero when none.
    pub fn count_of_name(&self, name: &str) -> (n: usize)
        ensures
            n == count_or_zero(self@, name@),
    {
        match self.get(name) {
            Some(n) => *n,
            None => 0,
        }
    }
}

/// A drifted question and the name of its class.
#[derive(Debug)]
pub struct WorstOffender {
    pub question: String,
    pub class: String,
}

/// Summary of a diff run.
#[derive(Debug)]
pub struct ReportSummary {
    /// Total questions replayed.
    pub total: usize,
    /// Counts per drift class, in class-name order.
    pub counts: ClassCounts,
    /// The worst offenders (first 10 drifted questions with their class).
    pub worst: Vec<WorstOffender>,
    /// Whether the report should exit non-zero.
    pub should_fail: bool,
    /// Which classes triggered the failure.
    pub failing_classes: Vec<String>,
}

/// The mathematical content of a report summary.
pub struct ReportView {
    pub total: nat,
    pub counts: Seq<(Seq<char>, nat)>,
    pub worst: Seq<(Seq<char>, Seq<char>)>,
    pub should_fail: bool,
    pub failing_classes: Seq<Seq<char>>,
}

/// The offenders as (question, class name) pairs.
pub open spec fn offender_views(v: Seq<WorstOffender>) -> Seq<(Seq<char>, Seq<char>)> {
    v.map_values(|w: WorstOffender| (w.question@, w.class@))
}

impl View for ReportSummary {
    type V = ReportView;

    open spec fn view(&self) -> ReportView {
        ReportView {
            total: self.total as nat,
            counts: self.counts@,
            worst: offender_views(self.worst@),
            should_fail: self.should_fail,
            failing_classes: texts(self.failing_classes@),
        }
    }
}

/// The classes of the rows, in order.
pub open spec fn row_classes(rows: Seq<DiffRow>) -> Seq<DiffClass> {
    rows.map_values(|r: DiffRow| r.class)
}

/// How many of `classes` are `c`.
pub open spec fn count_of(classes: Seq<DiffClass>, c: DiffClass) -> nat
    decreases classes.len(),
{
    if classes.len() == 0 {
        0
    } else {
        count_of(classes.drop_last(), c) + if classes.last() == c {
            1nat
        } else {
            0nat
        }
    }
}

/// The classes in the order of their names.
pub open spec fn name_order() -> Seq<DiffClass> {
    seq![
        DiffClass::BindDrift,
        DiffClass::OutcomeDrift,
        DiffClass::PlanDrift,
        DiffClass::Unchanged,
        DiffClass::ValueDrift,
    ]
}

/// The (name, count) entries of the classes of `order` that occur in
/// `classes`, in the order of `order`.
pub open spec fn count_entries(order: Seq<DiffClass>, classes: Seq<DiffClass>) -> Seq<
    (Seq<char>, nat),
>
    decreases order.len(),
{
    if order.len() == 0 {
        Seq::empty()
    } else {
        let earlier = count_entries(order.drop_last(), classes);
        let n = count_of(classes, order.last());
        if n > 0 {
            earlier.push((class_name(order.last()), n))
        } else {
            earlier
        }
    }
}

/// The (question, class name) pairs of the rows that drifted, in order.
pub open spec fn drifted(rows: Seq<DiffRow>) -> Seq<(Seq<char>, Seq<char>)>
    decreases rows.len(),
{
    if rows.len() == 0 {
        Seq::empty()
    } else {
        let earlier = drifted(rows.drop_last());
        let r = rows.last();
        if r.class != DiffClass::Unchanged {
            earlier.push((r.question@, class_name(r.class)))
        } else {
            earlier
        }
    }
}

/// The first `n` items of `s`, or all of them when there are fewer.
pub open spec fn at_most<A>(s: Seq<A>, n: nat) -> Seq<A> {
    if s.len() <= n {
        s
    } else {
        s.take(n as int)
    }
}

/// The names of the classes of `fail_on` that occur in `classes`, in the
/// order of `fail_on`.
pub open spec fn failing_spec(fail_on: Seq<DiffClass>, classes: Seq<DiffClass>) -> Seq<Seq<char>>
    decreases fail_on.len(),
{
    if fail_on.len() == 0 {
        Seq::empty()
    } else {
        let earlier = failing_spec(fail_on.drop_last(), classes);
        if count_of(classes, fail_on.last()) > 0 {
            earlier.push(class_name(fail_on.last()))
        } else {
            earlier
        }
    }
}

/// The report on `rows` under the fail-on list `fail_on`.
pub open spec fn report_spec(rows: Seq<DiffRow>, fail_on: Seq<DiffClass>) -> ReportView {
    let classes = row_classes(rows);
    let failing = failing_spec(fail_on, classes);
    ReportView {
        total: rows.len(),
        counts: count_entries(name_order(), classes),
        worst: at_most(drifted(rows), 10),
        should_fail: failing.len() > 0,
        failing_classes: failing,
    }
}

/// How many rows have class `c`.
fn count_class(rows: &Vec<DiffRow>, c: DiffClass) -> (n: usize)
    ensures
        n == count_of(row_classes(rows@), c),
{
    let ghost cs = row_classes(rows@);
    let mut n: usize = 0;
    let mut i: usize = 0;
    assert(cs.take(0) == Seq::<DiffClass>::empty());
    while i < rows.len()
        invariant
            i <= rows.len(),
            cs == row_classes(rows@),
            n == count_of(cs.take(i as int), c),
            n <= i,
        decreases rows.len() - i,
    {
        assert(cs.take(i + 1).drop_last() == cs.take(i as int));
        assert(cs.take(i + 1).last() == rows@[i as int].class);
        if rows[i].class == c {
            n = n + 1;
        }
        i = i + 1;
    }
    assert(cs.take(rows.len() as int) == cs);
    n
}

/// The classes in the order of their names.
fn name_order_vec() -> (v: Vec<DiffClass>)
    ensures
        v@ == name_order(),
{
    let v = vec![
        DiffClass::BindDrift,
        DiffClass::OutcomeDrift,
        DiffClass::PlanDrift,
        DiffClass::Unchanged,
        DiffClass::ValueDrift,
    ];
    assert(v@ == name_order());
    v
}

/// Generate a report summary from diff rows.
pub fn generate_report(rows: &Vec<DiffRow>, config: &ReportConfig) -> (summary: ReportSummary)
    ensures
        summary@ == report_spec(rows@, config.fail_on@),
{
    let ghost classes = row_classes(rows@);
    let order = name_order_vec();
    let mut entries: Vec<(String, usize)> = Vec::new();
    let mut k: usize = 0;
    assert(order@.take(0) == Seq::<DiffClass>::empty());
    while k < order.len()
        invariant
            k <= order.len(),
            order@ == name_order(),
            classes == row_classes(rows@),
            entry_views(entries@) == count_entries(order@.take(k as int), classes),
        decreases order.len() - k,
    {
        let c = order[k];
        let n = count_class(rows, c);
        assert(order@.take(k + 1).drop_last() == order@.take(k as int));
        assert(order@.take(k + 1).last() == c);
        if n > 0 {
            entries.push((c.to_string(), n));
            assert(entry_views(entries@) == count_entries(order@.take(k + 1), classes));
        }
        k = k + 1;
    }
    assert(order@.take(order.len() as int) == order@);

    let mut worst: Vec<WorstOffender> = Vec::new();
    let mut i: usize = 0;
    assert(rows@.take(0) == Seq::<DiffRow>::empty());
    while i < rows.len()
        invariant
            i <= rows.len(),
            offender_views(worst@) == at_most(drifted(rows@.take(i as int)), 10),
        decreases rows.len() - i,
    {
        let ghost d = drifted(rows@.take(i as int));
        assert(rows@.take(i + 1).drop_last() == rows@.take(i as int));
        assert(rows@.take(i + 1).last() == rows@[i as int]);
        if rows[i].class != DiffClass::Unchanged {
            let ghost x = (rows@[i as int].question@, class_name(rows@[i as int].class));
            if worst.len() < 10 {
                worst.push(
                    WorstOffender { question: rows[i].question.clone(), class: rows[i].class.to_string() },
                );
                assert(offender_views(worst@) == at_most(d, 10).push(x));
            } else {
                assert(d.push(x).take(10) == d.take(10));
            }
        }
        i = i + 1;
    }
    assert(rows@.take(rows.len() as int) == rows@);

    let mut failing: Vec<String> = Vec::new();
    let mut j: usize = 0;
    assert(config.fail_on@.take(0) == Seq::<DiffClass>::empty());
    while j < config.fail_on.len()
        invariant
            j <= config.fail_on.len(),
            classes == row_classes(rows@),
            texts(failing@) == failing_spec(config.fail_on@.take(j as int), classes),
        decreases config.fail_on.len() - j,
    {
        let c = config.fail_on[j];
        assert(config.fail_on@.take(j + 1).drop_last() == config.fail_on@.take(j as int));
        assert(config.fail_on@.take(j + 1).last() == c);
        if count_class(rows, c) > 0 {
            failing.push(c.to_string());
            assert(texts(failing@) == failing_spec(config.fail_on@.take(j + 1), classes));
        }
        j = j + 1;
    }
    assert(config.fail_on@.take(config.fail_on.len() as int) == config.fail_on@);
    let should_fail = failing.len() > 0;
    proof {
        lemma_name_order_sorted();
        lemma_entries_sorted(name_order(), classes);
    }
    ReportSummary {
        total: rows.len(),
        counts: ClassCounts { entries },
        worst,
        should_fail,
        failing_classes: failing,
    }
}

// ----------------------------------------------------------------------
// Rendering
// ----------------------------------------------------------------------

/// The separator line under the report header.
pub open spec fn rule_line() -> Seq<char> {
    "\u{2500}\u{2500}\u{2500}\u{2500}\u{2500}\u{2500}\u{2500}\u{2500}\u{2500}\u{2500}\u{2500}\u{2500}\u{2500}\u{2500}\u{2500}\u{2500}\u{2500}\u{2500}\u{2500}\u{2500}\u{2500}\u{2500}\u{2500}\u{2500}\u{2500}\u{2500}\u{2500}\u{2500}\u{2500}\u{2500}\u{2500}\u{2500}\u{2500}\n"@
}

/// The count line of class `c`: shown when the class occurs, and always for
/// `unchanged`.
pub open spec fn class_line(c: DiffClass, counts: Seq<(Seq<char>, nat)>) -> Seq<char> {
    let n = count_or_zero(counts, class_name(c));
    if n > 0 || c == DiffClass::Unchanged {
        "  "@ + pad_spec(class_name(c), 15) + " "@ + decimal_spec(n) + "\n"@
    } else {
        Seq::empty()
    }
}

/// The count lines of the classes of `order`, in that order.
pub open spec fn class_lines(order: Seq<DiffClass>, counts: Seq<(Seq<char>, nat)>) -> Seq<char>
    decreases order.len(),
{
    if order.len() == 0 {
        Seq::empty()
    } else {
        class_lines(order.drop_last(), counts) + class_line(order.last(), counts)
    }
}

/// One line per offender: its class name padded to 13 characters in
/// brackets, then its question.
pub open spec fn offender_lines(worst: Seq<(Seq<char>, Seq<char>)>) -> Seq<char>
    decreases worst.len(),
{
    if worst.len() == 0 {
        Seq::empty()
    } else {
        let w = worst.last();
        offender_lines(worst.drop_last()) + "  ["@ + pad_spec(w.1, 13) + "] "@ + w.0 + "\n"@
    }
}

/// The text rendering of a report.
pub open spec fn render_spec(v: ReportView) -> Seq<char> {
    let header = "mqo-replay report: "@ + decimal_spec(v.total) + " questions\n"@ + rule_line();
    let worst_block = if v.worst.len() > 0 {
        "\nWorst offenders:\n"@ + offender_lines(v.worst)
    } else {
        Seq::empty()
    };
    let verdict = if v.should_fail {
        "\nFAIL: drift classes present: "@ + join_spec(v.failing_classes, ", "@) + "\n"@
    } else {
        "\nPASS\n"@
    };
    header + class_lines(name_order(), v.counts) + worst_block + verdict
}

/// Render a human-readable report.
pub fn render_report(summary: &ReportSummary) -> (out: String)
    ensures
        out@ == render_spec(summary@),
{
    let ghost v = summary@;
    let mut out = String::from_str("mqo-replay report: ");
    append_decimal(&mut out, summary.total);
    append_text(&mut out, " questions\n");
    append_text(&mut out, "\u{2500}\u{2500}\u{2500}\u{2500}\u{2500}\u{2500}\u{2500}\u{2500}\u{2500}\u{2500}\u{2500}\u{2500}\u{2500}\u{2500}\u{2500}\u{2500}\u{2500}\u{2500}\u{2500}\u{2500}\u{2500}\u{2500}\u{2500}\u{2500}\u{2500}\u{2500}\u{2500}\u{2500}\u{2500}\u{2500}\u{2500}\u{2500}\u{2500}\n");
    let ghost header = out@;
    let order = name_order_vec();
    let mut k: usize = 0;
    assert(order@.take(0) == Seq::<DiffClass>::empty());
    while k < order.len()
        invariant
            k <= order.len(),
            order@ == name_order(),
            v == summary@,
            out@ == header + class_lines(order@.take(k as int), v.counts),
        decreases order.len() - k,
    {
        let c = order[k];
        let ghost before = out@;
        assert(order@.take(k + 1).drop_last() == order@.take(k as int));
        assert(order@.take(k + 1).last() == c);
        let name = c.name();
        let n = summary.counts.count_of_name(name);
        if n > 0 || c == DiffClass::Unchanged {
            append_text(&mut out, "  ");
            append_padded(&mut out, name, 15);
            append_text(&mut out, " ");
            append_decimal(&mut out, n);
            append_text(&mut out, "\n");
            assert(out@ == before + class_line(c, v.counts));
        } else {
            assert(class_line(c, v.counts) == Seq::<char>::empty());
            assert(out@ == before + class_line(c, v.counts));
        }
        k = k + 1;
    }
    assert(order@.take(order.len() as int) == order@);
    let ghost with_counts = out@;
    if summary.worst.len() > 0 {
        append_text(&mut out, "\nWorst offenders:\n");
        let ghost start = out@;
        let mut i: usize = 0;
        assert(v.worst.take(0) == Seq::<(Seq<char>, Seq<char>)>::empty());
        while i < summary.worst.len()
            invariant
                i <= summary.worst.len(),
                v == summary@,
                out@ == start + offender_lines(v.worst.take(i as int)),
            decreases summary.worst.len() - i,
        {
            let w = &summary.worst[i];
            let ghost before = out@;
            assert(v.worst.take(i + 1).drop_last() == v.worst.take(i as int));
            assert(v.worst.take(i + 1).last() == (w.question@, w.class@));
            append_text(&mut out, "  [");
            append_padded(&mut out, w.class.as_str(), 13);
            append_text(&mut out, "] ");
            append_text(&mut out, w.question.as_str());
            append_text(&mut out, "\n");
            i = i + 1;
        }
        assert(v.worst.take(summary.worst.len() as int) == v.worst);
    }
    let ghost with_worst = out@;
    if summary.should_fail {
        append_text(&mut out, "\nFAIL: drift classes present: ");
        append_joined(&mut out, &summary.failing_classes, ", ");
        append_text(&mut out, "\n");
    } else {
        append_text(&mut out, "\nPASS\n");
    }
    out
}


// ----------------------------------------------------------------------
// Laws
// ----------------------------------------------------------------------

/// The sum of the counts of `entries`.
pub open spec fn entries_sum(entries: Seq<(Seq<char>, nat)>) -> nat
    decreases entries.len(),
{
    if entries.len() == 0 {
        0
    } else {
        entries_sum(entries.drop_last()) + entries.last().1
    }
}

/// The number of `classes` that are among `order`, counted per class of
/// `order`.
pub open spec fn order_sum(order: Seq<DiffClass>, classes: Seq<DiffClass>) -> nat
    decreases order.len(),
{
    if order.len() == 0 {
        0
    } else {
        order_sum(order.drop_last(), classes) + count_of(classes, order.last())
    }
}

proof fn lemma_entries_sum(order: Seq<DiffClass>, classes: Seq<DiffClass>)
    ensures
        entries_sum(count_entries(order, classes)) == order_sum(order, classes),
    decreases order.len(),
{
    if order.len() > 0 {
        lemma_entries_sum(order.drop_last(), classes);
        let earlier = count_entries(order.drop_last(), classes);
        let n = count_of(classes, order.last());
        if n > 0 {
            assert(earlier.push((class_name(order.last()), n)).drop_last() == earlier);
        }
    }
}

proof fn lemma_five_counts(classes: Seq<DiffClass>)
    ensures
        count_of(classes, DiffClass::BindDrift) + count_of(classes, DiffClass::OutcomeDrift)
            + count_of(classes, DiffClass::PlanDrift) + count_of(classes, DiffClass::Unchanged)
            + count_of(classes, DiffClass::ValueDrift) == classes.len(),
    decreases classes.len(),
{
    if classes.len() > 0 {
        lemma_five_counts(classes.drop_last());
    }
}

/// Every row is counted once: the counts of a report add up to its total.
pub proof fn lemma_counts_sum_to_total(rows: Seq<DiffRow>, fail_on: Seq<DiffClass>)
    ensures
        entries_sum(report_spec(rows, fail_on).counts) == report_spec(rows, fail_on).total,
{
    let classes = row_classes(rows);
    lemma_entries_sum(name_order(), classes);
    lemma_five_counts(classes);
    let o = name_order();
    let s4 = o.drop_last();
    let s3 = s4.drop_last();
    let s2 = s3.drop_last();
    let s1 = s2.drop_last();
    let s0 = s1.drop_last();
    assert(s4 =~= seq![DiffClass::BindDrift, DiffClass::OutcomeDrift, DiffClass::PlanDrift, DiffClass::Unchanged]);
    assert(s3 =~= seq![DiffClass::BindDrift, DiffClass::OutcomeDrift, DiffClass::PlanDrift]);
    assert(s2 =~= seq![DiffClass::BindDrift, DiffClass::OutcomeDrift]);
    assert(s1 =~= seq![DiffClass::BindDrift]);
    assert(s0 =~= Seq::<DiffClass>::empty());
    assert(order_sum(s0, classes) == 0);
    assert(s1.last() == DiffClass::BindDrift);
    assert(order_sum(s1, classes) == count_of(classes, DiffClass::BindDrift));
    assert(order_sum(s2, classes) == order_sum(s1, classes) + count_of(classes, DiffClass::OutcomeDrift));
    assert(order_sum(s3, classes) == order_sum(s2, classes) + count_of(classes, DiffClass::PlanDrift));
    assert(order_sum(s4, classes) == order_sum(s3, classes) + count_of(classes, DiffClass::Unchanged));
    assert(order_sum(o, classes) == order_sum(s4, classes) + count_of(classes, DiffClass::ValueDrift));
    assert(classes.len() == rows.len());
}

proof fn lemma_failing_nonempty(fail_on: Seq<DiffClass>, classes: Seq<DiffClass>)
    ensures
        failing_spec(fail_on, classes).len() > 0 <==> exists|i: int|
            0 <= i < fail_on.len() && count_of(classes, #[trigger] fail_on[i]) > 0,
    decreases fail_on.len(),
{
    if fail_on.len() > 0 {
        let init = fail_on.drop_last();
        lemma_failing_nonempty(init, classes);
        if failing_spec(init, classes).len() > 0 {
            let i = choose|i: int| 0 <= i < init.len() && count_of(classes, #[trigger] init[i]) > 0;
            assert(fail_on[i] == init[i]);
        }
        if exists|i: int| 0 <= i < fail_on.len() && count_of(classes, #[trigger] fail_on[i]) > 0 {
            let i = choose|i: int| 0 <= i < fail_on.len() && count_of(classes, #[trigger] fail_on[i]) > 0;
            if i < fail_on.len() - 1 {
                assert(init[i] == fail_on[i]);
            }
        }
    }
}

/// A report fails exactly when some class of the fail-on list occurs among
/// the rows.
pub proof fn lemma_fails_iff_listed_class_present(rows: Seq<DiffRow>, fail_on: Seq<DiffClass>)
    ensures
        report_spec(rows, fail_on).should_fail <==> exists|i: int|
            0 <= i < fail_on.len() && count_of(row_classes(rows), #[trigger] fail_on[i]) > 0,
{
    lemma_failing_nonempty(fail_on, row_classes(rows));
}

proof fn lemma_drifted_not_unchanged(rows: Seq<DiffRow>)
    ensures
        forall|k: int|
            0 <= k < drifted(rows).len() ==> (#[trigger] drifted(rows)[k]).1 != class_name(
                DiffClass::Unchanged,
            ),
    decreases rows.len(),
{
    if rows.len() > 0 {
        lemma_drifted_not_unchanged(rows.drop_last());
        let r = rows.last();
        let earlier = drifted(rows.drop_last());
        crate::diff::lemma_class_name_roundtrip(r.class);
        crate::diff::lemma_class_name_roundtrip(DiffClass::Unchanged);
        assert forall|k: int| 0 <= k < drifted(rows).len() implies (#[trigger] drifted(rows)[k]).1
            != class_name(DiffClass::Unchanged) by {
            if k < earlier.len() {
                assert(drifted(rows)[k] == earlier[k]);
            }
        }
    }
}

/// The worst offenders are at most ten, and none of them is unchanged.
pub proof fn lemma_worst_offenders(rows: Seq<DiffRow>, fail_on: Seq<DiffClass>)
    ensures
        report_spec(rows, fail_on).worst.len() <= 10,
        forall|k: int|
            0 <= k < report_spec(rows, fail_on).worst.len() ==> (#[trigger] report_spec(
                rows,
                fail_on,
            ).worst[k]).1 != class_name(DiffClass::Unchanged),
{
    lemma_drifted_not_unchanged(rows);
    let d = drifted(rows);
    assert forall|k: int| 0 <= k < at_most(d, 10).len() implies (#[trigger] at_most(d, 10)[k]).1
        != class_name(DiffClass::Unchanged) by {
        assert(at_most(d, 10)[k] == d[k]);
    }
}

/// A report depends on nothing but the rows' questions and classes and the
/// fail-on list: equal inputs give equal reports and equal renderings.
pub proof fn lemma_report_deterministic(
    rows1: Seq<DiffRow>,
    rows2: Seq<DiffRow>,
    fail_on: Seq<DiffClass>,
)
    requires
        rows1.len() == rows2.len(),
        forall|k: int|
            0 <= k < rows1.len() ==> (#[trigger] rows1[k]).class == rows2[k].class && rows1[k].question@
                == rows2[k].question@,
    ensures
        report_spec(rows1, fail_on) == report_spec(rows2, fail_on),
        render_spec(report_spec(rows1, fail_on)) == render_spec(report_spec(rows2, fail_on)),
{
    lemma_same_rows_same_parts(rows1, rows2);
}

proof fn lemma_same_rows_same_parts(rows1: Seq<DiffRow>, rows2: Seq<DiffRow>)
    requires
        rows1.len() == rows2.len(),
        forall|k: int|
            0 <= k < rows1.len() ==> (#[trigger] rows1[k]).class == rows2[k].class && rows1[k].question@
                == rows2[k].question@,
    ensures
        row_classes(rows1) == row_classes(rows2),
        drifted(rows1) == drifted(rows2),
    decreases rows1.len(),
{
    assert(row_classes(rows1) =~= row_classes(rows2));
    if rows1.len() > 0 {
        let a = rows1.drop_last();
        let b = rows2.drop_last();
        assert forall|k: int| 0 <= k < a.len() implies (#[trigger] a[k]).class == b[k].class
            && a[k].question@ == b[k].question@ by {
            assert(a[k] == rows1[k]);
            assert(b[k] == rows2[k]);
        }
        lemma_same_rows_same_parts(a, b);
    }
}


proof fn lemma_split_nonempty(s: Seq<char>, sep: char)
    ensures
        split_spec(s, sep).len() >= 1,
    decreases s.len(),
{
    if s.len() > 0 {
        lemma_split_nonempty(s.drop_last(), sep);
    }
}

proof fn lemma_split_tail(x: Seq<char>, y: Seq<char>, sep: char)
    requires
        forall|k: int| 0 <= k < y.len() ==> y[k] != sep,
    ensures
        ({
            let p = split_spec(x, sep);
            split_spec(x + y, sep) == p.update(p.len() - 1, p.last() + y)
        }),
    decreases y.len(),
{
    lemma_split_nonempty(x, sep);
    let p = split_spec(x, sep);
    if y.len() == 0 {
        assert(x + y == x);
        assert(p.last() + y == p.last());
        assert(p.update(p.len() - 1, p.last()) == p);
    } else {
        let y0 = y.drop_last();
        lemma_split_tail(x, y0, sep);
        assert((x + y).drop_last() == x + y0);
        assert((x + y).last() == y.last());
        let q = p.update(p.len() - 1, p.last() + y0);
        assert(q.last() == p.last() + y0);
        assert((p.last() + y0).push(y.last()) == p.last() + y);
        assert(q.update(q.len() - 1, q.last().push(y.last())) == p.update(
            p.len() - 1,
            p.last() + y,
        ));
    }
}

proof fn lemma_split_join(parts: Seq<Seq<char>>)
    requires
        parts.len() > 0,
        forall|i: int, k: int|
            0 <= i < parts.len() && 0 <= k < parts[i].len() ==> (#[trigger] parts[i][k]) != ',',
    ensures
        split_spec(join_spec(parts, ","@), ',') == parts,
    decreases parts.len(),
{
    reveal_strlit(",");
    let last = parts.last();
    assert forall|k: int| 0 <= k < last.len() implies last[k] != ',' by {
        assert(last[k] == parts[parts.len() - 1][k]);
    }
    if parts.len() == 1 {
        let e = Seq::<char>::empty();
        lemma_split_tail(e, last, ',');
        assert(split_spec(e, ',') == seq![e]);
        assert(e + last == last);
        assert(e + last == parts[0]);
        assert(seq![e].update(0, e + last) == parts);
    } else {
        let init = parts.drop_last();
        assert forall|i: int, k: int| 0 <= i < init.len() && 0 <= k < init[i].len() implies (
        #[trigger] init[i][k]) != ',' by {
            assert(init[i] == parts[i]);
        }
        lemma_split_join(init);
        let x = join_spec(init, ","@) + ","@;
        assert(x.drop_last() == join_spec(init, ","@));
        assert(x.last() == ',');
        assert(split_spec(x, ',') == init.push(Seq::<char>::empty()));
        lemma_split_tail(x, last, ',');
        assert(join_spec(parts, ","@) == x + last);
        let p = init.push(Seq::<char>::empty());
        assert(p.last() + last == last);
        assert(p.update(p.len() - 1, last) == parts);
    }
}

proof fn lemma_name_text(c: DiffClass)
    ensures
        class_name(c).len() > 0,
        trim_spec(class_name(c)) == class_name(c),
        forall|k: int| 0 <= k < class_name(c).len() ==> class_name(c)[k] != ',',
{
    reveal_strlit("unchanged");
    reveal_strlit("plan_drift");
    reveal_strlit("bind_drift");
    reveal_strlit("outcome_drift");
    reveal_strlit("value_drift");
    let n = class_name(c);
    assert(n.len() > 0);
    assert(!crate::text::is_space(n[0]));
    assert(!crate::text::is_space(n.last()));
    assert(crate::text::trim_start_spec(n) == n);
    assert(crate::text::trim_end_spec(n) == n);
}

proof fn lemma_parse_trimmed(ps: Seq<Seq<char>>, cs: Seq<DiffClass>)
    requires
        ps.len() == cs.len(),
        forall|i: int| 0 <= i < ps.len() ==> trim_spec(#[trigger] ps[i]) == class_name(cs[i]),
    ensures
        parse_classes(ps) == Ok::<Seq<DiffClass>, Seq<char>>(cs),
    decreases cs.len(),
{
    if cs.len() == 0 {
        assert(cs == Seq::<DiffClass>::empty());
    } else {
        crate::diff::lemma_class_name_roundtrip(cs[0]);
        assert(trim_spec(ps[0]) == class_name(cs[0]));
        let p1 = ps.drop_first();
        let c1 = cs.drop_first();
        assert forall|i: int| 0 <= i < p1.len() implies trim_spec(#[trigger] p1[i]) == class_name(
            c1[i],
        ) by {
            assert(p1[i] == ps[i + 1]);
            assert(c1[i] == cs[i + 1]);
        }
        lemma_parse_trimmed(p1, c1);
        assert(seq![cs[0]] + c1 == cs);
    }
}

/// `parts` with `pad` put before every part but the first.
pub open spec fn padded(parts: Seq<Seq<char>>, pad: Seq<char>) -> Seq<Seq<char>> {
    Seq::new(parts.len(), |i: int| if i == 0 { parts[0] } else { pad + parts[i] })
}

proof fn lemma_join_split_sep(parts: Seq<Seq<char>>, a: Seq<char>, pad: Seq<char>)
    ensures
        join_spec(parts, a + pad) == join_spec(padded(parts, pad), a),
    decreases parts.len(),
{
    let p = padded(parts, pad);
    if parts.len() == 1 {
        assert(p[0] == parts[0]);
    } else if parts.len() > 1 {
        let init = parts.drop_last();
        lemma_join_split_sep(init, a, pad);
        assert(p.drop_last() == padded(init, pad));
        assert(p.last() == pad + parts.last());
        assert(join_spec(init, a + pad) + (a + pad) + parts.last() == join_spec(
            padded(init, pad),
            a,
        ) + a + (pad + parts.last()));
    } else {
        assert(p.len() == 0);
    }
}

proof fn lemma_trim_padded(pad: Seq<char>, t: Seq<char>)
    requires
        forall|k: int| 0 <= k < pad.len() ==> is_space(#[trigger] pad[k]),
        t.len() > 0,
        !is_space(t[0]),
        trim_spec(t) == t,
    ensures
        trim_spec(pad + t) == t,
    decreases pad.len(),
{
    if pad.len() == 0 {
        assert(pad + t == t);
    } else {
        let rest = pad.drop_first();
        assert forall|k: int| 0 <= k < rest.len() implies is_space(#[trigger] rest[k]) by {
            assert(rest[k] == pad[k + 1]);
        }
        lemma_trim_padded(rest, t);
        assert((pad + t)[0] == pad[0]);
        assert((pad + t).drop_first() == rest + t);
        assert(trim_start_spec(pad + t) == trim_start_spec(rest + t));
    }
}

/// A fail-on list written as class names separated by a comma and any
/// white space (`","`, `", "`, ...) parses back to the same classes, in the
/// same order.
pub proof fn lemma_fail_on_roundtrip(cs: Seq<DiffClass>, pad: Seq<char>)
    requires
        cs.len() > 0,
        forall|k: int| 0 <= k < pad.len() ==> is_space(#[trigger] pad[k]),
    ensures
        fail_on_spec(join_spec(cs.map_values(|c: DiffClass| class_name(c)), ","@ + pad)) == Ok::<
            Seq<DiffClass>,
            Seq<char>,
        >(cs),
{
    reveal_strlit(",");
    let names = cs.map_values(|c: DiffClass| class_name(c));
    let parts = padded(names, pad);
    lemma_join_split_sep(names, ","@, pad);
    assert forall|k: int| 0 <= k < pad.len() implies pad[k] != ',' by {
        assert(is_space(pad[k]));
    }
    assert forall|i: int, k: int| 0 <= i < parts.len() && 0 <= k < parts[i].len() implies (
    #[trigger] parts[i][k]) != ',' by {
        lemma_name_text(cs[i]);
        assert(names[i] == class_name(cs[i]));
        if i > 0 && k >= pad.len() {
            assert(parts[i][k] == names[i][k - pad.len()]);
        }
    }
    assert forall|i: int| 0 <= i < parts.len() implies trim_spec(#[trigger] parts[i]) == class_name(
        cs[i],
    ) by {
        lemma_name_text(cs[i]);
        assert(names[i] == class_name(cs[i]));
        reveal_strlit("unchanged");
        reveal_strlit("plan_drift");
        reveal_strlit("bind_drift");
        reveal_strlit("outcome_drift");
        reveal_strlit("value_drift");
        if i > 0 {
            lemma_trim_padded(pad, names[i]);
        }
    }
    lemma_split_join(parts);
    lemma_parse_trimmed(parts, cs);
    lemma_split_nonempty(Seq::<char>::empty(), ',');
    if join_spec(parts, ","@).len() == 0 {
        assert(split_spec(join_spec(parts, ","@), ',') == seq![Seq::<char>::empty()]);
        lemma_name_text(cs[0]);
        assert(parts[0] == names[0]);
    }
}


proof fn lemma_name_order_sorted()
    ensures
        forall|i: int, j: int|
            0 <= i < j < name_order().len() ==> text_lt(
                class_name(#[trigger] name_order()[i]),
                class_name(#[trigger] name_order()[j]),
            ),
{
    reveal_strlit("unchanged");
    reveal_strlit("plan_drift");
    reveal_strlit("bind_drift");
    reveal_strlit("outcome_drift");
    reveal_strlit("value_drift");
    let o = name_order();
    assert forall|i: int, j: int| 0 <= i < j < o.len() implies text_lt(
        class_name(#[trigger] o[i]),
        class_name(#[trigger] o[j]),
    ) by {
        let a = class_name(o[i]);
        let b = class_name(o[j]);
        assert(a.len() > 0 && b.len() > 0);
        assert(a[0] != b[0]);
        assert((a[0] as u32) < (b[0] as u32));
    }
}

proof fn lemma_entries_sorted(o: Seq<DiffClass>, classes: Seq<DiffClass>)
    requires
        forall|i: int, j: int|
            0 <= i < j < o.len() ==> text_lt(class_name(#[trigger] o[i]), class_name(#[trigger] o[j])),
    ensures
        forall|i: int|
            0 <= i < count_entries(o, classes).len() ==> exists|k: int|
                0 <= k < o.len() && (#[trigger] count_entries(o, classes)[i]).0 == class_name(o[k]),
        forall|i: int, j: int|
            0 <= i < j < count_entries(o, classes).len() ==> text_lt(
                (#[trigger] count_entries(o, classes)[i]).0,
                (#[trigger] count_entries(o, classes)[j]).0,
            ),
    decreases o.len(),
{
    if o.len() > 0 {
        let init = o.drop_last();
        assert forall|i: int, j: int| 0 <= i < j < init.len() implies text_lt(
            class_name(#[trigger] init[i]),
            class_name(#[trigger] init[j]),
        ) by {
            assert(init[i] == o[i] && init[j] == o[j]);
        }
        lemma_entries_sorted(init, classes);
        let e0 = count_entries(init, classes);
        let e = count_entries(o, classes);
        assert forall|i: int| 0 <= i < e.len() implies exists|k: int|
            0 <= k < o.len() && (#[trigger] e[i]).0 == class_name(o[k]) by {
            if i < e0.len() {
                assert(e[i] == e0[i]);
                let k = choose|k: int| 0 <= k < init.len() && e0[i].0 == class_name(init[k]);
                assert(init[k] == o[k]);
            } else {
                assert(e[i].0 == class_name(o[o.len() - 1]));
            }
        }
        assert forall|i: int, j: int| 0 <= i < j < e.len() implies text_lt(
            (#[trigger] e[i]).0,
            (#[trigger] e[j]).0,
        ) by {
            assert(e[i] == e0[i]);
            if j < e0.len() {
                assert(e[j] == e0[j]);
            } else {
                let k = choose|k: int| 0 <= k < init.len() && e0[i].0 == class_name(init[k]);
                assert(init[k] == o[k]);
                assert(e[j].0 == class_name(o[o.len() - 1]));
            }
        }
    }
}

/// The counts of a report are keyed by distinct class names in strictly
/// increasing string order, so their serialization does not depend on the
/// order of the rows.
pub proof fn lemma_counts_sorted(rows: Seq<DiffRow>, fail_on: Seq<DiffClass>)
    ensures
        forall|i: int, j: int|
            0 <= i < j < report_spec(rows, fail_on).counts.len() ==> text_lt(
                (#[trigger] report_spec(rows, fail_on).counts[i]).0,
                (#[trigger] report_spec(rows, fail_on).counts[j]).0,
            ),
{
    lemma_name_order_sorted();
    lemma_entries_sorted(name_order(), row_classes(rows));
}



/// `needle` occurs in `hay` as a contiguous piece.
pub open spec fn occurs(hay: Seq<char>, needle: Seq<char>) -> bool {
    exists|i: int|
        0 <= i && i + needle.len() <= hay.len() && #[trigger] hay.subrange(i, i + needle.len())
            == needle
}

/// The report line giving `n` for the class named `name`: two spaces, the
/// name padded to 15 characters, a space, the count, a newline.
pub open spec fn count_line(name: Seq<char>, n: nat) -> Seq<char> {
    "  "@ + pad_spec(name, 15) + " "@ + decimal_spec(n) + "\n"@
}

proof fn lemma_occurs_self(n: Seq<char>)
    ensures
        occurs(n, n),
{
    let z: int = 0;
    assert(n.subrange(z, z + n.len()) == n);
}

proof fn lemma_occurs_concat(a: Seq<char>, b: Seq<char>, n: Seq<char>)
    ensures
        occurs(a, n) ==> occurs(a + b, n),
        occurs(b, n) ==> occurs(a + b, n),
{
    if occurs(a, n) {
        let i = choose|i: int|
            0 <= i && i + n.len() <= a.len() && #[trigger] a.subrange(i, i + n.len()) == n;
        assert((a + b).subrange(i, i + n.len()) == a.subrange(i, i + n.len()));
    }
    if occurs(b, n) {
        let i = choose|i: int|
            0 <= i && i + n.len() <= b.len() && #[trigger] b.subrange(i, i + n.len()) == n;
        assert((a + b).subrange(a.len() + i, a.len() + i + n.len()) == b.subrange(i, i + n.len()));
    }
}

proof fn lemma_class_lines_contain(order: Seq<DiffClass>, counts: Seq<(Seq<char>, nat)>, k: int)
    requires
        0 <= k < order.len(),
        count_or_zero(counts, class_name(order[k])) > 0 || order[k] == DiffClass::Unchanged,
    ensures
        occurs(
            class_lines(order, counts),
            count_line(class_name(order[k]), count_or_zero(counts, class_name(order[k]))),
        ),
    decreases order.len(),
{
    let init = order.drop_last();
    let line = count_line(class_name(order[k]), count_or_zero(counts, class_name(order[k])));
    if k < order.len() - 1 {
        assert(init[k] == order[k]);
        lemma_class_lines_contain(init, counts, k);
        lemma_occurs_concat(class_lines(init, counts), class_line(order.last(), counts), line);
    } else {
        assert(class_line(order.last(), counts) == line);
        lemma_occurs_self(line);
        lemma_occurs_concat(class_lines(init, counts), class_line(order.last(), counts), line);
    }
}

/// A rendered report shows the count of every class that has one, and the
/// count of `unchanged` always, each on its own line.
pub proof fn lemma_render_shows_counts(v: ReportView, c: DiffClass)
    requires
        count_or_zero(v.counts, class_name(c)) > 0 || c == DiffClass::Unchanged,
    ensures
        occurs(render_spec(v), count_line(class_name(c), count_or_zero(v.counts, class_name(c)))),
{
    let o = name_order();
    let k: int = match c {
        DiffClass::BindDrift => 0,
        DiffClass::OutcomeDrift => 1,
        DiffClass::PlanDrift => 2,
        DiffClass::Unchanged => 3,
        DiffClass::ValueDrift => 4,
    };
    assert(o[k] == c);
    let line = count_line(class_name(c), count_or_zero(v.counts, class_name(c)));
    lemma_class_lines_contain(o, v.counts, k);
    let header = "mqo-replay report: "@ + decimal_spec(v.total) + " questions\n"@ + rule_line();
    let worst_block = if v.worst.len() > 0 {
        "\nWorst offenders:\n"@ + offender_lines(v.worst)
    } else {
        Seq::empty()
    };
    let verdict = if v.should_fail {
        "\nFAIL: drift classes present: "@ + join_spec(v.failing_classes, ", "@) + "\n"@
    } else {
        "\nPASS\n"@
    };
    lemma_occurs_concat(header, class_lines(o, v.counts), line);
    lemma_occurs_concat(header + class_lines(o, v.counts), worst_block, line);
    lemma_occurs_concat(header + class_lines(o, v.counts) + worst_block, verdict, line);
}

proof fn lemma_first_count_push(e: Seq<(Seq<char>, nat)>, x: (Seq<char>, nat), key: Seq<char>)
    ensures
        first_count(e.push(x), key) == (match first_count(e, key) {
            Some(n) => Some(n),
            None => if x.0 == key {
                Some(x.1)
            } else {
                None
            },
        }),
    decreases e.len(),
{
    if e.len() > 0 {
        lemma_first_count_push(e.drop_first(), x, key);
        assert(e.push(x).drop_first() == e.drop_first().push(x));
        assert(e.push(x)[0] == e[0]);
    } else {
        assert(e.push(x).drop_first() == Seq::<(Seq<char>, nat)>::empty());
        assert(e.push(x)[0] == x);
        assert(first_count(Seq::<(Seq<char>, nat)>::empty(), key) is None);
    }
}

proof fn lemma_names_distinct(a: DiffClass, b: DiffClass)
    ensures
        class_name(a) == class_name(b) ==> a == b,
{
    crate::diff::lemma_class_name_roundtrip(a);
    crate::diff::lemma_class_name_roundtrip(b);
}

proof fn lemma_count_entries_lookup(o: Seq<DiffClass>, classes: Seq<DiffClass>, c: DiffClass)
    requires
        forall|i: int, j: int| 0 <= i < j < o.len() ==> o[i] != o[j],
    ensures
        first_count(count_entries(o, classes), class_name(c)) == (if o.contains(c) && count_of(
            classes,
            c,
        ) > 0 {
            Some(count_of(classes, c))
        } else {
            None
        }),
    decreases o.len(),
{
    if o.len() > 0 {
        let init = o.drop_last();
        assert forall|i: int, j: int| 0 <= i < j < init.len() implies init[i] != init[j] by {
            assert(init[i] == o[i] && init[j] == o[j]);
        }
        lemma_count_entries_lookup(init, classes, c);
        let last = o.last();
        let n = count_of(classes, last);
        lemma_names_distinct(last, c);
        if n > 0 {
            lemma_first_count_push(count_entries(init, classes), (class_name(last), n), class_name(c));
        }
        if c == last {
            assert(!init.contains(c)) by {
                if init.contains(c) {
                    let i = choose|i: int| 0 <= i < init.len() && init[i] == c;
                    assert(o[i] == o[o.len() - 1]);
                }
            }
            assert(o.contains(c)) by {
                assert(o[o.len() - 1] == c);
            }
        } else {
            assert(o.contains(c) == init.contains(c)) by {
                if o.contains(c) {
                    let i = choose|i: int| 0 <= i < o.len() && o[i] == c;
                    assert(init[i] == c);
                }
                if init.contains(c) {
                    let i = choose|i: int| 0 <= i < init.len() && init[i] == c;
                    assert(o[i] == c);
                }
            }
        }
    }
}

proof fn lemma_count_of_filter(classes: Seq<DiffClass>, c: DiffClass)
    ensures
        count_of(classes, c) == classes.filter(|x: DiffClass| x == c).len(),
    decreases classes.len(),
{
    reveal_with_fuel(Seq::filter, 1);
    if classes.len() > 0 {
        lemma_count_of_filter(classes.drop_last(), c);
    }
}

/// A report counts, under each class's name, exactly the rows of that
/// class, and a rendered report shows that number for every class that
/// occurs (and for `unchanged` always).
pub proof fn lemma_report_counts_rows(rows: Seq<DiffRow>, fail_on: Seq<DiffClass>, c: DiffClass)
    ensures
        ({
            let n = row_classes(rows).filter(|x: DiffClass| x == c).len();
            let v = report_spec(rows, fail_on);
            &&& count_or_zero(v.counts, class_name(c)) == n
            &&& first_count(v.counts, class_name(c)) is Some <==> n > 0
            &&& (n > 0 || c == DiffClass::Unchanged) ==> occurs(
                render_spec(v),
                count_line(class_name(c), n),
            )
        }),
{
    let classes = row_classes(rows);
    let o = name_order();
    lemma_count_of_filter(classes, c);
    lemma_count_entries_lookup(o, classes, c);
    let k: int = match c {
        DiffClass::BindDrift => 0,
        DiffClass::OutcomeDrift => 1,
        DiffClass::PlanDrift => 2,
        DiffClass::Unchanged => 3,
        DiffClass::ValueDrift => 4,
    };
    assert(o[k] == c);
    assert(o.contains(c));
    let v = report_spec(rows, fail_on);
    if count_of(classes, c) > 0 || c == DiffClass::Unchanged {
        lemma_render_shows_counts(v, c);
    }
}


/// The line that names offender `w`: its class name padded to 13
/// characters in brackets, then its question.
pub open spec fn offender_line(w: (Seq<char>, Seq<char>)) -> Seq<char> {
    "  ["@ + pad_spec(w.1, 13) + "] "@ + w.0 + "\n"@
}

proof fn lemma_offender_lines_contain(worst: Seq<(Seq<char>, Seq<char>)>, k: int)
    requires
        0 <= k < worst.len(),
    ensures
        occurs(offender_lines(worst), offender_line(worst[k])),
    decreases worst.len(),
{
    let init = worst.drop_last();
    let last = "  ["@ + pad_spec(worst.last().1, 13) + "] "@ + worst.last().0 + "\n"@;
    assert(offender_lines(worst) == offender_lines(init) + last);
    if k < worst.len() - 1 {
        assert(init[k] == worst[k]);
        lemma_offender_lines_contain(init, k);
        lemma_occurs_concat(offender_lines(init), last, offender_line(worst[k]));
    } else {
        assert(last == offender_line(worst[k]));
        lemma_occurs_self(last);
        lemma_occurs_concat(offender_lines(init), last, offender_line(worst[k]));
    }
}

/// A rendered report opens with the number of questions, lists every
/// worst offender on a line of its own, and closes with `PASS`, or with
/// `FAIL` and the failing classes joined by commas.
pub proof fn lemma_render_frame(v: ReportView)
    ensures
        ({
            let out = render_spec(v);
            let first = "mqo-replay report: "@ + decimal_spec(v.total) + " questions\n"@;
            let last = if v.should_fail {
                "\nFAIL: drift classes present: "@ + join_spec(v.failing_classes, ", "@) + "\n"@
            } else {
                "\nPASS\n"@
            };
            &&& first.len() + last.len() <= out.len()
            &&& out.subrange(0, first.len() as int) == first
            &&& out.subrange(out.len() - last.len(), out.len() as int) == last
        }),
        forall|k: int|
            0 <= k < v.worst.len() ==> occurs(render_spec(v), #[trigger] offender_line(v.worst[k])),
{
    let out = render_spec(v);
    let first = "mqo-replay report: "@ + decimal_spec(v.total) + " questions\n"@;
    let header = first + rule_line();
    let body = class_lines(name_order(), v.counts);
    let worst_block = if v.worst.len() > 0 {
        "\nWorst offenders:\n"@ + offender_lines(v.worst)
    } else {
        Seq::empty()
    };
    let last = if v.should_fail {
        "\nFAIL: drift classes present: "@ + join_spec(v.failing_classes, ", "@) + "\n"@
    } else {
        "\nPASS\n"@
    };
    assert(out == first + (rule_line() + body + worst_block + last));
    assert(out.subrange(0, first.len() as int) == first);
    assert(out == (header + body + worst_block) + last);
    assert(out.subrange(out.len() - last.len(), out.len() as int) == last);
    assert forall|k: int| 0 <= k < v.worst.len() implies occurs(
        render_spec(v),
        #[trigger] offender_line(v.worst[k]),
    ) by {
        let line = offender_line(v.worst[k]);
        lemma_offender_lines_contain(v.worst, k);
        lemma_occurs_concat("\nWorst offenders:\n"@, offender_lines(v.worst), line);
        lemma_occurs_concat(header + body, worst_block, line);
        lemma_occurs_concat(header + body + worst_block, last, line);
    }
}

proof fn lemma_drifted_is_filter(rows: Seq<DiffRow>)
    ensures
        drifted(rows) == rows.filter(|r: DiffRow| r.class != DiffClass::Unchanged).map_values(
            |r: DiffRow| (r.question@, class_name(r.class)),
        ),
    decreases rows.len(),
{
    let pred = |r: DiffRow| r.class != DiffClass::Unchanged;
    let f = |r: DiffRow| (r.question@, class_name(r.class));
    reveal_with_fuel(Seq::filter, 1);
    if rows.len() > 0 {
        let init = rows.drop_last();
        lemma_drifted_is_filter(init);
        let fi = init.filter(pred);
        assert(rows.filter(pred) == if pred(rows.last()) {
            fi.push(rows.last())
        } else {
            fi
        });
        assert(fi.push(rows.last()).map_values(f) == fi.map_values(f).push(f(rows.last())));
    } else {
        assert(rows.filter(pred).map_values(f) =~= Seq::<(Seq<char>, Seq<char>)>::empty());
    }
}

/// The worst offenders are the first ten rows that drifted (all of them
/// when there are fewer), in the order of the rows, each with its question
/// and the name of its class.
pub proof fn lemma_worst_are_first_drifted(rows: Seq<DiffRow>, fail_on: Seq<DiffClass>)
    ensures
        ({
            let d = rows.filter(|r: DiffRow| r.class != DiffClass::Unchanged).map_values(
                |r: DiffRow| (r.question@, class_name(r.class)),
            );
            let w = report_spec(rows, fail_on).worst;
            &&& w.len() == if d.len() < 10 {
                d.len()
            } else {
                10
            }
            &&& forall|k: int| 0 <= k < w.len() ==> w[k] == d[k]
        }),
{
    lemma_drifted_is_filter(rows);
}

proof fn lemma_count_of_positive(classes: Seq<DiffClass>, c: DiffClass)
    ensures
        count_of(classes, c) > 0 <==> classes.contains(c),
    decreases classes.len(),
{
    if classes.len() > 0 {
        let init = classes.drop_last();
        lemma_count_of_positive(init, c);
        if init.contains(c) {
            let i = choose|i: int| 0 <= i < init.len() && init[i] == c;
            assert(classes[i] == c);
        }
        if classes.contains(c) {
            let i = choose|i: int| 0 <= i < classes.len() && classes[i] == c;
            if i < classes.len() - 1 {
                assert(init[i] == c);
            }
        }
    }
}

proof fn lemma_failing_is_filter(fail_on: Seq<DiffClass>, classes: Seq<DiffClass>)
    ensures
        failing_spec(fail_on, classes) == fail_on.filter(|c: DiffClass| classes.contains(c)).map_values(
            |c: DiffClass| class_name(c),
        ),
    decreases fail_on.len(),
{
    let pred = |c: DiffClass| classes.contains(c);
    let f = |c: DiffClass| class_name(c);
    reveal_with_fuel(Seq::filter, 1);
    if fail_on.len() > 0 {
        let init = fail_on.drop_last();
        lemma_failing_is_filter(init, classes);
        lemma_count_of_positive(classes, fail_on.last());
        let fi = init.filter(pred);
        assert(fail_on.filter(pred) == if pred(fail_on.last()) {
            fi.push(fail_on.last())
        } else {
            fi
        });
        assert(fi.push(fail_on.last()).map_values(f) == fi.map_values(f).push(f(fail_on.last())));
    } else {
        assert(fail_on.filter(pred).map_values(f) =~= Seq::<Seq<char>>::empty());
    }
}

/// The failing classes of a report are the names of the classes of the
/// fail-on list that some row has, in the order of the list; the report
/// fails exactly when there is one.
pub proof fn lemma_failing_classes_present(rows: Seq<DiffRow>, fail_on: Seq<DiffClass>)
    ensures
        report_spec(rows, fail_on).failing_classes == fail_on.filter(
            |c: DiffClass| row_classes(rows).contains(c),
        ).map_values(|c: DiffClass| class_name(c)),
        report_spec(rows, fail_on).should_fail <==> report_spec(rows, fail_on).failing_classes.len()
            > 0,
{
    lemma_failing_is_filter(fail_on, row_classes(rows));
}

} // verus!
