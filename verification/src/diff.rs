//! Drift classification between a baseline record and a fresh one.
//!
//! Drift categories, in priority order (first match wins):
//!   `outcome_drift` — the outcome changed;
//!   `bind_drift`    — the bound measure or bound grain changed;
//!   `plan_drift`    — the set of pillars that fired changed (order and
//!                     repetition ignored);
//!   `value_drift`   — the numeric answer moved beyond tolerance, or is
//!                     present on one side only;
//!   `unchanged`     — none of the above.
//!
//! Whether two present answers are within tolerance is a floating-point
//! question; the library takes its verdict as an argument (a `bool`, or a
//! function of the two answers' bit patterns) and decides everything else.
use vstd::prelude::*;

use crate::record::{DecisionRecord, RecordView, opt_text, record_views};
use crate::replay::ReplayRecord;
use crate::text::{same_text, texts};

verus! {

/// Drift classification for a single question.
#[derive(Clone, Copy, Debug, PartialEq, Eq, Structural)]
pub enum DiffClass {
    Unchanged,
    PlanDrift,
    BindDrift,
    OutcomeDrift,
    ValueDrift,
}

/// The snake_case name of a class, as it is written in diffs and reports.
pub open spec fn class_name(c: DiffClass) -> Seq<char> {
    match c {
        DiffClass::Unchanged => "unchanged"@,
        DiffClass::PlanDrift => "plan_drift"@,
        DiffClass::BindDrift => "bind_drift"@,
        DiffClass::OutcomeDrift => "outcome_drift"@,
        DiffClass::ValueDrift => "value_drift"@,
    }
}

/// The class whose name is `t`, if any.
pub open spec fn class_named(t: Seq<char>) -> Option<DiffClass> {
    if t == "unchanged"@ {
        Some(DiffClass::Unchanged)
    } else if t == "plan_drift"@ {
        Some(DiffClass::PlanDrift)
    } else if t == "bind_drift"@ {
        Some(DiffClass::BindDrift)
    } else if t == "outcome_drift"@ {
        Some(DiffClass::OutcomeDrift)
    } else if t == "value_drift"@ {
        Some(DiffClass::ValueDrift)
    } else {
        None
    }
}

impl DiffClass {
    /// The class's name.
    pub fn name(&self) -> (s: &'static str)
        ensures
            s@ == class_name(*self),
    {
        match self {
            DiffClass::Unchanged => "unchanged",
            DiffClass::PlanDrift => "plan_drift",
            DiffClass::BindDrift => "bind_drift",
            DiffClass::OutcomeDrift => "outcome_drift",
            DiffClass::ValueDrift => "value_drift",
        }
    }

    /// The class's name as an owned string.
    pub fn to_string(&self) -> (s: String)
        ensures
            s@ == class_name(*self),
    {
        String::from_str(self.name())
    }

    /// The class named `t`, or `None` when `t` names no class.
    pub fn from_name(t: &str) -> (r: Option<DiffClass>)
        ensures
            r == class_named(t@),
    {
        if same_text(t, "unchanged") {
            Some(DiffClass::Unchanged)
        } else if same_text(t, "plan_drift") {
            Some(DiffClass::PlanDrift)
        } else if same_text(t, "bind_drift") {
            Some(DiffClass::BindDrift)
        } else if same_text(t, "outcome_drift") {
            Some(DiffClass::OutcomeDrift)
        } else if same_text(t, "value_drift") {
            Some(DiffClass::ValueDrift)
        } else {
            None
        }
    }
}

/// Every class is found again from its name, and names differ between
/// classes.
pub proof fn lemma_class_name_roundtrip(c: DiffClass)
    ensures
        class_named(class_name(c)) == Some(c),
{
    reveal_strlit("unchanged");
    reveal_strlit("plan_drift");
    reveal_strlit("bind_drift");
    reveal_strlit("outcome_drift");
    reveal_strlit("value_drift");
    match c {
        DiffClass::Unchanged => {},
        DiffClass::PlanDrift => {
            assert("plan_drift"@ != "unchanged"@) by {
                assert("plan_drift"@[0] != "unchanged"@[0]);
            }
        },
        DiffClass::BindDrift => {
            assert("bind_drift"@[0] != "unchanged"@[0]);
            assert("bind_drift"@[0] != "plan_drift"@[0]);
        },
        DiffClass::OutcomeDrift => {
            assert("outcome_drift"@[0] != "unchanged"@[0]);
            assert("outcome_drift"@[0] != "plan_drift"@[0]);
            assert("outcome_drift"@[0] != "bind_drift"@[0]);
        },
        DiffClass::ValueDrift => {
            assert("value_drift"@[0] != "unchanged"@[0]);
            assert("value_drift"@[0] != "plan_drift"@[0]);
            assert("value_drift"@[0] != "bind_drift"@[0]);
            assert("value_drift"@[0] != "outcome_drift"@[0]);
        },
    }
}

/// Two pillar lists name the same set of pillars, in any order and however
/// often each is listed.
pub open spec fn same_pillars(a: Seq<Seq<char>>, b: Seq<Seq<char>>) -> bool {
    a.to_set() == b.to_set()
}

/// Whether `x` is among the texts of `v`.
fn contains_text(v: &[String], x: &String) -> (r: bool)
    ensures
        r == texts(v@).contains(x@),
{
    let mut i: usize = 0;
    while i < v.len()
        invariant
            i <= v.len(),
            forall|k: int| 0 <= k < i ==> v@[k]@ != x@,
        decreases v.len() - i,
    {
        if v[i] == *x {
            assert(texts(v@)[i as int] == x@);
            return true;
        }
        i = i + 1;
    }
    assert(!texts(v@).contains(x@)) by {
        if texts(v@).contains(x@) {
            let m = choose|m: int| 0 <= m < texts(v@).len() && texts(v@)[m] == x@;
            assert(texts(v@)[m] == v@[m]@);
        }
    }
    false
}

/// Whether every text of `a` is among the texts of `b`.
fn all_within(a: &[String], b: &[String]) -> (r: bool)
    ensures
        r == forall|x: Seq<char>| texts(a@).contains(x) ==> texts(b@).contains(x),
{
    let mut i: usize = 0;
    while i < a.len()
        invariant
            i <= a.len(),
            forall|k: int| 0 <= k < i ==> texts(b@).contains(#[trigger] texts(a@)[k]),
        decreases a.len() - i,
    {
        if !contains_text(b, &a[i]) {
            assert(texts(a@)[i as int] == a@[i as int]@);
            assert(texts(a@).contains(a@[i as int]@));
            return false;
        }
        assert(texts(a@)[i as int] == a@[i as int]@);
        i = i + 1;
    }
    assert forall|x: Seq<char>| texts(a@).contains(x) implies texts(b@).contains(x) by {
        let k = choose|k: int| 0 <= k < texts(a@).len() && texts(a@)[k] == x;
    }
    true
}

/// Whether two pillar lists name the same set of pillars, regardless of
/// order and repetition.
pub fn pillars_equal(a: &[String], b: &[String]) -> (r: bool)
    ensures
        r == same_pillars(texts(a@), texts(b@)),
{
    let r = all_within(a, b) && all_within(b, a);
    proof {
        let sa = texts(a@).to_set();
        let sb = texts(b@).to_set();
        if r {
            assert(sa =~= sb);
        } else if sa == sb {
            assert forall|x: Seq<char>| texts(a@).contains(x) implies texts(b@).contains(x) by {
                assert(sa.contains(x));
            }
            assert forall|x: Seq<char>| texts(b@).contains(x) implies texts(a@).contains(x) by {
                assert(sb.contains(x));
            }
        }
    }
    r
}

/// The class of a baseline/fresh pair, by priority; `values_close` is the
/// tolerance verdict on the two answers, which counts only when both are
/// present and nothing earlier changed.
pub open spec fn classify_spec(b: RecordView, f: RecordView, values_close: bool) -> DiffClass {
    if b.outcome != f.outcome {
        DiffClass::OutcomeDrift
    } else if b.bound_measure != f.bound_measure || b.bound_grain != f.bound_grain {
        DiffClass::BindDrift
    } else if !same_pillars(b.pillars_fired, f.pillars_fired) {
        DiffClass::PlanDrift
    } else {
        match (b.answer_value, f.answer_value) {
            (Some(_), Some(_)) => if values_close {
                DiffClass::Unchanged
            } else {
                DiffClass::ValueDrift
            },
            (None, None) => DiffClass::Unchanged,
            _ => DiffClass::ValueDrift,
        }
    }
}

/// Whether two optional strings hold the same text.
fn opt_same(a: &Option<String>, b: &Option<String>) -> (r: bool)
    ensures
        r == (opt_text(*a) == opt_text(*b)),
{
    match (a, b) {
        (Some(x), Some(y)) => same_text(x.as_str(), y.as_str()),
        (None, None) => true,
        _ => false,
    }
}

/// Classify the drift between a baseline and a fresh record.
/// `values_close` tells whether the two answers are within tolerance.
pub fn classify(baseline: &DecisionRecord, fresh: &DecisionRecord, values_close: bool) -> (c:
    DiffClass)
    ensures
        c == classify_spec(baseline@, fresh@, values_close),
{
    if baseline.outcome != fresh.outcome {
        return DiffClass::OutcomeDrift;
    }
    if !opt_same(&baseline.bound_measure, &fresh.bound_measure) || !opt_same(
        &baseline.bound_grain,
        &fresh.bound_grain,
    ) {
        return DiffClass::BindDrift;
    }
    if !pillars_equal(baseline.pillars_fired.as_slice(), fresh.pillars_fired.as_slice()) {
        return DiffClass::PlanDrift;
    }
    match (baseline.answer_value, fresh.answer_value) {
        (Some(_), Some(_)) => {
            if values_close {
                DiffClass::Unchanged
            } else {
                DiffClass::ValueDrift
            }
        },
        (None, None) => DiffClass::Unchanged,
        _ => DiffClass::ValueDrift,
    }
}

/// Whether classification of the pair reaches the numeric comparison: all
/// earlier checks agree and both records carry an answer.
pub open spec fn value_step_reached(b: RecordView, f: RecordView) -> bool {
    &&& b.outcome == f.outcome
    &&& b.bound_measure == f.bound_measure
    &&& b.bound_grain == f.bound_grain
    &&& same_pillars(b.pillars_fired, f.pillars_fired)
    &&& b.answer_value is Some
    &&& f.answer_value is Some
}

/// `c` is the class of the pair when tolerance verdicts come from
/// `values_close`, which is asked about the two answers exactly when the
/// comparison is reached.
pub open spec fn class_by<F: Fn(u64, u64) -> bool>(
    values_close: F,
    b: RecordView,
    f: RecordView,
    c: DiffClass,
) -> bool {
    if value_step_reached(b, f) {
        exists|w: bool|
            call_ensures(values_close, (b.answer_value->0, f.answer_value->0), w) && c
                == classify_spec(b, f, w)
    } else {
        c == classify_spec(b, f, true)
    }
}

/// Classify a pair, asking `values_close` for the tolerance verdict only
/// when the comparison is reached.
fn classify_by<F: Fn(u64, u64) -> bool>(
    baseline: &DecisionRecord,
    fresh: &DecisionRecord,
    values_close: &F,
) -> (c: DiffClass)
    requires
        forall|a: u64, b: u64| call_requires(*values_close, (a, b)),
    ensures
        class_by(*values_close, baseline@, fresh@, c),
{
    let first = classify(baseline, fresh, true);
    if first != DiffClass::Unchanged {
        return first;
    }
    match (baseline.answer_value, fresh.answer_value) {
        (Some(a), Some(b)) => {
            let w = values_close(a, b);
            classify(baseline, fresh, w)
        },
        _ => first,
    }
}

/// One row of diff output.
#[derive(Debug)]
pub struct DiffRow {
    /// The question that was replayed.
    pub question: String,
    /// The drift classification.
    pub class: DiffClass,
    /// The baseline record.
    pub baseline: DecisionRecord,
    /// The fresh record from replay.
    pub replay: DecisionRecord,
}

impl Clone for DiffRow {
    fn clone(&self) -> (r: Self)
        ensures
            r.question@ == self.question@,
            r.class == self.class,
            r.baseline@ == self.baseline@,
            r.replay@ == self.replay@,
    {
        DiffRow {
            question: self.question.clone(),
            class: self.class,
            baseline: self.baseline.clone(),
            replay: self.replay.clone(),
        }
    }
}

/// `row` is the diff row of the pair (`b`, `f`) under `values_close`.
pub open spec fn row_of<F: Fn(u64, u64) -> bool>(
    values_close: F,
    row: DiffRow,
    b: RecordView,
    f: RecordView,
) -> bool {
    &&& row.question@ == b.question
    &&& row.baseline@ == b
    &&& row.replay@ == f
    &&& class_by(values_close, b, f, row.class)
}

fn make_row<F: Fn(u64, u64) -> bool>(
    baseline: &DecisionRecord,
    fresh: &DecisionRecord,
    values_close: &F,
) -> (row: DiffRow)
    requires
        forall|a: u64, b: u64| call_requires(*values_close, (a, b)),
    ensures
        row_of(*values_close, row, baseline@, fresh@),
{
    let class = classify_by(baseline, fresh, values_close);
    DiffRow {
        question: baseline.question.clone(),
        class,
        baseline: baseline.clone(),
        replay: fresh.clone(),
    }
}

/// Diff a set of replay records, one row per record, in order.
pub fn diff_records<F: Fn(u64, u64) -> bool>(replays: &Vec<ReplayRecord>, values_close: &F) -> (rows:
    Vec<DiffRow>)
    requires
        forall|a: u64, b: u64| call_requires(*values_close, (a, b)),
    ensures
        rows@.len() == replays@.len(),
        forall|k: int|
            0 <= k < rows@.len() ==> row_of(
                *values_close,
                #[trigger] rows@[k],
                replays@[k].baseline@,
                replays@[k].fresh@,
            ),
{
    let mut rows: Vec<DiffRow> = Vec::new();
    let mut i: usize = 0;
    while i < replays.len()
        invariant
            i <= replays.len(),
            rows@.len() == i,
            forall|a: u64, b: u64| call_requires(*values_close, (a, b)),
            forall|k: int|
                0 <= k < i ==> row_of(
                    *values_close,
                    #[trigger] rows@[k],
                    replays@[k].baseline@,
                    replays@[k].fresh@,
                ),
        decreases replays.len() - i,
    {
        let row = make_row(&replays[i].baseline, &replays[i].fresh, values_close);
        rows.push(row);
        i = i + 1;
    }
    rows
}

/// The index of the first record in `fresh` that poses question `q`.
pub open spec fn first_match(fresh: Seq<RecordView>, q: Seq<char>) -> Option<int>
    decreases fresh.len(),
{
    if fresh.len() == 0 {
        None
    } else if fresh[0].question == q {
        Some(0)
    } else {
        match first_match(fresh.drop_first(), q) {
            Some(i) => Some(i + 1),
            None => None,
        }
    }
}

/// The baseline records that have a fresh record with the same question,
/// in baseline order, each paired with the first such fresh record.
pub open spec fn matched_pairs(baseline: Seq<RecordView>, fresh: Seq<RecordView>) -> Seq<
    (RecordView, RecordView),
>
    decreases baseline.len(),
{
    if baseline.len() == 0 {
        Seq::empty()
    } else {
        let earlier = matched_pairs(baseline.drop_last(), fresh);
        match first_match(fresh, baseline.last().question) {
            Some(j) => earlier.push((baseline.last(), fresh[j])),
            None => earlier,
        }
    }
}

proof fn lemma_first_match(fresh: Seq<RecordView>, q: Seq<char>, j: int)
    requires
        0 <= j <= fresh.len(),
        forall|m: int| 0 <= m < j ==> (#[trigger] fresh[m]).question != q,
    ensures
        j < fresh.len() && fresh[j].question == q ==> first_match(fresh, q) == Some(j),
        j == fresh.len() ==> first_match(fresh, q) is None,
    decreases j,
{
    if j > 0 {
        let rest = fresh.drop_first();
        assert forall|m: int| 0 <= m < j - 1 implies (#[trigger] rest[m]).question != q by {
            assert(rest[m] == fresh[m + 1]);
        }
        lemma_first_match(rest, q, j - 1);
    }
}

proof fn lemma_first_match_found(fresh: Seq<RecordView>, q: Seq<char>)
    ensures
        first_match(fresh, q) matches Some(j) ==> 0 <= j < fresh.len() && fresh[j].question == q,
    decreases fresh.len(),
{
    if fresh.len() > 0 {
        lemma_first_match_found(fresh.drop_first(), q);
    }
}

/// Diff a baseline log against a fresh log by matching on question text:
/// one row per baseline record that has a fresh record with the same
/// question (the first such), in baseline order.
pub fn diff_logs<F: Fn(u64, u64) -> bool>(
    baseline: &Vec<DecisionRecord>,
    fresh: &Vec<DecisionRecord>,
    values_close: &F,
) -> (rows: Vec<DiffRow>)
    requires
        forall|a: u64, b: u64| call_requires(*values_close, (a, b)),
    ensures
        ({
            let pairs = matched_pairs(record_views(baseline@), record_views(fresh@));
            &&& rows@.len() == pairs.len()
            &&& forall|k: int|
                0 <= k < rows@.len() ==> row_of(
                    *values_close,
                    #[trigger] rows@[k],
                    pairs[k].0,
                    pairs[k].1,
                )
        }),
{
    let ghost fv = record_views(fresh@);
    let ghost bv = record_views(baseline@);
    let mut rows: Vec<DiffRow> = Vec::new();
    let mut i: usize = 0;
    assert(bv.take(0) == Seq::<RecordView>::empty());
    while i < baseline.len()
        invariant
            i <= baseline.len(),
            fv == record_views(fresh@),
            bv == record_views(baseline@),
            forall|a: u64, b: u64| call_requires(*values_close, (a, b)),
            ({
                let pairs = matched_pairs(bv.take(i as int), fv);
                &&& rows@.len() == pairs.len()
                &&& forall|k: int|
                    0 <= k < rows@.len() ==> row_of(
                        *values_close,
                        #[trigger] rows@[k],
                        pairs[k].0,
                        pairs[k].1,
                    )
            }),
        decreases baseline.len() - i,
    {
        let b = &baseline[i];
        let ghost prefix = bv.take(i + 1);
        assert(prefix.drop_last() == bv.take(i as int));
        assert(prefix.last() == b@);
        let mut j: usize = 0;
        let mut found = false;
        while j < fresh.len()
            invariant
                j <= fresh.len(),
                fv == record_views(fresh@),
                !found ==> forall|m: int| 0 <= m < j ==> (#[trigger] fv[m]).question != b.question@,
                found ==> j < fresh.len() && fv[j as int].question == b.question@ && forall|m: int|
                    0 <= m < j ==> (#[trigger] fv[m]).question != b.question@,
            ensures
                j <= fresh.len(),
                !found ==> j == fresh.len() && forall|m: int|
                    0 <= m < j ==> (#[trigger] fv[m]).question != b.question@,
                found ==> j < fresh.len() && fv[j as int].question == b.question@ && forall|m: int|
                    0 <= m < j ==> (#[trigger] fv[m]).question != b.question@,
            decreases fresh.len() - j + (if found { 0int } else { 1int }),
        {
            if fresh[j].question == b.question {
                found = true;
                break;
            }
            j = j + 1;
        }
        proof {
            lemma_first_match(fv, b.question@, j as int);
        }
        if found {
            let row = make_row(b, &fresh[j], values_close);
            rows.push(row);
        }
        i = i + 1;
    }
    assert(bv.take(baseline.len() as int) == bv);
    rows
}

// ----------------------------------------------------------------------
// Laws
// ----------------------------------------------------------------------

/// Only the set of pillars matters: listing the fresh record's pillars in
/// another order, or with repeats, leaves the class unchanged.
pub proof fn lemma_plan_order_independent(
    b: RecordView,
    f: RecordView,
    reordered: Seq<Seq<char>>,
    values_close: bool,
)
    requires
        reordered.to_set() == f.pillars_fired.to_set(),
    ensures
        classify_spec(b, RecordView { pillars_fired: reordered, ..f }, values_close)
            == classify_spec(b, f, values_close),
{
}

/// A record compared with itself is unchanged, provided its answer, when
/// present, is judged within tolerance of itself.
pub proof fn lemma_identical_unchanged(r: RecordView, values_close: bool)
    requires
        r.answer_value is None || values_close,
    ensures
        classify_spec(r, r, values_close) == DiffClass::Unchanged,
{
}

/// An answer present on one side only is a value drift whenever nothing
/// earlier changed, whatever the tolerance.
pub proof fn lemma_one_sided_value_drifts(b: RecordView, f: RecordView, values_close: bool)
    requires
        b.outcome == f.outcome,
        b.bound_measure == f.bound_measure,
        b.bound_grain == f.bound_grain,
        same_pillars(b.pillars_fired, f.pillars_fired),
        b.answer_value is Some != f.answer_value is Some,
    ensures
        classify_spec(b, f, values_close) == DiffClass::ValueDrift,
{
}

/// When every baseline question is answered in the fresh log, the diff has
/// one row per baseline record, in baseline order, each paired with a fresh
/// record for the same question.
pub proof fn lemma_all_matched_rows(baseline: Seq<RecordView>, fresh: Seq<RecordView>)
    requires
        forall|k: int|
            0 <= k < baseline.len() ==> (#[trigger] first_match(fresh, baseline[k].question)) is Some,
    ensures
        matched_pairs(baseline, fresh).len() == baseline.len(),
        forall|k: int|
            0 <= k < baseline.len() ==> (#[trigger] matched_pairs(baseline, fresh)[k]).0
                == baseline[k] && matched_pairs(baseline, fresh)[k].1.question
                == baseline[k].question,
    decreases baseline.len(),
{
    if baseline.len() > 0 {
        let init = baseline.drop_last();
        assert forall|k: int| 0 <= k < init.len() implies (#[trigger] first_match(
            fresh,
            init[k].question,
        )) is Some by {
            assert(init[k] == baseline[k]);
        }
        lemma_all_matched_rows(init, fresh);
        lemma_first_match_found(fresh, baseline.last().question);
        assert(first_match(fresh, baseline[baseline.len() - 1].question) is Some);
    }
}

/// A log with distinct questions diffed against itself pairs every record
/// with itself, in order.
pub proof fn lemma_self_diff_pairs(log: Seq<RecordView>)
    requires
        forall|i: int, j: int|
            0 <= i < log.len() && 0 <= j < log.len() && i != j ==> (#[trigger] log[i]).question
                != (#[trigger] log[j]).question,
    ensures
        matched_pairs(log, log).len() == log.len(),
        forall|k: int|
            0 <= k < log.len() ==> (#[trigger] matched_pairs(log, log)[k]) == (log[k], log[k]),
    decreases log.len(),
{
    assert forall|k: int| 0 <= k < log.len() implies first_match(log, log[k].question) == Some(
        k,
    ) by {
        assert forall|m: int| 0 <= m < k implies (#[trigger] log[m]).question != log[k].question by {
        }
        lemma_first_match(log, log[k].question, k);
    }
    lemma_self_pairs_prefix(log, log.len() as int);
    assert(log.take(log.len() as int) == log);
}

proof fn lemma_self_pairs_prefix(log: Seq<RecordView>, n: int)
    requires
        0 <= n <= log.len(),
        forall|k: int| 0 <= k < log.len() ==> first_match(log, #[trigger] log[k].question) == Some(k),
    ensures
        matched_pairs(log.take(n), log).len() == n,
        forall|k: int|
            0 <= k < n ==> (#[trigger] matched_pairs(log.take(n), log)[k]) == (log[k], log[k]),
    decreases n,
{
    if n > 0 {
        lemma_self_pairs_prefix(log, n - 1);
        let p = log.take(n);
        assert(p.drop_last() == log.take(n - 1));
        assert(p.last() == log[n - 1]);
        assert(first_match(log, log[n - 1].question) == Some(n - 1));
    }
}


/// When the tolerance verdict is a function of the two answers, a pair has
/// exactly one class: repeated diffs of the same logs agree.
pub proof fn lemma_class_by_unique<F: Fn(u64, u64) -> bool>(
    values_close: F,
    b: RecordView,
    f: RecordView,
    c1: DiffClass,
    c2: DiffClass,
)
    requires
        class_by(values_close, b, f, c1),
        class_by(values_close, b, f, c2),
        forall|x: u64, y: u64, w1: bool, w2: bool|
            call_ensures(values_close, (x, y), w1) && call_ensures(values_close, (x, y), w2) ==> w1
                == w2,
    ensures
        c1 == c2,
{
    if value_step_reached(b, f) {
        let w1 = choose|w: bool|
            call_ensures(values_close, (b.answer_value->0, f.answer_value->0), w) && c1
                == classify_spec(b, f, w);
        let w2 = choose|w: bool|
            call_ensures(values_close, (b.answer_value->0, f.answer_value->0), w) && c2
                == classify_spec(b, f, w);
    }
}


/// No class depends on which side is the baseline: swapping the two
/// records leaves the class unchanged under the same verdict.
pub proof fn lemma_classify_symmetric(b: RecordView, f: RecordView, values_close: bool)
    ensures
        classify_spec(b, f, values_close) == classify_spec(f, b, values_close),
{
}

/// With a verdict that is a function of the two answers and does not depend
/// on their order, a pair and the swapped pair get the same class.
pub proof fn lemma_class_by_symmetric<F: Fn(u64, u64) -> bool>(
    values_close: F,
    b: RecordView,
    f: RecordView,
    c1: DiffClass,
    c2: DiffClass,
)
    requires
        class_by(values_close, b, f, c1),
        class_by(values_close, f, b, c2),
        forall|x: u64, y: u64, w1: bool, w2: bool|
            call_ensures(values_close, (x, y), w1) && call_ensures(values_close, (x, y), w2) ==> w1
                == w2,
        forall|x: u64, y: u64, w: bool|
            call_ensures(values_close, (x, y), w) ==> call_ensures(values_close, (y, x), w),
    ensures
        c1 == c2,
{
    if value_step_reached(b, f) {
        assert(value_step_reached(f, b));
        let x = b.answer_value->0;
        let y = f.answer_value->0;
        let w1 = choose|w: bool| call_ensures(values_close, (x, y), w) && c1 == classify_spec(b, f, w);
        let w2 = choose|w: bool| call_ensures(values_close, (y, x), w) && c2 == classify_spec(f, b, w);
        assert(call_ensures(values_close, (y, x), w1));
    }
}

/// The fresh record for question `q`, if the fresh log has one (the first).
pub open spec fn pick(fresh: Seq<RecordView>, q: Seq<char>) -> Option<RecordView> {
    match first_match(fresh, q) {
        Some(j) => Some(fresh[j]),
        None => None,
    }
}

/// No two records of the log pose the same question.
pub open spec fn distinct_questions(log: Seq<RecordView>) -> bool {
    forall|i: int, j: int|
        0 <= i < log.len() && 0 <= j < log.len() && i != j ==> (#[trigger] log[i]).question
            != (#[trigger] log[j]).question
}

proof fn lemma_pick_unique(fresh: Seq<RecordView>, q: Seq<char>)
    requires
        distinct_questions(fresh),
    ensures
        pick(fresh, q) matches Some(r) ==> fresh.contains(r) && r.question == q,
        pick(fresh, q) is None ==> forall|k: int| 0 <= k < fresh.len() ==> (#[trigger] fresh[k]).question != q,
        forall|k: int| 0 <= k < fresh.len() && (#[trigger] fresh[k]).question == q ==> pick(fresh, q) == Some(fresh[k]),
{
    lemma_first_match_found(fresh, q);
    assert forall|k: int| 0 <= k < fresh.len() && (#[trigger] fresh[k]).question == q implies pick(
        fresh,
        q,
    ) == Some(fresh[k]) by {
        assert forall|m: int| 0 <= m < k implies (#[trigger] fresh[m]).question != q by {}
        lemma_first_match(fresh, q, k);
    }
    if pick(fresh, q) is None {
        assert forall|k: int| 0 <= k < fresh.len() implies (#[trigger] fresh[k]).question != q by {
            if fresh[k].question == q {
                assert forall|m: int| 0 <= m < k implies (#[trigger] fresh[m]).question != q by {}
                lemma_first_match(fresh, q, k);
            }
        }
    }
    if pick(fresh, q) is Some {
        let j = first_match(fresh, q)->0;
        assert(fresh[j] == pick(fresh, q)->0);
    }
}

proof fn lemma_pairs_by_pick(baseline: Seq<RecordView>, f1: Seq<RecordView>, f2: Seq<RecordView>)
    requires
        forall|q: Seq<char>| pick(f1, q) == pick(f2, q),
    ensures
        matched_pairs(baseline, f1) == matched_pairs(baseline, f2),
    decreases baseline.len(),
{
    if baseline.len() > 0 {
        lemma_pairs_by_pick(baseline.drop_last(), f1, f2);
        let q = baseline.last().question;
        assert(pick(f1, q) == pick(f2, q));
    }
}

/// When the fresh log poses each question at most once, its order does not
/// matter: any reordering of it gives the same diff pairs, row for row.
pub proof fn lemma_fresh_order_irrelevant(
    baseline: Seq<RecordView>,
    fresh: Seq<RecordView>,
    reordered: Seq<RecordView>,
)
    requires
        distinct_questions(fresh),
        reordered.to_multiset() == fresh.to_multiset(),
    ensures
        matched_pairs(baseline, reordered) == matched_pairs(baseline, fresh),
{
    broadcast use vstd::seq_lib::group_to_multiset_ensures;

    assert forall|r: RecordView| fresh.contains(r) <==> reordered.contains(r) by {
        vstd::seq_lib::to_multiset_contains(fresh, r);
        vstd::seq_lib::to_multiset_contains(reordered, r);
    }
    assert(distinct_questions(reordered)) by {
        assert forall|i: int, j: int|
            0 <= i < reordered.len() && 0 <= j < reordered.len() && i != j implies (
            #[trigger] reordered[i]).question != (#[trigger] reordered[j]).question by {
            if reordered[i].question == reordered[j].question {
                let x = reordered[i];
                let y = reordered[j];
                assert(reordered.contains(x) && reordered.contains(y));
                let a = choose|a: int| 0 <= a < fresh.len() && fresh[a] == x;
                let c = choose|c: int| 0 <= c < fresh.len() && fresh[c] == y;
                assert(a == c);
                // x == y occurs twice in `reordered` but once in `fresh`
                assert(x == y);
                lemma_count_two(reordered, i, j);
                lemma_count_one(fresh, a);
                assert(fresh.to_multiset().count(x) == reordered.to_multiset().count(x));
            }
        }
    }
    assert forall|q: Seq<char>| pick(reordered, q) == pick(fresh, q) by {
        lemma_pick_unique(fresh, q);
        lemma_pick_unique(reordered, q);
        match pick(fresh, q) {
            Some(r) => {
                let k = choose|k: int| 0 <= k < reordered.len() && reordered[k] == r;
                assert(reordered[k].question == q);
            },
            None => {
                if let Some(r) = pick(reordered, q) {
                    let k = choose|k: int| 0 <= k < fresh.len() && fresh[k] == r;
                    assert(fresh[k].question == q);
                }
            },
        }
    }
    lemma_pairs_by_pick(baseline, reordered, fresh);
}

proof fn lemma_count_two(s: Seq<RecordView>, i: int, j: int)
    requires
        0 <= i < j < s.len() || 0 <= j < i < s.len(),
        s[i] == s[j],
    ensures
        s.to_multiset().count(s[i]) >= 2,
{
    broadcast use vstd::seq_lib::group_to_multiset_ensures;

    let x = s[i];
    let lo = if i < j { i } else { j };
    let hi = if i < j { j } else { i };
    let s1 = s.remove(hi);
    assert(s1[lo] == x);
    assert(s1.contains(x));
    assert(s1.to_multiset().count(x) >= 1);
    assert(s1.to_multiset() == s.to_multiset().remove(x));
}

proof fn lemma_count_one(s: Seq<RecordView>, a: int)
    requires
        0 <= a < s.len(),
        distinct_questions(s),
    ensures
        s.to_multiset().count(s[a]) == 1,
{
    broadcast use vstd::seq_lib::group_to_multiset_ensures;

    let x = s[a];
    let s1 = s.remove(a);
    assert(!s1.contains(x)) by {
        if s1.contains(x) {
            let m = choose|m: int| 0 <= m < s1.len() && s1[m] == x;
            if m < a {
                assert(s[m] == x);
            } else {
                assert(s[m + 1] == x);
            }
        }
    }
    assert(s1.to_multiset().count(x) == 0);
    assert(s1.to_multiset() == s.to_multiset().remove(x));
}


/// The priority of the drift classes, stated field by field: a changed
/// outcome is always `outcome_drift`; otherwise a changed bound measure or
/// grain is `bind_drift`; otherwise a pillar fired on one side only is
/// `plan_drift`; otherwise an answer on one side only is `value_drift`, two
/// answers are `unchanged` exactly when judged close, and no answers is
/// `unchanged`.
pub proof fn lemma_classify_priority(b: RecordView, f: RecordView, values_close: bool)
    ensures
        b.outcome != f.outcome ==> classify_spec(b, f, values_close) == DiffClass::OutcomeDrift,
        b.outcome == f.outcome && (b.bound_measure != f.bound_measure || b.bound_grain
            != f.bound_grain) ==> classify_spec(b, f, values_close) == DiffClass::BindDrift,
        b.outcome == f.outcome && b.bound_measure == f.bound_measure && b.bound_grain
            == f.bound_grain && (exists|p: Seq<char>|
            b.pillars_fired.contains(p) != f.pillars_fired.contains(p)) ==> classify_spec(
            b,
            f,
            values_close,
        ) == DiffClass::PlanDrift,
        classify_spec(b, f, values_close) == DiffClass::Unchanged ==> {
            &&& b.outcome == f.outcome
            &&& b.bound_measure == f.bound_measure
            &&& b.bound_grain == f.bound_grain
            &&& forall|p: Seq<char>| b.pillars_fired.contains(p) == f.pillars_fired.contains(p)
            &&& b.answer_value is Some == f.answer_value is Some
            &&& b.answer_value is Some ==> values_close
        },
        b.outcome == f.outcome && b.bound_measure == f.bound_measure && b.bound_grain
            == f.bound_grain && (forall|p: Seq<char>|
            b.pillars_fired.contains(p) == f.pillars_fired.contains(p)) ==> classify_spec(
            b,
            f,
            values_close,
        ) == (if b.answer_value is Some != f.answer_value is Some {
            DiffClass::ValueDrift
        } else if b.answer_value is Some && !values_close {
            DiffClass::ValueDrift
        } else {
            DiffClass::Unchanged
        }),
{
    let sb = b.pillars_fired.to_set();
    let sf = f.pillars_fired.to_set();
    if exists|p: Seq<char>| b.pillars_fired.contains(p) != f.pillars_fired.contains(p) {
        let p = choose|p: Seq<char>| b.pillars_fired.contains(p) != f.pillars_fired.contains(p);
        assert(sb.contains(p) != sf.contains(p));
        assert(sb != sf);
    }
    if forall|p: Seq<char>| b.pillars_fired.contains(p) == f.pillars_fired.contains(p) {
        assert(sb =~= sf);
    }
    if sb == sf {
        assert forall|p: Seq<char>| b.pillars_fired.contains(p) == f.pillars_fired.contains(p) by {
            assert(sb.contains(p) == sf.contains(p));
        }
    }
}

/// The same priority holds when the tolerance verdict comes from a
/// closure: an outcome change is `outcome_drift`, then a binding change is
/// `bind_drift`, then a pillar on one side only is `plan_drift`, then an
/// answer on one side only is `value_drift`; and a pair is `unchanged` only
/// when all of these agree and, where both have answers, the closure judged
/// them close.
pub proof fn lemma_class_by_priority<F: Fn(u64, u64) -> bool>(
    values_close: F,
    b: RecordView,
    f: RecordView,
    c: DiffClass,
)
    requires
        class_by(values_close, b, f, c),
    ensures
        b.outcome != f.outcome ==> c == DiffClass::OutcomeDrift,
        b.outcome == f.outcome && (b.bound_measure != f.bound_measure || b.bound_grain
            != f.bound_grain) ==> c == DiffClass::BindDrift,
        b.outcome == f.outcome && b.bound_measure == f.bound_measure && b.bound_grain
            == f.bound_grain && (exists|p: Seq<char>|
            b.pillars_fired.contains(p) != f.pillars_fired.contains(p)) ==> c
            == DiffClass::PlanDrift,
        b.outcome == f.outcome && b.bound_measure == f.bound_measure && b.bound_grain
            == f.bound_grain && (forall|p: Seq<char>|
            b.pillars_fired.contains(p) == f.pillars_fired.contains(p)) && (b.answer_value is Some
            != f.answer_value is Some) ==> c == DiffClass::ValueDrift,
        c == DiffClass::Unchanged ==> {
            &&& b.outcome == f.outcome
            &&& b.bound_measure == f.bound_measure
            &&& b.bound_grain == f.bound_grain
            &&& forall|p: Seq<char>| b.pillars_fired.contains(p) == f.pillars_fired.contains(p)
            &&& b.answer_value is Some == f.answer_value is Some
            &&& b.answer_value is Some ==> call_ensures(
                values_close,
                (b.answer_value->0, f.answer_value->0),
                true,
            )
        },
{
    if value_step_reached(b, f) {
        let w = choose|w: bool|
            call_ensures(values_close, (b.answer_value->0, f.answer_value->0), w) && c
                == classify_spec(b, f, w);
        lemma_classify_priority(b, f, w);
    } else {
        lemma_classify_priority(b, f, true);
    }
}

} // verus!
