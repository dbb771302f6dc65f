//! The decision record, its validation, and the framing of a JSONL decision
//! log into numbered lines.
//!
//! A record's two numeric fields are IEEE-754 doubles; the library holds
//! each as its bit pattern (`f64::to_bits`), which it carries and compares
//! for presence but never computes with.
use vstd::prelude::*;

use crate::text::{
    append_decimal, append_text, decimal_spec, join_spec, same_text, split, split_spec, texts, trim,
    trim_spec,
};

verus! {

/// The canonical decision record schema.
#[derive(Debug)]
pub struct DecisionRecord {
    /// ISO-8601 / RFC-3339 timestamp.
    pub ts: String,
    /// Session identifier.
    pub session: String,
    /// The question that was posed.
    pub question: String,
    /// Ordered list of plan steps.
    pub plan: Vec<String>,
    /// Access policy verdict.
    pub access_verdict: String,
    /// Budget consumed, as the bit pattern of a double.
    pub budget_consumed: u64,
    /// Pillars that fired during this decision.
    pub pillars_fired: Vec<String>,
    /// Outcome: "answered" | "clarify" | "blocked".
    pub outcome: String,
    /// Optional credential id.
    pub credential_id: Option<String>,
    /// Optional numeric answer, as the bit pattern of a double.
    pub answer_value: Option<u64>,
    /// Optional bound measure name.
    pub bound_measure: Option<String>,
    /// Optional bound grain.
    pub bound_grain: Option<String>,
}

/// The mathematical content of a `DecisionRecord`.
pub struct RecordView {
    pub ts: Seq<char>,
    pub session: Seq<char>,
    pub question: Seq<char>,
    pub plan: Seq<Seq<char>>,
    pub access_verdict: Seq<char>,
    pub budget_consumed: u64,
    pub pillars_fired: Seq<Seq<char>>,
    pub outcome: Seq<char>,
    pub credential_id: Option<Seq<char>>,
    pub answer_value: Option<u64>,
    pub bound_measure: Option<Seq<char>>,
    pub bound_grain: Option<Seq<char>>,
}

/// The text of an optional string.
pub open spec fn opt_text(o: Option<String>) -> Option<Seq<char>> {
    match o {
        Some(s) => Some(s@),
        None => None,
    }
}

impl View for DecisionRecord {
    type V = RecordView;

    open spec fn view(&self) -> RecordView {
        RecordView {
            ts: self.ts@,
            session: self.session@,
            question: self.question@,
            plan: texts(self.plan@),
            access_verdict: self.access_verdict@,
            budget_consumed: self.budget_consumed,
            pillars_fired: texts(self.pillars_fired@),
            outcome: self.outcome@,
            credential_id: opt_text(self.credential_id),
            answer_value: self.answer_value,
            bound_measure: opt_text(self.bound_measure),
            bound_grain: opt_text(self.bound_grain),
        }
    }
}

/// The views of a sequence of records.
pub open spec fn record_views(v: Seq<DecisionRecord>) -> Seq<RecordView> {
    v.map_values(|r: DecisionRecord| r@)
}

/// A copy of a list of strings.
pub fn copy_strings(v: &Vec<String>) -> (r: Vec<String>)
    ensures
        texts(r@) == texts(v@),
{
    let mut r: Vec<String> = Vec::new();
    let mut i: usize = 0;
    while i < v.len()
        invariant
            i <= v.len(),
            r@.len() == i,
            forall|k: int| 0 <= k < i ==> #[trigger] r@[k]@ == v@[k]@,
        decreases v.len() - i,
    {
        r.push(v[i].clone());
        i = i + 1;
    }
    assert(texts(r@) =~= texts(v@));
    r
}

/// A copy of an optional string.
pub fn copy_opt(o: &Option<String>) -> (r: Option<String>)
    ensures
        opt_text(r) == opt_text(*o),
{
    match o {
        Some(s) => Some(s.clone()),
        None => None,
    }
}

impl Clone for DecisionRecord {
    fn clone(&self) -> (r: Self)
        ensures
            r@ == self@,
    {
        DecisionRecord {
            ts: self.ts.clone(),
            session: self.session.clone(),
            question: self.question.clone(),
            plan: copy_strings(&self.plan),
            access_verdict: self.access_verdict.clone(),
            budget_consumed: self.budget_consumed,
            pillars_fired: copy_strings(&self.pillars_fired),
            outcome: self.outcome.clone(),
            credential_id: copy_opt(&self.credential_id),
            answer_value: self.answer_value,
            bound_measure: copy_opt(&self.bound_measure),
            bound_grain: copy_opt(&self.bound_grain),
        }
    }
}

/// Why a record fails validation.
#[derive(Debug)]
pub enum RecordError {
    /// The timestamp is empty.
    MissingTs,
    /// The question is empty.
    MissingQuestion,
    /// The outcome is not one of the three known outcomes.
    BadOutcome { outcome: String },
}

/// The text that `{:?}` writes for a string: the string quoted and escaped.
pub uninterp spec fn debug_text(s: Seq<char>) -> Seq<char>;

/// `<str as Debug>::fmt`, through `format!("{:?}", ..)`: the string in
/// double quotes with std's escapes. The contract names the result only; it
/// does not restate which characters std escapes.
#[verifier::external_body]
fn debug_quoted(s: &str) -> (r: String)
    ensures
        r@ == debug_text(s@),
{
    format!("{:?}", s)
}

/// The message of a validation error.
pub open spec fn record_error_text(e: RecordError) -> Seq<char> {
    match e {
        RecordError::MissingTs => "record missing required field: ts"@,
        RecordError::MissingQuestion => "record missing required field: question"@,
        RecordError::BadOutcome { outcome } => "record.outcome must be one of: answered, clarify, blocked (got "@
            + debug_text(outcome@) + ")"@,
    }
}

impl RecordError {
    /// The error's message.
    pub fn message(&self) -> (m: String)
        ensures
            m@ == record_error_text(*self),
    {
        match self {
            RecordError::MissingTs => String::from_str("record missing required field: ts"),
            RecordError::MissingQuestion => String::from_str(
                "record missing required field: question",
            ),
            RecordError::BadOutcome { outcome } => {
                let mut m = String::from_str(
                    "record.outcome must be one of: answered, clarify, blocked (got ",
                );
                let q = debug_quoted(outcome.as_str());
                append_text(&mut m, q.as_str());
                append_text(&mut m, ")");
                m
            },
        }
    }
}

/// The three outcomes a decision can have.
pub open spec fn is_outcome(o: Seq<char>) -> bool {
    ||| o == "answered"@
    ||| o == "clarify"@
    ||| o == "blocked"@
}

/// Whether a record passes validation.
pub open spec fn record_valid(r: RecordView) -> bool {
    r.ts.len() > 0 && r.question.len() > 0 && is_outcome(r.outcome)
}

/// `e` is the error that validation reports for `r`: the first failed
/// check, in the order timestamp, question, outcome.
pub open spec fn validation_error(r: RecordView, e: RecordError) -> bool {
    match e {
        RecordError::MissingTs => r.ts.len() == 0,
        RecordError::MissingQuestion => r.ts.len() > 0 && r.question.len() == 0,
        RecordError::BadOutcome { outcome } => {
            &&& r.ts.len() > 0
            &&& r.question.len() > 0
            &&& !is_outcome(r.outcome)
            &&& outcome@ == r.outcome
        },
    }
}

impl DecisionRecord {
    /// Validate that this record has the required fields and a known outcome.
    pub fn validate(&self) -> (res: Result<(), RecordError>)
        ensures
            res is Ok <==> record_valid(self@),
            res matches Err(e) ==> validation_error(self@, e),
    {
        if self.ts.as_str().is_empty() {
            return Err(RecordError::MissingTs);
        }
        if self.question.as_str().is_empty() {
            return Err(RecordError::MissingQuestion);
        }
        let o = self.outcome.as_str();
        if same_text(o, "answered") || same_text(o, "clarify") || same_text(o, "blocked") {
            Ok(())
        } else {
            Err(RecordError::BadOutcome { outcome: self.outcome.clone() })
        }
    }
}

/// One non-blank line of a log: its 1-based number and its trimmed text.
#[derive(Debug)]
pub struct LogLine {
    pub number: usize,
    pub text: String,
}

/// The non-blank lines among `pieces`, numbered from 1 by their position
/// in `pieces`, each trimmed of white space.
pub open spec fn framed_lines(pieces: Seq<Seq<char>>) -> Seq<(int, Seq<char>)>
    decreases pieces.len(),
{
    if pieces.len() == 0 {
        Seq::empty()
    } else {
        let earlier = framed_lines(pieces.drop_last());
        let t = trim_spec(pieces.last());
        if t.len() > 0 {
            earlier.push((pieces.len() as int, t))
        } else {
            earlier
        }
    }
}

/// The records of a log are its non-blank lines, where lines end at `'\n'`.
pub open spec fn log_lines_spec(content: Seq<char>) -> Seq<(int, Seq<char>)> {
    framed_lines(split_spec(content, '\n'))
}

/// The framed lines as (number, text) pairs.
pub open spec fn line_views(v: Seq<LogLine>) -> Seq<(int, Seq<char>)> {
    v.map_values(|l: LogLine| (l.number as int, l.text@))
}

/// Split a JSONL log into its non-blank lines, each trimmed and numbered
/// from 1 by its line in `content`.
pub fn frame_log(content: &str) -> (lines: Vec<LogLine>)
    ensures
        line_views(lines@) == log_lines_spec(content@),
{
    let pieces = split(content, '\n');
    let mut lines: Vec<LogLine> = Vec::new();
    let mut i: usize = 0;
    assert(texts(pieces@).take(0) == Seq::<Seq<char>>::empty());
    while i < pieces.len()
        invariant
            i <= pieces.len(),
            line_views(lines@) == framed_lines(texts(pieces@).take(i as int)),
        decreases pieces.len() - i,
    {
        let t = trim(pieces[i].as_str());
        let ghost ps = texts(pieces@).take(i + 1);
        assert(ps.drop_last() == texts(pieces@).take(i as int));
        assert(ps.last() == pieces@[i as int]@);
        if !t.as_str().is_empty() {
            lines.push(LogLine { number: i + 1, text: t });
            assert(line_views(lines@) == framed_lines(ps));
        }
        i = i + 1;
    }
    assert(texts(pieces@).take(pieces.len() as int) == texts(pieces@));
    lines
}

/// Why a log is refused.
#[derive(Debug)]
pub enum LogError {
    /// A line is not a well-formed record; `message` is the parser's account.
    Syntax { line: usize, message: String },
    /// A line parsed but the record fails validation.
    Invalid(RecordError),
}

/// The message of a log error.
pub open spec fn log_error_text(e: LogError) -> Seq<char> {
    match e {
        LogError::Syntax { line, message } => "line "@ + decimal_spec(line as nat) + ": "@ + message@,
        LogError::Invalid(re) => record_error_text(re),
    }
}

impl LogError {
    /// The error's message.
    pub fn message(&self) -> (m: String)
        ensures
            m@ == log_error_text(*self),
    {
        match self {
            LogError::Syntax { line, message } => {
                let mut m = String::from_str("line ");
                append_decimal(&mut m, *line);
                append_text(&mut m, ": ");
                append_text(&mut m, message.as_str());
                m
            },
            LogError::Invalid(re) => re.message(),
        }
    }
}

/// One framed line after parsing: its number and the parsed record or the
/// parser's error message.
pub type ParsedLine = (usize, Result<DecisionRecord, String>);

/// Whether a parsed line holds a record that passes validation.
pub open spec fn line_ok(p: ParsedLine) -> bool {
    match p.1 {
        Ok(r) => record_valid(r@),
        Err(_) => false,
    }
}

/// Whether a parsed line holds a record whose view is `r`.
pub open spec fn line_holds(p: ParsedLine, r: RecordView) -> bool {
    match p.1 {
        Ok(x) => x@ == r,
        Err(_) => false,
    }
}

/// `e` is the error that a bad parsed line `p` makes the log report.
pub open spec fn line_error(p: ParsedLine, e: LogError) -> bool {
    match p.1 {
        Err(m) => e matches LogError::Syntax { line, message } && line == p.0 && message@ == m@,
        Ok(r) => e matches LogError::Invalid(re) && validation_error(r@, re),
    }
}

/// Assemble a log from its parsed lines: all records, in order, when every
/// line parsed and validated; otherwise the error of the first bad line.
pub fn assemble_log(parsed: &Vec<ParsedLine>) -> (res: Result<Vec<DecisionRecord>, LogError>)
    ensures
        res is Ok <==> forall|k: int| 0 <= k < parsed@.len() ==> line_ok(#[trigger] parsed@[k]),
        res matches Ok(recs) ==> {
            &&& recs@.len() == parsed@.len()
            &&& forall|k: int|
                0 <= k < parsed@.len() ==> line_holds(parsed@[k], #[trigger] recs@[k]@)
        },
        res matches Err(e) ==> exists|k: int|
            0 <= k < parsed@.len() && (forall|j: int| 0 <= j < k ==> line_ok(#[trigger] parsed@[j]))
                && !line_ok(#[trigger] parsed@[k]) && line_error(parsed@[k], e),
{
    let mut recs: Vec<DecisionRecord> = Vec::new();
    let mut i: usize = 0;
    while i < parsed.len()
        invariant
            i <= parsed.len(),
            recs@.len() == i,
            forall|j: int| 0 <= j < i ==> line_ok(#[trigger] parsed@[j]),
            forall|j: int| 0 <= j < i ==> line_holds(parsed@[j], #[trigger] recs@[j]@),
        decreases parsed.len() - i,
    {
        match &parsed[i].1 {
            Err(m) => {
                let e = LogError::Syntax { line: parsed[i].0, message: m.clone() };
                assert(!line_ok(parsed@[i as int]) && line_error(parsed@[i as int], e));
                return Err(e);
            },
            Ok(r) => {
                match r.validate() {
                    Err(re) => {
                        let e = LogError::Invalid(re);
                        assert(!line_ok(parsed@[i as int]) && line_error(parsed@[i as int], e));
                        return Err(e);
                    },
                    Ok(()) => {
                        recs.push(r.clone());
                    },
                }
            },
        }
        i = i + 1;
    }
    Ok(recs)
}


/// The lines of a framed log are non-blank, carry the numbers of the lines
/// they came from (from 1), and come in increasing line order.
pub proof fn lemma_framed_lines(pieces: Seq<Seq<char>>)
    ensures
        forall|i: int|
            0 <= i < framed_lines(pieces).len() ==> {
                let l = #[trigger] framed_lines(pieces)[i];
                &&& 1 <= l.0 <= pieces.len()
                &&& l.1.len() > 0
                &&& l.1 == trim_spec(pieces[l.0 - 1])
            },
        forall|i: int, j: int|
            0 <= i < j < framed_lines(pieces).len() ==> (#[trigger] framed_lines(pieces)[i]).0
                < (#[trigger] framed_lines(pieces)[j]).0,
    decreases pieces.len(),
{
    if pieces.len() > 0 {
        let init = pieces.drop_last();
        lemma_framed_lines(init);
        let e = framed_lines(init);
        let f = framed_lines(pieces);
        assert forall|i: int| 0 <= i < f.len() implies {
            let l = #[trigger] f[i];
            &&& 1 <= l.0 <= pieces.len()
            &&& l.1.len() > 0
            &&& l.1 == trim_spec(pieces[l.0 - 1])
        } by {
            if i < e.len() {
                assert(f[i] == e[i]);
                assert(pieces[e[i].0 - 1] == init[e[i].0 - 1]);
            }
        }
        assert forall|i: int, j: int| 0 <= i < j < f.len() implies (#[trigger] f[i]).0 < (
        #[trigger] f[j]).0 by {
            assert(f[i] == e[i]);
            if j < e.len() {
                assert(f[j] == e[j]);
            }
        }
    }
}


proof fn lemma_framed_complete(pieces: Seq<Seq<char>>)
    ensures
        forall|i: int|
            0 <= i < pieces.len() && trim_spec(#[trigger] pieces[i]).len() > 0 ==> framed_lines(
                pieces,
            ).contains((i + 1, trim_spec(pieces[i]))),
    decreases pieces.len(),
{
    if pieces.len() > 0 {
        let init = pieces.drop_last();
        lemma_framed_complete(init);
        let e = framed_lines(init);
        let f = framed_lines(pieces);
        assert forall|i: int|
            0 <= i < pieces.len() && trim_spec(#[trigger] pieces[i]).len() > 0 implies f.contains(
            (i + 1, trim_spec(pieces[i])),
        ) by {
            if i < pieces.len() - 1 {
                assert(init[i] == pieces[i]);
                assert(trim_spec(init[i]).len() > 0);
                let k = choose|k: int| 0 <= k < e.len() && e[k] == (i + 1, trim_spec(init[i]));
                assert(f[k] == e[k]);
            } else {
                assert(f.last() == (pieces.len() as int, trim_spec(pieces.last())));
            }
        }
    }
}

/// Framing keeps every record of a log and invents none: each line of
/// `content` (the text between newlines, the last one included whether or
/// not a newline ends it) that is not blank is framed as its 1-based number
/// and its trimmed text, and every framed line is such a line, in order.
pub proof fn lemma_log_lines_complete(content: Seq<char>)
    ensures
        ({
            let lines = split_spec(content, '\n');
            let framed = log_lines_spec(content);
            &&& join_spec(lines, seq!['\n']) == content
            &&& forall|i: int, k: int|
                0 <= i < lines.len() && 0 <= k < lines[i].len() ==> (#[trigger] lines[i][k])
                    != '\n'
            &&& forall|i: int|
                0 <= i < lines.len() && trim_spec(#[trigger] lines[i]).len() > 0 ==> framed.contains(
                    (i + 1, trim_spec(lines[i])),
                )
            &&& forall|k: int|
                0 <= k < framed.len() ==> 1 <= (#[trigger] framed[k]).0 <= lines.len()
                    && framed[k].1 == trim_spec(lines[framed[k].0 - 1]) && framed[k].1.len() > 0
            &&& forall|k: int, m: int|
                0 <= k < m < framed.len() ==> (#[trigger] framed[k]).0 < (#[trigger] framed[m]).0
        }),
{
    let lines = split_spec(content, '\n');
    crate::text::lemma_split_inverse(content, '\n');
    lemma_framed_complete(lines);
    lemma_framed_lines(lines);
}

} // verus!
