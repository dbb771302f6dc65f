//! Replay bookkeeping: which logged questions are replayed, and the pairing
//! of each with the fresh record that the agent produced for it.
//!
//! Asking the agent is outside work; `ReplayRun` is the state of a replay
//! between agent calls. A driver asks `next_question`, runs the agent on
//! it, hands the result to `record_fresh`, and stops when no question is
//! left or when the agent fails.
use vstd::prelude::*;

use crate::record::{DecisionRecord, RecordView, copy_opt, opt_text, record_views};
use crate::text::{append_text, text_less, text_lt};
use crate::timestamp::{at_or_after, parse_timestamp, timestamp_at_or_after, timestamp_instant};

verus! {

/// Configuration for a replay run.
#[derive(Debug)]
pub struct ReplayConfig {
    /// Command to invoke as the agent subprocess.
    pub agent_cmd: String,
    /// Only replay records at or after this ISO-8601 timestamp (see `since_spec`).
    pub since: Option<String>,
}

impl Default for ReplayConfig {
    /// The agent command `mqo-agent`, and no timestamp filter.
    fn default() -> (r: Self)
        ensures
            r.agent_cmd@ == "mqo-agent"@,
            r.since is None,
    {
        ReplayConfig { agent_cmd: String::from_str("mqo-agent"), since: None }
    }
}

impl Clone for ReplayConfig {
    fn clone(&self) -> (r: Self)
        ensures
            r.agent_cmd@ == self.agent_cmd@,
            opt_text(r.since) == opt_text(self.since),
    {
        ReplayConfig { agent_cmd: self.agent_cmd.clone(), since: copy_opt(&self.since) }
    }
}

/// A replay configuration from optional request parameters: the agent
/// command defaults to `mqo-agent`.
pub fn replay_config_from(agent: Option<String>, since: Option<String>) -> (r: ReplayConfig)
    ensures
        r.agent_cmd@ == (match agent {
            Some(a) => a@,
            None => "mqo-agent"@,
        }),
        opt_text(r.since) == opt_text(since),
{
    match agent {
        Some(a) => ReplayConfig { agent_cmd: a, since },
        None => ReplayConfig { agent_cmd: String::from_str("mqo-agent"), since },
    }
}

/// A fresh record produced by replaying a logged question.
#[derive(Debug)]
pub struct ReplayRecord {
    /// The logged record (baseline).
    pub baseline: DecisionRecord,
    /// The fresh record from replaying through the current agent.
    pub fresh: DecisionRecord,
}

impl Clone for ReplayRecord {
    fn clone(&self) -> (r: Self)
        ensures
            r.baseline@ == self.baseline@,
            r.fresh@ == self.fresh@,
    {
        ReplayRecord { baseline: self.baseline.clone(), fresh: self.fresh.clone() }
    }
}

/// A record with timestamp `ts` is replayed under the `since` filter when
/// there is no filter, or when it is at or after `since` in time. When
/// either text is not an RFC-3339 timestamp, the two are compared as
/// strings instead.
pub open spec fn since_spec(ts: Seq<char>, since: Option<Seq<char>>) -> bool {
    match since {
        None => true,
        Some(s) => match (timestamp_instant(ts), timestamp_instant(s)) {
            (Some(a), Some(b)) => at_or_after(a, b),
            _ => !text_lt(ts, s),
        },
    }
}

/// Whether `record` passes the `since` filter.
pub fn passes_since_filter(record: &DecisionRecord, since: &Option<String>) -> (r: bool)
    ensures
        r == since_spec(record.ts@, opt_text(*since)),
{
    match since {
        None => true,
        Some(since_ts) => match (
            parse_timestamp(record.ts.as_str()),
            parse_timestamp(since_ts.as_str()),
        ) {
            (Some(a), Some(b)) => timestamp_at_or_after(&a, &b),
            _ => !text_less(record.ts.as_str(), since_ts.as_str()),
        },
    }
}

/// The records of `baseline` that pass the `since` filter, in order.
pub open spec fn selected_spec(baseline: Seq<RecordView>, since: Option<Seq<char>>) -> Seq<
    RecordView,
>
    decreases baseline.len(),
{
    if baseline.len() == 0 {
        Seq::empty()
    } else {
        let earlier = selected_spec(baseline.drop_last(), since);
        if since_spec(baseline.last().ts, since) {
            earlier.push(baseline.last())
        } else {
            earlier
        }
    }
}

/// The agent failed on a question: the replay stops there.
#[derive(Debug)]
pub struct ReplayFailure {
    /// The question the agent failed on.
    pub question: String,
}

impl ReplayFailure {
    /// The context that the failure is reported with.
    pub fn message(&self) -> (m: String)
        ensures
            m@ == "replaying question: "@ + self.question@,
    {
        let mut m = String::from_str("replaying question: ");
        append_text(&mut m, self.question.as_str());
        m
    }
}

/// The state of a replay between agent calls.
#[derive(Debug)]
pub struct ReplayRun {
    queue: Vec<DecisionRecord>,
    done: Vec<ReplayRecord>,
}

impl ReplayRun {
    /// The records to replay, in order.
    pub closed spec fn selected(&self) -> Seq<RecordView> {
        record_views(self.queue@)
    }

    /// The (baseline, fresh) pairs replayed so far.
    pub closed spec fn completed(&self) -> Seq<(RecordView, RecordView)> {
        self.done@.map_values(|r: ReplayRecord| (r.baseline@, r.fresh@))
    }

    /// The replayed pairs are a prefix of the selected records, each paired
    /// with its fresh record.
    #[verifier::type_invariant]
    closed spec fn wf(&self) -> bool {
        &&& self.done@.len() <= self.queue@.len()
        &&& forall|k: int|
            0 <= k < self.done@.len() ==> (#[trigger] self.done@[k]).baseline@ == self.queue@[k]@
    }

    /// Start a replay of the records of `baseline` that pass the
    /// configuration's `since` filter.
    pub fn new(baseline: &Vec<DecisionRecord>, config: &ReplayConfig) -> (run: Self)
        ensures
            run.selected() == selected_spec(record_views(baseline@), opt_text(config.since)),
            run.selected() == record_views(baseline@).filter(
                |r: RecordView| since_spec(r.ts, opt_text(config.since)),
            ),
            run.completed().len() == 0,
    {
        let mut queue: Vec<DecisionRecord> = Vec::new();
        let ghost bv = record_views(baseline@);
        let ghost since = opt_text(config.since);
        let mut i: usize = 0;
        assert(bv.take(0) == Seq::<RecordView>::empty());
        while i < baseline.len()
            invariant
                i <= baseline.len(),
                bv == record_views(baseline@),
                since == opt_text(config.since),
                record_views(queue@) == selected_spec(bv.take(i as int), since),
            decreases baseline.len() - i,
        {
            let ghost p = bv.take(i + 1);
            assert(p.drop_last() == bv.take(i as int));
            assert(p.last() == baseline@[i as int]@);
            if passes_since_filter(&baseline[i], &config.since) {
                queue.push(baseline[i].clone());
                assert(record_views(queue@) == selected_spec(p, since));
            }
            i = i + 1;
        }
        assert(bv.take(baseline.len() as int) == bv);
        let run = ReplayRun { queue, done: Vec::new() };
        assert(run.completed().len() == 0);
        proof {
            lemma_selection_is_filter(bv, since);
        }
        run
    }

    /// The question to put to the agent next, or `None` when every selected
    /// record has been replayed.
    pub fn next_question(&self) -> (q: Option<String>)
        ensures
            q is Some <==> self.completed().len() < self.selected().len(),
            q matches Some(t) ==> t@ == self.selected()[self.completed().len() as int].question,
    {
        proof {
            use_type_invariant(self);
        }
        let n = self.done.len();
        if n < self.queue.len() {
            Some(self.queue[n].question.clone())
        } else {
            None
        }
    }

    /// Record the agent's answer to the pending question. When no question
    /// is pending the run is left as it is.
    pub fn record_fresh(&mut self, fresh: DecisionRecord)
        ensures
            final(self).selected() == old(self).selected(),
            old(self).completed().len() < old(self).selected().len() ==> final(self).completed()
                == old(self).completed().push(
                (old(self).selected()[old(self).completed().len() as int], fresh@),
            ),
            old(self).completed().len() >= old(self).selected().len() ==> final(self).completed()
                == old(self).completed(),
    {
        proof {
            use_type_invariant(&*self);
        }
        let n = self.done.len();
        if n < self.queue.len() {
            let baseline = self.queue[n].clone();
            let ghost fv = fresh@;
            let mut done: Vec<ReplayRecord> = Vec::new();
            std::mem::swap(&mut done, &mut self.done);
            done.push(ReplayRecord { baseline, fresh });
            self.done = done;
            assert(self.completed() == old(self).completed().push(
                (old(self).selected()[n as int], fv),
            ));
        }
    }

    /// The agent failed: the replay ends, reporting the pending question;
    /// `None` when no question was pending.
    pub fn abandon(self) -> (f: Option<ReplayFailure>)
        ensures
            f is Some <==> self.completed().len() < self.selected().len(),
            f matches Some(x) ==> x.question@ == self.selected()[self.completed().len() as int].question,
    {
        proof {
            use_type_invariant(&self);
        }
        let n = self.done.len();
        if n < self.queue.len() {
            Some(ReplayFailure { question: self.queue[n].question.clone() })
        } else {
            None
        }
    }

    /// The replay records collected, in order. Once no question is pending,
    /// they are one per selected record, each keeping its baseline.
    pub fn finish(self) -> (out: Vec<ReplayRecord>)
        ensures
            out@.len() == self.completed().len(),
            forall|k: int|
                0 <= k < out@.len() ==> ((#[trigger] out@[k]).baseline@, out@[k].fresh@)
                    == self.completed()[k],
            forall|k: int|
                0 <= k < out@.len() ==> (#[trigger] out@[k]).baseline@ == self.selected()[k],
            self.completed().len() >= self.selected().len() ==> out@.len() == self.selected().len(),
    {
        proof {
            use_type_invariant(&self);
        }
        let out = self.done;
        proof {
            assert forall|k: int| 0 <= k < out@.len() implies (#[trigger] out@[k]).baseline@
                == self.selected()[k] by {
                assert(self.done@[k].baseline@ == self.queue@[k]@);
            }
        }
        out
    }
}

/// A record stamped exactly at the `since` filter passes it.
pub proof fn lemma_since_inclusive(ts: Seq<char>)
    ensures
        since_spec(ts, Some(ts)),
{
    crate::text::lemma_text_lt_irreflexive(ts);
    match timestamp_instant(ts) {
        Some(a) => crate::timestamp::lemma_fraction_less_irreflexive(a.fraction),
        None => {},
    }
}


/// Every record that the replay selects passes the `since` filter.
pub proof fn lemma_selected_pass(baseline: Seq<RecordView>, since: Option<Seq<char>>)
    ensures
        forall|k: int|
            0 <= k < selected_spec(baseline, since).len() ==> since_spec(
                (#[trigger] selected_spec(baseline, since)[k]).ts,
                since,
            ),
    decreases baseline.len(),
{
    if baseline.len() > 0 {
        let earlier = selected_spec(baseline.drop_last(), since);
        lemma_selected_pass(baseline.drop_last(), since);
        if since_spec(baseline.last().ts, since) {
            assert forall|k: int| 0 <= k < earlier.len() + 1 implies since_spec(
                (#[trigger] earlier.push(baseline.last())[k]).ts,
                since,
            ) by {
                if k < earlier.len() {
                    assert(earlier.push(baseline.last())[k] == earlier[k]);
                }
            }
        }
    }
}

/// The replay selects exactly the logged records that pass the `since`
/// filter, keeping their order: selection is the filter of the log by
/// `since_spec`, so every selected record passes and none that passes is
/// left out.
pub proof fn lemma_selection_is_filter(baseline: Seq<RecordView>, since: Option<Seq<char>>)
    ensures
        selected_spec(baseline, since) == baseline.filter(|r: RecordView| since_spec(r.ts, since)),
        forall|k: int|
            0 <= k < selected_spec(baseline, since).len() ==> since_spec(
                (#[trigger] selected_spec(baseline, since)[k]).ts,
                since,
            ),
        forall|k: int|
            0 <= k < baseline.len() && since_spec(baseline[k].ts, since) ==> selected_spec(
                baseline,
                since,
            ).contains(#[trigger] baseline[k]),
    decreases baseline.len(),
{
    let pred = |r: RecordView| since_spec(r.ts, since);
    lemma_selected_pass(baseline, since);
    reveal_with_fuel(Seq::filter, 1);
    if baseline.len() > 0 {
        lemma_selection_is_filter(baseline.drop_last(), since);
    }
    let sel = selected_spec(baseline, since);
    assert(sel == baseline.filter(pred));
    broadcast use vstd::seq_lib::group_filter_ensures;
    assert forall|k: int| 0 <= k < sel.len() implies since_spec((#[trigger] sel[k]).ts, since) by {
        assert(pred(sel[k]));
    }
    assert forall|k: int| 0 <= k < baseline.len() && since_spec(baseline[k].ts, since) implies sel.contains(
        #[trigger] baseline[k],
    ) by {
        assert(pred(baseline[k]));
    }
}


/// For UTC timestamps written `YYYY-MM-DDTHH:MM:SSZ`, the `since` filter
/// keeps a record exactly when its date and time are at or after those of
/// `since`, field by field from the year down to the second.
pub proof fn lemma_since_plain_utc(ts: Seq<char>, since: Seq<char>)
    requires
        crate::timestamp::plain_utc(ts),
        crate::timestamp::plain_utc(since),
    ensures
        since_spec(ts, Some(since)) == crate::timestamp::fields_at_or_after(
            crate::timestamp::clock_fields(ts),
            crate::timestamp::clock_fields(since),
        ),
{
    crate::timestamp::lemma_plain_utc_order(ts, since);
}

/// For UTC timestamps written `YYYY-MM-DDTHH:MM:SSZ`, the `since` filter
/// keeps a record exactly when its timestamp is at or after `since` as
/// text: so a later minute, with any seconds, is kept.
pub proof fn lemma_since_is_text_order(ts: Seq<char>, since: Seq<char>)
    requires
        crate::timestamp::plain_utc(ts),
        crate::timestamp::plain_utc(since),
    ensures
        since_spec(ts, Some(since)) == !text_lt(ts, since),
{
    crate::timestamp::lemma_plain_utc_order(ts, since);
    crate::timestamp::lemma_plain_utc_text_order(ts, since);
}

/// For UTC timestamps written in the same format (both without a
/// fraction, or both with the same number of fraction digits), the `since`
/// filter keeps a record exactly when its timestamp is at or after `since`
/// as text.
pub proof fn lemma_since_text_order_same_format(ts: Seq<char>, since: Seq<char>, n: nat)
    requires
        crate::timestamp::utc_form(ts, n),
        crate::timestamp::utc_form(since, n),
    ensures
        since_spec(ts, Some(since)) == !text_lt(ts, since),
{
    crate::timestamp::lemma_utc_form_text_order(ts, since, n);
}

} // verus!
