//! The report aggregator: outcomes drained in launch order become profile
//! headers, region headers, instance lines and diagnostics.

use vstd::prelude::*;
use crate::fetch::{MetadataView, Outcome, OutcomeView, metadatas_view, outcome_view};

verus! {

/// One element of the grouped report. Diagnostics belong on the error
/// stream; the rest on the output stream, where a raw rendering shows the
/// instance lines only.
#[derive(Debug, PartialEq, Eq)]
pub enum ReportEvent {
    /// A profile's group opens; `separated` asks for a blank line first.
    ProfileHeader { profile: String, separated: bool },
    RegionHeader { region: String },
    Line { name: String, ip: String },
    Diagnostic { message: String },
}

pub enum EventView {
    ProfileHeader { profile: Seq<char>, separated: bool },
    RegionHeader { region: Seq<char> },
    Line { name: Seq<char>, ip: Seq<char> },
    Diagnostic { message: Seq<char> },
}

impl View for ReportEvent {
    type V = EventView;

    open spec fn view(&self) -> EventView {
        match self {
            ReportEvent::ProfileHeader { profile, separated } => EventView::ProfileHeader {
                profile: profile@,
                separated: *separated,
            },
            ReportEvent::RegionHeader { region } => EventView::RegionHeader { region: region@ },
            ReportEvent::Line { name, ip } => EventView::Line { name: name@, ip: ip@ },
            ReportEvent::Diagnostic { message } => EventView::Diagnostic { message: message@ },
        }
    }
}

pub open spec fn events_view(v: Seq<ReportEvent>) -> Seq<EventView> {
    v.map_values(|e: ReportEvent| e@)
}

pub open spec fn outcomes_view(v: Seq<Outcome>) -> Seq<OutcomeView> {
    v.map_values(|o: Outcome| outcome_view(o))
}

/// One `name - address` line per instance.
pub open spec fn metadata_lines(ms: Seq<MetadataView>) -> Seq<EventView> {
    ms.map_values(|m: MetadataView| EventView::Line { name: m.name, ip: m.ip })
}

/// The profile whose group is open and the events of one outcome. A listing
/// with no instance shows nothing; another opens its profile's group if that
/// group is not the open one, then its region's.
pub open spec fn step(current: Seq<char>, o: OutcomeView) -> (Seq<char>, Seq<EventView>) {
    match o {
        OutcomeView::Listed { profile, region, metadatas } => if metadatas.len() == 0 {
            (current, Seq::empty())
        } else {
            let head = if profile != current {
                seq![EventView::ProfileHeader { profile, separated: current.len() > 0 }]
            } else {
                Seq::empty()
            };
            (profile, head + seq![EventView::RegionHeader { region }] + metadata_lines(metadatas))
        },
        OutcomeView::Failed { message, .. } => (
            current,
            seq![EventView::Diagnostic { message }],
        ),
    }
}

/// The open profile and the events after draining `outs` in order.
pub open spec fn drain(current: Seq<char>, outs: Seq<OutcomeView>) -> (Seq<char>, Seq<EventView>)
    decreases outs.len(),
{
    if outs.len() == 0 {
        (current, Seq::empty())
    } else {
        let (c, e) = drain(current, outs.drop_last());
        let (c2, e2) = step(c, outs.last());
        (c2, e + e2)
    }
}

/// The report of outcomes drained in order, no group being open at first.
pub open spec fn report(outs: Seq<OutcomeView>) -> Seq<EventView> {
    drain(Seq::empty(), outs).1
}

proof fn lemma_drain_append(c: Seq<char>, a: Seq<OutcomeView>, b: Seq<OutcomeView>)
    ensures
        drain(c, a + b) == (
            drain(drain(c, a).0, b).0,
            drain(c, a).1 + drain(drain(c, a).0, b).1,
        ),
    decreases b.len(),
{
    if b.len() == 0 {
        assert(a + b =~= a);
        assert(drain(c, a).1 + Seq::<EventView>::empty() =~= drain(c, a).1);
    } else {
        lemma_drain_append(c, a, b.drop_last());
        assert((a + b).drop_last() =~= a + b.drop_last());
        assert((a + b).last() == b.last());
        let mid = drain(c, a);
        let inner = drain(mid.0, b.drop_last());
        let last = step(inner.0, b.last());
        assert(mid.1 + inner.1 + last.1 =~= mid.1 + (inner.1 + last.1));
    }
}

/// A region listing with no instance to show adds nothing to the report,
/// neither a header nor a line, wherever it is drained.
pub proof fn lemma_empty_listing_silent(
    before: Seq<OutcomeView>,
    after: Seq<OutcomeView>,
    profile: Seq<char>,
    region: Seq<char>,
)
    ensures
        report(before + seq![OutcomeView::Listed { profile, region, metadatas: Seq::empty() }]
            + after) == report(before + after),
{
    let x = OutcomeView::Listed { profile, region, metadatas: Seq::empty() };
    let with = before.push(x);
    assert(before + seq![x] =~= with);
    assert(with.drop_last() =~= before);
    let d = drain(Seq::empty(), before);
    assert(drain(Seq::empty(), with).1 =~= d.1);
    lemma_drain_append(Seq::empty(), with, after);
    lemma_drain_append(Seq::empty(), before, after);
}

/// The grouping state of a report being drained.
pub struct Aggregator {
    pub current_profile: String,
}

impl Aggregator {
    pub fn new() -> (r: Aggregator)
        ensures
            r.current_profile@.len() == 0,
    {
        Aggregator { current_profile: String::new() }
    }

    /// The events of the next outcome in launch order.
    pub fn consume(&mut self, outcome: &Outcome) -> (r: Vec<ReportEvent>)
        ensures
            (final(self).current_profile@, events_view(r@)) == step(
                old(self).current_profile@,
                outcome_view(*outcome),
            ),
    {
        let mut r: Vec<ReportEvent> = Vec::new();
        match outcome {
            Ok(c) => {
                if c.metadatas.len() > 0 {
                    if c.profile != self.current_profile {
                        let separated = self.current_profile.as_str().unicode_len() > 0;
                        r.push(ReportEvent::ProfileHeader { profile: c.profile.clone(), separated });
                        self.current_profile = c.profile.clone();
                    }
                    r.push(ReportEvent::RegionHeader { region: c.region.clone() });
                    let ghost head = events_view(r@);
                    let mut j: usize = 0;
                    while j < c.metadatas.len()
                        invariant
                            j <= c.metadatas@.len(),
                            events_view(r@) == head + metadata_lines(
                                metadatas_view(c.metadatas@).take(j as int),
                            ),
                        decreases c.metadatas@.len() - j,
                    {
                        let m = &c.metadatas[j];
                        let ghost ms = metadatas_view(c.metadatas@);
                        assert(ms.take(j + 1) =~= ms.take(j as int).push(m@));
                        assert(metadata_lines(ms.take(j + 1)) =~= metadata_lines(
                            ms.take(j as int),
                        ).push(EventView::Line { name: m.name@, ip: m.ip@ }));
                        let ghost prev = r@;
                        let line = ReportEvent::Line { name: m.name.clone(), ip: m.ip.clone() };
                        assert(line@ == EventView::Line { name: m.name@, ip: m.ip@ });
                        r.push(line);
                        assert(r@ == prev.push(line));
                        assert(events_view(r@) =~= events_view(prev).push(line@));
                        assert(events_view(r@) =~= head + metadata_lines(
                            metadatas_view(c.metadatas@).take(j + 1),
                        ));
                        j = j + 1;
                    }
                    assert(metadatas_view(c.metadatas@).take(
                        c.metadatas@.len() as int,
                    ) =~= metadatas_view(c.metadatas@));
                    assert(events_view(r@) =~= step(
                        old(self).current_profile@,
                        outcome_view(*outcome),
                    ).1);
                }
            },
            Err(e) => {
                r.push(ReportEvent::Diagnostic { message: e.message() });
                assert(events_view(r@) =~= step(
                    old(self).current_profile@,
                    outcome_view(*outcome),
                ).1);
            },
        }
        r
    }
}

/// The whole report of outcomes drained in launch order.
pub fn aggregate(outcomes: &Vec<Outcome>) -> (r: Vec<ReportEvent>)
    ensures
        events_view(r@) == report(outcomes_view(outcomes@)),
{
    let mut agg = Aggregator::new();
    let mut r: Vec<ReportEvent> = Vec::new();
    let mut i: usize = 0;
    assert(agg.current_profile@ =~= Seq::<char>::empty());
    while i < outcomes.len()
        invariant
            i <= outcomes@.len(),
            drain(Seq::empty(), outcomes_view(outcomes@).take(i as int)) == (
                agg.current_profile@,
                events_view(r@),
            ),
        decreases outcomes@.len() - i,
    {
        assert(outcomes_view(outcomes@).take(i + 1).drop_last() =~= outcomes_view(outcomes@).take(
            i as int,
        ));
        let mut e = agg.consume(&outcomes[i]);
        let ghost before = events_view(r@);
        r.append(&mut e);
        assert(events_view(r@) =~= before + drain(
            Seq::empty(),
            outcomes_view(outcomes@).take(i + 1),
        ).1.subrange(before.len() as int, events_view(r@).len() as int));
        i = i + 1;
    }
    assert(outcomes_view(outcomes@).take(outcomes@.len() as int) =~= outcomes_view(outcomes@));
    r
}

} // verus!
