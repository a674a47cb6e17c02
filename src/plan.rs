//! The fan-out planning: which identities are resolved, and which
//! (identity, region) pairs are listed, in the order they are launched.

use vstd::prelude::*;
use crate::credentials::{Identity, IdentityView, identities_view};
use crate::regions::strings_view;
use crate::fetch::OutcomeView;
use crate::report::report;
use crate::text::opt_view;

verus! {

/// Whether an optional exact-match filter lets `name` through.
pub open spec fn passes(filter: Option<Seq<char>>, name: Seq<char>) -> bool {
    filter is None || filter == Some(name)
}

/// The identities whose regions are resolved, in their order.
pub open spec fn profile_selection(ids: Seq<IdentityView>, filter: Option<Seq<char>>) -> Seq<
    IdentityView,
> {
    ids.filter(|i: IdentityView| passes(filter, i.name))
}

/// One region to list for one profile.
#[derive(Debug, PartialEq, Eq)]
pub struct RegionTask {
    pub profile: String,
    pub region: String,
}

pub struct TaskView {
    pub profile: Seq<char>,
    pub region: Seq<char>,
}

impl View for RegionTask {
    type V = TaskView;

    open spec fn view(&self) -> TaskView {
        TaskView { profile: self.profile@, region: self.region@ }
    }
}

pub open spec fn tasks_view(v: Seq<RegionTask>) -> Seq<TaskView> {
    v.map_values(|t: RegionTask| t@)
}

/// The tasks that one identity's regions give, in region order.
pub open spec fn region_tasks(
    profile: Seq<char>,
    regions: Seq<Seq<char>>,
    filter: Option<Seq<char>>,
) -> Seq<TaskView>
    decreases regions.len(),
{
    if regions.len() == 0 {
        Seq::empty()
    } else {
        let rest = region_tasks(profile, regions.drop_last(), filter);
        if passes(filter, regions.last()) {
            rest.push(TaskView { profile, region: regions.last() })
        } else {
            rest
        }
    }
}

/// The tasks of a whole run, launched in the order in which the identities'
/// regions were resolved: each entry is a profile name and its regions.
pub open spec fn run_tasks(
    resolved: Seq<(Seq<char>, Seq<Seq<char>>)>,
    filter: Option<Seq<char>>,
) -> Seq<TaskView>
    decreases resolved.len(),
{
    if resolved.len() == 0 {
        Seq::empty()
    } else {
        run_tasks(resolved.drop_last(), filter) + region_tasks(
            resolved.last().0,
            resolved.last().1,
            filter,
        )
    }
}

proof fn lemma_run_tasks_append(
    a: Seq<(Seq<char>, Seq<Seq<char>>)>,
    b: Seq<(Seq<char>, Seq<Seq<char>>)>,
    filter: Option<Seq<char>>,
)
    ensures
        run_tasks(a + b, filter) == run_tasks(a, filter) + run_tasks(b, filter),
    decreases b.len(),
{
    if b.len() == 0 {
        assert(a + b =~= a);
        assert(run_tasks(a, filter) + run_tasks(b, filter) =~= run_tasks(a, filter));
    } else {
        lemma_run_tasks_append(a, b.drop_last(), filter);
        assert((a + b).drop_last() =~= a + b.drop_last());
        assert((a + b).last() == b.last());
        assert(run_tasks(a, filter) + run_tasks(b.drop_last(), filter) + region_tasks(
            b.last().0,
            b.last().1,
            filter,
        ) =~= run_tasks(a, filter) + run_tasks(b, filter));
    }
}

/// An identity whose region listing failed resolves to no region: it
/// launches no task, and every other identity launches the tasks it would
/// launch without it.
pub proof fn lemma_failed_identity_isolated(
    before: Seq<(Seq<char>, Seq<Seq<char>>)>,
    after: Seq<(Seq<char>, Seq<Seq<char>>)>,
    name: Seq<char>,
    filter: Option<Seq<char>>,
)
    ensures
        run_tasks(before + seq![(name, Seq::<Seq<char>>::empty())] + after, filter) == run_tasks(
            before + after,
            filter,
        ),
{
    let x = (name, Seq::<Seq<char>>::empty());
    assert(region_tasks(name, Seq::<Seq<char>>::empty(), filter) =~= Seq::<TaskView>::empty());
    assert((before + seq![x]).drop_last() =~= before);
    assert(run_tasks(before + seq![x], filter) =~= run_tasks(before, filter));
    lemma_run_tasks_append(before + seq![x], after, filter);
    lemma_run_tasks_append(before, after, filter);
}

proof fn lemma_nothing_selected(ids: Seq<IdentityView>, p: Seq<char>)
    requires
        forall|k: int| 0 <= k < ids.len() ==> (#[trigger] ids[k]).name != p,
    ensures
        profile_selection(ids, Some(p)).len() == 0,
    decreases ids.len(),
{
    reveal(Seq::filter);
    if ids.len() > 0 {
        let rest = ids.drop_last();
        assert forall|k: int| 0 <= k < rest.len() implies (#[trigger] rest[k]).name != p by {
            assert(rest[k] == ids[k]);
        }
        lemma_nothing_selected(rest, p);
    }
}

/// A profile filter that names no identity selects none. A run that resolves
/// each selected identity once then launches no task, and the report of its
/// outcomes, one for each task, is empty.
pub proof fn lemma_unmatched_profile_filter(
    ids: Seq<IdentityView>,
    p: Seq<char>,
    resolved: Seq<(Seq<char>, Seq<Seq<char>>)>,
    region: Option<Seq<char>>,
    outcomes: Seq<OutcomeView>,
)
    requires
        forall|k: int| 0 <= k < ids.len() ==> (#[trigger] ids[k]).name != p,
        resolved.len() == profile_selection(ids, Some(p)).len(),
        outcomes.len() == run_tasks(resolved, region).len(),
    ensures
        profile_selection(ids, Some(p)).len() == 0,
        run_tasks(resolved, region).len() == 0,
        report(outcomes).len() == 0,
{
    lemma_nothing_selected(ids, p);
    assert(resolved =~= Seq::<(Seq<char>, Seq<Seq<char>>)>::empty());
    assert(outcomes =~= Seq::<OutcomeView>::empty());
}

fn passes_filter(filter: &Option<String>, name: &String) -> (r: bool)
    ensures
        r == passes(opt_view(*filter), name@),
{
    match filter {
        None => true,
        Some(f) => *f == *name,
    }
}

/// The identities that a profile filter lets through, in their order.
pub fn select_identities(creds: &Vec<Identity>, profile: &Option<String>) -> (r: Vec<Identity>)
    ensures
        identities_view(r@) == profile_selection(identities_view(creds@), opt_view(*profile)),
{
    let ghost f = opt_view(*profile);
    let mut r: Vec<Identity> = Vec::new();
    let mut i: usize = 0;
    while i < creds.len()
        invariant
            i <= creds@.len(),
            f == opt_view(*profile),
            identities_view(r@) == profile_selection(identities_view(creds@).take(i as int), f),
        decreases creds@.len() - i,
    {
        proof {
            reveal(Seq::filter);
            assert(identities_view(creds@).take(i + 1).drop_last() =~= identities_view(
                creds@,
            ).take(i as int));
        }
        if passes_filter(profile, &creds[i].name) {
            r.push(creds[i].duplicate());
        }
        assert(identities_view(r@) =~= profile_selection(identities_view(creds@).take(i + 1), f));
        i = i + 1;
    }
    assert(identities_view(creds@).take(creds@.len() as int) =~= identities_view(creds@));
    r
}

/// The tasks that one identity's resolved regions give under a region filter.
pub fn plan_region_tasks(profile: &String, regions: &Vec<String>, region: &Option<String>) -> (r:
    Vec<RegionTask>)
    ensures
        tasks_view(r@) == region_tasks(profile@, strings_view(regions@), opt_view(*region)),
{
    let ghost f = opt_view(*region);
    let mut r: Vec<RegionTask> = Vec::new();
    let mut i: usize = 0;
    while i < regions.len()
        invariant
            i <= regions@.len(),
            f == opt_view(*region),
            tasks_view(r@) == region_tasks(profile@, strings_view(regions@).take(i as int), f),
        decreases regions@.len() - i,
    {
        assert(strings_view(regions@).take(i + 1).drop_last() =~= strings_view(regions@).take(
            i as int,
        ));
        if passes_filter(region, &regions[i]) {
            r.push(RegionTask { profile: profile.clone(), region: regions[i].clone() });
        }
        assert(tasks_view(r@) =~= region_tasks(profile@, strings_view(regions@).take(i + 1), f));
        i = i + 1;
    }
    assert(strings_view(regions@).take(regions@.len() as int) =~= strings_view(regions@));
    r
}

} // verus!
