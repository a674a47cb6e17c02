//! The instance fetcher's projection: one region's listing turned into the
//! display name and address of each instance that qualifies.

use vstd::prelude::*;

verus! {

/// The placeholder for a missing name or address.
pub const NOT_AVAILABLE: &'static str = "N/A";

/// The key of the tag that holds an instance's display name.
pub const NAME_TAG: &'static str = "Name";

#[derive(Debug, PartialEq, Eq)]
pub struct Tag {
    pub key: Option<String>,
    pub value: Option<String>,
}

/// What the report reads of one listed instance.
#[derive(Debug, PartialEq, Eq)]
pub struct Instance {
    pub tags: Option<Vec<Tag>>,
    pub public_ip_address: Option<String>,
}

/// One group of instances of a listing.
#[derive(Debug, PartialEq, Eq)]
pub struct Reservation {
    pub instances: Option<Vec<Instance>>,
}

#[derive(Debug, PartialEq, Eq)]
pub struct InstanceMetadata {
    pub name: String,
    pub ip: String,
}

pub struct MetadataView {
    pub name: Seq<char>,
    pub ip: Seq<char>,
}

impl View for InstanceMetadata {
    type V = MetadataView;

    open spec fn view(&self) -> MetadataView {
        MetadataView { name: self.name@, ip: self.ip@ }
    }
}

/// The instances of one region that qualify, for one profile.
#[derive(Debug, PartialEq, Eq)]
pub struct InstanceMetadataCollection {
    pub metadatas: Vec<InstanceMetadata>,
    pub profile: String,
    pub region: String,
}

/// Why one region's listing gave no instances.
#[derive(Debug, PartialEq, Eq)]
pub enum FetchError {
    Request { profile: String, region: String, cause: String },
    NoReservations { profile: String, region: String },
}

/// The value of the first tag keyed exactly `Name` that has a value, or the
/// placeholder.
pub open spec fn name_from(tags: Seq<Tag>) -> Seq<char>
    decreases tags.len(),
{
    if tags.len() == 0 {
        NOT_AVAILABLE@
    } else if tags[0].key matches Some(k) && k@ == NAME_TAG@ && tags[0].value is Some {
        tags[0].value->0@
    } else {
        name_from(tags.drop_first())
    }
}

pub open spec fn display_name(i: Instance) -> Seq<char> {
    match i.tags {
        Some(t) => name_from(t@),
        None => NOT_AVAILABLE@,
    }
}

/// The metadata of the instances that qualify, in listing order: those with a
/// public address, and, where `all` holds, the others with the placeholder.
pub open spec fn project(insts: Seq<Instance>, all: bool) -> Seq<MetadataView>
    decreases insts.len(),
{
    if insts.len() == 0 {
        Seq::empty()
    } else {
        let rest = project(insts.drop_last(), all);
        let i = insts.last();
        match i.public_ip_address {
            Some(a) => rest.push(MetadataView { name: display_name(i), ip: a@ }),
            None => if all {
                rest.push(MetadataView { name: display_name(i), ip: NOT_AVAILABLE@ })
            } else {
                rest
            },
        }
    }
}

pub open spec fn instances_of(r: Reservation) -> Seq<Instance> {
    match r.instances {
        Some(v) => v@,
        None => Seq::empty(),
    }
}

/// All instances of all reservations, in order.
pub open spec fn flatten(res: Seq<Reservation>) -> Seq<Instance>
    decreases res.len(),
{
    if res.len() == 0 {
        Seq::empty()
    } else {
        flatten(res.drop_last()) + instances_of(res.last())
    }
}

pub open spec fn metadatas_view(m: Seq<InstanceMetadata>) -> Seq<MetadataView> {
    m.map_values(|x: InstanceMetadata| x@)
}

pub proof fn lemma_project_append(a: Seq<Instance>, b: Seq<Instance>, all: bool)
    ensures
        project(a + b, all) == project(a, all) + project(b, all),
    decreases b.len(),
{
    if b.len() == 0 {
        assert(a + b =~= a);
        assert(project(a, all) + project(b, all) =~= project(a, all));
    } else {
        lemma_project_append(a, b.drop_last(), all);
        assert((a + b).drop_last() =~= a + b.drop_last());
        assert((a + b).last() == b.last());
    }
}

pub open spec fn is_name_tag(t: Tag) -> bool {
    t.key matches Some(k) && k@ == NAME_TAG@
}

/// An instance with exactly one `Name` tag, holding a value, is shown under
/// that value, wherever the tag stands among the others.
pub proof fn lemma_name_tag(tags: Seq<Tag>, j: int)
    requires
        0 <= j < tags.len(),
        is_name_tag(tags[j]),
        tags[j].value is Some,
        forall|m: int| 0 <= m < tags.len() && m != j ==> !is_name_tag(#[trigger] tags[m]),
    ensures
        name_from(tags) == tags[j].value->0@,
    decreases j,
{
    if j > 0 {
        let rest = tags.drop_first();
        assert forall|m: int| 0 <= m < rest.len() && m != j - 1 implies !is_name_tag(
            #[trigger] rest[m],
        ) by {
            assert(rest[m] == tags[m + 1]);
        }
        assert(!is_name_tag(tags[0]));
        lemma_name_tag(rest, j - 1);
    }
}

proof fn lemma_no_name_tag(tags: Seq<Tag>)
    requires
        forall|m: int| 0 <= m < tags.len() ==> !is_name_tag(#[trigger] tags[m]),
    ensures
        name_from(tags) == NOT_AVAILABLE@,
    decreases tags.len(),
{
    if tags.len() > 0 {
        let rest = tags.drop_first();
        assert forall|m: int| 0 <= m < rest.len() implies !is_name_tag(#[trigger] rest[m]) by {
            assert(rest[m] == tags[m + 1]);
        }
        assert(!is_name_tag(tags[0]));
        lemma_no_name_tag(rest);
    }
}

/// An instance without tags, or without a `Name` tag, is shown under the
/// placeholder.
pub proof fn lemma_name_fallback(i: Instance)
    requires
        i.tags matches Some(t) ==> forall|m: int|
            0 <= m < t@.len() ==> !is_name_tag(#[trigger] t@[m]),
    ensures
        display_name(i) == NOT_AVAILABLE@,
{
    if let Some(t) = i.tags {
        lemma_no_name_tag(t@);
    }
}

pub open spec fn has_address(i: Instance) -> bool {
    i.public_ip_address is Some
}

/// The address an instance is shown with once address-less ones are asked for.
pub open spec fn address_shown(i: Instance) -> Seq<char> {
    match i.public_ip_address {
        Some(a) => a@,
        None => NOT_AVAILABLE@,
    }
}

/// Asked for, every instance is shown in order, one without a public address
/// with the placeholder; not asked for, exactly the instances with a public
/// address are shown.
pub proof fn lemma_address_inclusion(insts: Seq<Instance>)
    ensures
        project(insts, true).len() == insts.len(),
        forall|k: int|
            0 <= k < insts.len() ==> #[trigger] project(insts, true)[k] == (MetadataView {
                name: display_name(insts[k]),
                ip: address_shown(insts[k]),
            }),
        project(insts, false) == project(insts.filter(|i: Instance| has_address(i)), true),
    decreases insts.len(),
{
    reveal(Seq::filter);
    if insts.len() > 0 {
        let rest = insts.drop_last();
        lemma_address_inclusion(rest);
        assert forall|k: int| 0 <= k < insts.len() implies #[trigger] project(insts, true)[k] == (
        MetadataView { name: display_name(insts[k]), ip: address_shown(insts[k]) }) by {
            if k < rest.len() {
                assert(project(rest, true)[k] == project(insts, true)[k]);
                assert(rest[k] == insts[k]);
            }
        }
        let f = insts.filter(|i: Instance| has_address(i));
        let fr = rest.filter(|i: Instance| has_address(i));
        if has_address(insts.last()) {
            assert(f == fr.push(insts.last()));
            assert(f.drop_last() =~= fr);
        } else {
            assert(f == fr);
        }
    } else {
        assert(insts.filter(|i: Instance| has_address(i)) =~= Seq::<Instance>::empty());
    }
}

/// The display name of an instance: its first `Name` tag with a value, else
/// the placeholder.
pub fn instance_name(instance: &Instance) -> (r: String)
    ensures
        r@ == display_name(*instance),
{
    match &instance.tags {
        Some(tags) => {
            assert(display_name(*instance) == name_from(tags@));
            let name_tag = NAME_TAG.to_owned();
            let mut j: usize = 0;
            assert(tags@.subrange(0, tags@.len() as int) =~= tags@);
            while j < tags.len()
                invariant
                    j <= tags@.len(),
                    name_tag@ == NAME_TAG@,
                    display_name(*instance) == name_from(tags@),
                    name_from(tags@) == name_from(tags@.subrange(j as int, tags@.len() as int)),
                decreases tags@.len() - j,
            {
                let ghost rest = tags@.subrange(j as int, tags@.len() as int);
                assert(rest.drop_first() =~= tags@.subrange(j + 1, tags@.len() as int));
                match &tags[j].key {
                    Some(key) => {
                        if *key == name_tag {
                            match &tags[j].value {
                                Some(value) => {
                                    assert(rest[0] == tags@[j as int]);
                                    let r = value.clone();
                                    assert(r@ == name_from(rest));
                                    return r;
                                },
                                None => {},
                            }
                        }
                    },
                    None => {},
                }
                j = j + 1;
            }
            NOT_AVAILABLE.to_owned()
        },
        None => NOT_AVAILABLE.to_owned(),
    }
}

/// The metadata of the listed instances that qualify.
pub fn collect_metadatas(reservations: &Vec<Reservation>, all: bool) -> (r: Vec<InstanceMetadata>)
    ensures
        metadatas_view(r@) == project(flatten(reservations@), all),
{
    let mut out: Vec<InstanceMetadata> = Vec::new();
    let mut i: usize = 0;
    while i < reservations.len()
        invariant
            i <= reservations@.len(),
            metadatas_view(out@) == project(flatten(reservations@.take(i as int)), all),
        decreases reservations@.len() - i,
    {
        assert(reservations@.take(i + 1).drop_last() =~= reservations@.take(i as int));
        let ghost done = flatten(reservations@.take(i as int));
        match &reservations[i].instances {
            Some(insts) => {
                let mut j: usize = 0;
                while j < insts.len()
                    invariant
                        j <= insts@.len(),
                        metadatas_view(out@) == project(done + insts@.take(j as int), all),
                    decreases insts@.len() - j,
                {
                    let inst = &insts[j];
                    assert((done + insts@.take(j + 1)).drop_last() =~= done + insts@.take(j as int));
                    assert((done + insts@.take(j + 1)).last() == *inst);
                    match &inst.public_ip_address {
                        Some(ip) => {
                            let name = instance_name(inst);
                            out.push(InstanceMetadata { name, ip: ip.clone() });
                        },
                        None => {
                            if all {
                                let name = instance_name(inst);
                                out.push(InstanceMetadata { name, ip: NOT_AVAILABLE.to_owned() });
                            }
                        },
                    }
                    assert(metadatas_view(out@) =~= project(done + insts@.take(j + 1), all));
                    j = j + 1;
                }
                assert(insts@.take(insts@.len() as int) =~= insts@);
            },
            None => {
                assert(done + instances_of(reservations@[i as int]) =~= done);
            },
        }
        i = i + 1;
    }
    assert(reservations@.take(reservations@.len() as int) =~= reservations@);
    out
}

/// One region's listing, as the report sees it.
pub enum OutcomeView {
    Listed { profile: Seq<char>, region: Seq<char>, metadatas: Seq<MetadataView> },
    Failed { profile: Seq<char>, region: Seq<char>, message: Seq<char> },
}

pub type Outcome = Result<InstanceMetadataCollection, FetchError>;

pub open spec fn failure_message(e: FetchError) -> Seq<char> {
    match e {
        FetchError::Request { region, cause, .. } => "Region failure in "@ + region@ + ": "@
            + cause@,
        FetchError::NoReservations { .. } => "No reservations"@,
    }
}

pub open spec fn outcome_view(o: Outcome) -> OutcomeView {
    match o {
        Ok(c) => OutcomeView::Listed {
            profile: c.profile@,
            region: c.region@,
            metadatas: metadatas_view(c.metadatas@),
        },
        Err(e) => match e {
            FetchError::Request { profile, region, .. } => OutcomeView::Failed {
                profile: profile@,
                region: region@,
                message: failure_message(e),
            },
            FetchError::NoReservations { profile, region } => OutcomeView::Failed {
                profile: profile@,
                region: region@,
                message: failure_message(e),
            },
        },
    }
}

/// What listing a region gives: the request's failure, a listing without its
/// reservation container, or the instances that qualify.
pub open spec fn fetched(
    profile: Seq<char>,
    region: Seq<char>,
    listing: Result<Option<Vec<Reservation>>, String>,
    all: bool,
) -> OutcomeView {
    match listing {
        Err(cause) => OutcomeView::Failed {
            profile,
            region,
            message: "Region failure in "@ + region + ": "@ + cause@,
        },
        Ok(None) => OutcomeView::Failed { profile, region, message: "No reservations"@ },
        Ok(Some(res)) => OutcomeView::Listed {
            profile,
            region,
            metadatas: project(flatten(res@), all),
        },
    }
}

impl FetchError {
    /// The diagnostic line for this failure.
    pub fn message(&self) -> (r: String)
        ensures
            r@ == failure_message(*self),
    {
        match self {
            FetchError::Request { region, cause, .. } => {
                let mut m = "Region failure in ".to_owned();
                m.append(region.as_str());
                m.append(": ");
                m.append(cause.as_str());
                m
            },
            FetchError::NoReservations { .. } => "No reservations".to_owned(),
        }
    }
}

/// The outcome of listing one region for one profile: `listing` is what the
/// provider answered, and `all` asks for instances without a public address
/// too.
pub fn regional_instances(
    profile: String,
    region: String,
    listing: Result<Option<Vec<Reservation>>, String>,
    all: bool,
) -> (r: Outcome)
    ensures
        outcome_view(r) == fetched(profile@, region@, listing, all),
        r matches Err(FetchError::NoReservations { .. }) <==> listing matches Ok(None),
{
    match listing {
        Err(cause) => Err(FetchError::Request { profile, region, cause }),
        Ok(None) => Err(FetchError::NoReservations { profile, region }),
        Ok(Some(reservations)) => {
            let metadatas = collect_metadatas(&reservations, all);
            Ok(InstanceMetadataCollection { metadatas, profile, region })
        },
    }
}

} // verus!
