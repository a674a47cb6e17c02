//! The region resolver's projection: a region listing turned into the
//! regions to query and a diagnostic for each one that cannot be.

use vstd::prelude::*;
use crate::text::opt_view;

verus! {

/// The canonical code of a region name that the provider client knows
/// (matched without regard to case, with or without dashes), none for any
/// other name.
pub uninterp spec fn region_code(name: Seq<char>) -> Option<Seq<char>>;

/// Relies on rusoto_core's `Region::from_str`, then `Region::name`: whether
/// the client knows a region name, and under which canonical code.
#[verifier::external_body]
fn known_region(name: &str) -> (r: Option<String>)
    ensures
        opt_view(r) == region_code(name@),
{
    match <rusoto_core::Region as std::str::FromStr>::from_str(name) {
        Ok(region) => Some(region.name().to_owned()),
        Err(_) => None,
    }
}

pub const REGIONS_FAILED: &'static str = "Error getting regions";

pub const REGION_NAME_MISSING: &'static str = "Region name not found";

pub const REGION_UNKNOWN: &'static str = "Region cannot be parsed";

/// One listed region, once its name has been looked up.
#[derive(Debug, PartialEq, Eq)]
pub enum RegionEntry {
    Missing,
    Unknown(String),
    Known(String),
}

pub enum EntryView {
    Missing,
    Unknown(Seq<char>),
    Known(Seq<char>),
}

impl View for RegionEntry {
    type V = EntryView;

    open spec fn view(&self) -> EntryView {
        match self {
            RegionEntry::Missing => EntryView::Missing,
            RegionEntry::Unknown(s) => EntryView::Unknown(s@),
            RegionEntry::Known(s) => EntryView::Known(s@),
        }
    }
}

/// The regions to query and the diagnostics of one identity's listing.
#[derive(Debug, PartialEq, Eq)]
pub struct RegionResolution {
    pub regions: Vec<String>,
    pub diagnostics: Vec<String>,
}

pub open spec fn strings_view(v: Seq<String>) -> Seq<Seq<char>> {
    v.map_values(|s: String| s@)
}

pub open spec fn entries_view(v: Seq<RegionEntry>) -> Seq<EntryView> {
    v.map_values(|e: RegionEntry| e@)
}

/// What the lookup makes of one listed name.
pub open spec fn entry_of(name: Option<String>) -> EntryView {
    match name {
        None => EntryView::Missing,
        Some(n) => match region_code(n@) {
            Some(c) => EntryView::Known(c),
            None => EntryView::Unknown(n@),
        },
    }
}

pub open spec fn entries_of(names: Seq<Option<String>>) -> Seq<EntryView> {
    names.map_values(|n: Option<String>| entry_of(n))
}

/// The codes of the known regions, in listing order.
pub open spec fn kept_regions(entries: Seq<EntryView>) -> Seq<Seq<char>>
    decreases entries.len(),
{
    if entries.len() == 0 {
        Seq::empty()
    } else {
        let rest = kept_regions(entries.drop_last());
        match entries.last() {
            EntryView::Known(c) => rest.push(c),
            _ => rest,
        }
    }
}

/// One diagnostic for each listed region that cannot be queried.
pub open spec fn entry_diagnostics(entries: Seq<EntryView>) -> Seq<Seq<char>>
    decreases entries.len(),
{
    if entries.len() == 0 {
        Seq::empty()
    } else {
        let rest = entry_diagnostics(entries.drop_last());
        match entries.last() {
            EntryView::Missing => rest.push(REGION_NAME_MISSING@),
            EntryView::Unknown(_) => rest.push(REGION_UNKNOWN@),
            EntryView::Known(_) => rest,
        }
    }
}

/// Looks up each listed region name.
pub fn region_entries(names: &Vec<Option<String>>) -> (r: Vec<RegionEntry>)
    ensures
        r@.len() == names@.len(),
        forall|k: int| 0 <= k < names@.len() ==> #[trigger] r@[k]@ == entry_of(names@[k]),
{
    let mut r: Vec<RegionEntry> = Vec::new();
    let mut i: usize = 0;
    while i < names.len()
        invariant
            i <= names@.len(),
            r@.len() == i,
            forall|k: int| 0 <= k < i ==> #[trigger] r@[k]@ == entry_of(names@[k]),
        decreases names@.len() - i,
    {
        let e = match &names[i] {
            None => RegionEntry::Missing,
            Some(n) => match known_region(n.as_str()) {
                Some(c) => RegionEntry::Known(c),
                None => RegionEntry::Unknown(n.clone()),
            },
        };
        r.push(e);
        i = i + 1;
    }
    r
}

/// Keeps the known regions and writes one diagnostic for each other entry.
pub fn select_regions(entries: Vec<RegionEntry>) -> (r: RegionResolution)
    ensures
        strings_view(r.regions@) == kept_regions(entries_view(entries@)),
        strings_view(r.diagnostics@) == entry_diagnostics(entries_view(entries@)),
{
    let mut regions: Vec<String> = Vec::new();
    let mut diagnostics: Vec<String> = Vec::new();
    let mut i: usize = 0;
    while i < entries.len()
        invariant
            i <= entries@.len(),
            strings_view(regions@) == kept_regions(entries_view(entries@).take(i as int)),
            strings_view(diagnostics@) == entry_diagnostics(entries_view(entries@).take(i as int)),
        decreases entries@.len() - i,
    {
        assert(entries_view(entries@).take(i + 1).drop_last() =~= entries_view(entries@).take(
            i as int,
        ));
        match &entries[i] {
            RegionEntry::Missing => diagnostics.push(REGION_NAME_MISSING.to_owned()),
            RegionEntry::Unknown(_) => diagnostics.push(REGION_UNKNOWN.to_owned()),
            RegionEntry::Known(c) => regions.push(c.clone()),
        }
        assert(strings_view(regions@) =~= kept_regions(entries_view(entries@).take(i + 1)));
        assert(strings_view(diagnostics@) =~= entry_diagnostics(
            entries_view(entries@).take(i + 1),
        ));
        i = i + 1;
    }
    assert(entries_view(entries@).take(entries@.len() as int) =~= entries_view(entries@));
    RegionResolution { regions, diagnostics }
}

/// The regions of an identity's listing: `listing` is what the provider
/// answered, each region by its optional name. A failed request gives no
/// region and one diagnostic; a listing without its region container counts
/// as an empty one.
pub fn resolve_regions(listing: Result<Option<Vec<Option<String>>>, String>) -> (r:
    RegionResolution)
    ensures
        listing is Err ==> r.regions@.len() == 0 && strings_view(r.diagnostics@) == seq![
            REGIONS_FAILED@,
        ],
        listing matches Ok(None) ==> r.regions@.len() == 0 && r.diagnostics@.len() == 0,
        listing matches Ok(Some(names)) ==> strings_view(r.regions@) == kept_regions(
            entries_of(names@),
        ) && strings_view(r.diagnostics@) == entry_diagnostics(entries_of(names@)),
{
    match listing {
        Err(_) => {
            let mut diagnostics: Vec<String> = Vec::new();
            diagnostics.push(REGIONS_FAILED.to_owned());
            assert(strings_view(diagnostics@) =~= seq![REGIONS_FAILED@]);
            RegionResolution { regions: Vec::new(), diagnostics }
        },
        Ok(None) => RegionResolution { regions: Vec::new(), diagnostics: Vec::new() },
        Ok(Some(names)) => {
            let entries = region_entries(&names);
            let r = select_regions(entries);
            assert(entries_view(entries@) =~= entries_of(names@));
            r
        },
    }
}

} // verus!
