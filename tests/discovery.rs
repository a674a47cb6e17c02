use drips::credentials::aws_creds_list;
use drips::fetch::{
    collect_metadatas, instance_name, regional_instances, FetchError, Instance, InstanceMetadata,
    InstanceMetadataCollection, Outcome, Reservation, Tag,
};
use drips::plan::{plan_region_tasks, select_identities, RegionTask};
use drips::regions::{resolve_regions, select_regions, RegionEntry};
use drips::report::{aggregate, Aggregator, ReportEvent};

fn s(x: &str) -> String {
    x.to_string()
}

fn tag(key: &str, value: &str) -> Tag {
    Tag { key: Some(s(key)), value: Some(s(value)) }
}

fn instance(tags: Option<Vec<Tag>>, ip: Option<&str>) -> Instance {
    Instance { tags, public_ip_address: ip.map(s) }
}

fn listing(instances: Vec<Instance>) -> Result<Option<Vec<Reservation>>, String> {
    Ok(Some(vec![Reservation { instances: Some(instances) }]))
}

fn meta(name: &str, ip: &str) -> InstanceMetadata {
    InstanceMetadata { name: s(name), ip: s(ip) }
}

fn listed(profile: &str, region: &str, metadatas: Vec<InstanceMetadata>) -> Outcome {
    Ok(InstanceMetadataCollection { metadatas, profile: s(profile), region: s(region) })
}

fn line(name: &str, ip: &str) -> ReportEvent {
    ReportEvent::Line { name: s(name), ip: s(ip) }
}

fn region_header(region: &str) -> ReportEvent {
    ReportEvent::RegionHeader { region: s(region) }
}

fn profile_header(profile: &str, separated: bool) -> ReportEvent {
    ReportEvent::ProfileHeader { profile: s(profile), separated }
}

#[test]
fn name_comes_from_the_name_tag_in_any_position() {
    let first = instance(Some(vec![tag("Name", "web"), tag("env", "prod")]), Some("1.1.1.1"));
    let last = instance(Some(vec![tag("env", "prod"), tag("team", "x"), tag("Name", "web")]), None);
    assert_eq!(instance_name(&first), "web");
    assert_eq!(instance_name(&last), "web");
}

#[test]
fn name_falls_back_to_placeholder() {
    assert_eq!(instance_name(&instance(None, None)), "N/A");
    assert_eq!(instance_name(&instance(Some(vec![]), None)), "N/A");
    assert_eq!(instance_name(&instance(Some(vec![tag("name", "lower")]), None)), "N/A");
    let valueless = Tag { key: Some(s("Name")), value: None };
    assert_eq!(instance_name(&instance(Some(vec![valueless]), None)), "N/A");
    let valueless = Tag { key: Some(s("Name")), value: None };
    assert_eq!(
        instance_name(&instance(Some(vec![valueless, tag("Name", "second")]), None)),
        "second"
    );
}

#[test]
fn addressless_instances_are_left_out_by_default() {
    let res = vec![Reservation {
        instances: Some(vec![
            instance(Some(vec![tag("Name", "a")]), Some("10.0.0.1")),
            instance(Some(vec![tag("Name", "b")]), None),
        ]),
    }];
    assert_eq!(collect_metadatas(&res, false), vec![meta("a", "10.0.0.1")]);
    assert_eq!(collect_metadatas(&res, true), vec![meta("a", "10.0.0.1"), meta("b", "N/A")]);
}

#[test]
fn reservations_are_flattened_in_order() {
    let res = vec![
        Reservation { instances: Some(vec![instance(None, Some("1.0.0.1"))]) },
        Reservation { instances: None },
        Reservation {
            instances: Some(vec![
                instance(Some(vec![tag("Name", "x")]), Some("1.0.0.2")),
                instance(None, Some("1.0.0.3")),
            ]),
        },
    ];
    assert_eq!(
        collect_metadatas(&res, false),
        vec![meta("N/A", "1.0.0.1"), meta("x", "1.0.0.2"), meta("N/A", "1.0.0.3")]
    );
}

#[test]
fn listing_failures_become_errors() {
    let failed = regional_instances(s("work"), s("us-east-1"), Err(s("timed out")), false);
    match failed {
        Err(e) => {
            assert_eq!(e.message(), "Region failure in us-east-1: timed out");
            assert_eq!(
                e,
                FetchError::Request {
                    profile: s("work"),
                    region: s("us-east-1"),
                    cause: s("timed out")
                }
            );
        }
        Ok(_) => panic!("expected a failure"),
    }
    let empty = regional_instances(s("work"), s("us-east-1"), Ok(None), false);
    match empty {
        Err(e) => assert_eq!(e.message(), "No reservations"),
        Ok(_) => panic!("expected a failure"),
    }
    let none = regional_instances(s("work"), s("us-east-1"), Ok(Some(vec![])), false);
    assert_eq!(none, listed("work", "us-east-1", vec![]));
}

#[test]
fn region_names_are_canonicalised() {
    let r = resolve_regions(Ok(Some(vec![
        Some(s("US-EAST-1")),
        Some(s("uswest2")),
        None,
        Some(s("mars-north-1")),
    ])));
    assert_eq!(r.regions, vec![s("us-east-1"), s("us-west-2")]);
    assert_eq!(r.diagnostics, vec![s("Region name not found"), s("Region cannot be parsed")]);
}

#[test]
fn region_listing_failure_gives_one_diagnostic() {
    let r = resolve_regions(Err(s("denied")));
    assert!(r.regions.is_empty());
    assert_eq!(r.diagnostics, vec![s("Error getting regions")]);
    let r = resolve_regions(Ok(None));
    assert!(r.regions.is_empty());
    assert!(r.diagnostics.is_empty());
}

#[test]
fn selected_entries_keep_known_regions() {
    let r = select_regions(vec![
        RegionEntry::Known(s("eu-west-1")),
        RegionEntry::Missing,
        RegionEntry::Unknown(s("x")),
        RegionEntry::Known(s("ap-south-1")),
    ]);
    assert_eq!(r.regions, vec![s("eu-west-1"), s("ap-south-1")]);
    assert_eq!(r.diagnostics.len(), 2);
}

#[test]
fn filters_select_profiles_and_regions() {
    let creds = aws_creds_list(
        ["[a]", "aws_access_key_id = 1", "aws_secret_access_key = 2", "[b]",
            "aws_access_key_id = 3", "aws_secret_access_key = 4"]
            .iter()
            .map(|l| s(l))
            .collect(),
    );
    assert_eq!(select_identities(&creds, &None).len(), 2);
    let only_b = select_identities(&creds, &Some(s("b")));
    assert_eq!(only_b.len(), 1);
    assert_eq!(only_b[0].name, "b");
    assert!(select_identities(&creds, &Some(s("nobody"))).is_empty());

    let regions = vec![s("us-east-1"), s("eu-west-1")];
    assert_eq!(
        plan_region_tasks(&s("a"), &regions, &None),
        vec![
            RegionTask { profile: s("a"), region: s("us-east-1") },
            RegionTask { profile: s("a"), region: s("eu-west-1") },
        ]
    );
    assert_eq!(
        plan_region_tasks(&s("a"), &regions, &Some(s("eu-west-1"))),
        vec![RegionTask { profile: s("a"), region: s("eu-west-1") }]
    );
    assert!(plan_region_tasks(&s("a"), &regions, &Some(s("sa-east-1"))).is_empty());
}

#[test]
fn unmatched_profile_filter_reports_nothing() {
    let creds = aws_creds_list(vec![
        s("[work]"),
        s("aws_access_key_id = K"),
        s("aws_secret_access_key = S"),
    ]);
    let selected = select_identities(&creds, &Some(s("other")));
    assert!(selected.is_empty());
    let outcomes: Vec<Outcome> = Vec::new();
    assert!(aggregate(&outcomes).is_empty());
}

#[test]
fn empty_regions_are_suppressed() {
    let outcomes = vec![
        listed("work", "us-east-1", vec![]),
        listed("work", "us-west-2", vec![meta("db", "5.6.7.8")]),
        listed("work", "eu-west-1", vec![]),
        listed("home", "eu-west-1", vec![]),
        listed("home", "ap-south-1", vec![meta("pi", "9.9.9.9"), meta("nas", "8.8.8.8")]),
    ];
    assert_eq!(
        aggregate(&outcomes),
        vec![
            profile_header("work", false),
            region_header("us-west-2"),
            line("db", "5.6.7.8"),
            profile_header("home", true),
            region_header("ap-south-1"),
            line("pi", "9.9.9.9"),
            line("nas", "8.8.8.8"),
        ]
    );
}

#[test]
fn failures_do_not_touch_grouping() {
    let outcomes = vec![
        listed("work", "us-east-1", vec![meta("a", "1.1.1.1")]),
        Err(FetchError::NoReservations { profile: s("work"), region: s("us-east-2") }),
        listed("work", "us-west-1", vec![meta("b", "2.2.2.2")]),
    ];
    assert_eq!(
        aggregate(&outcomes),
        vec![
            profile_header("work", false),
            region_header("us-east-1"),
            line("a", "1.1.1.1"),
            ReportEvent::Diagnostic { message: s("No reservations") },
            region_header("us-west-1"),
            line("b", "2.2.2.2"),
        ]
    );
}

#[test]
fn aggregator_consumes_one_outcome_at_a_time() {
    let mut agg = Aggregator::new();
    assert!(agg.consume(&listed("p", "r", vec![])).is_empty());
    assert_eq!(
        agg.consume(&listed("p", "r", vec![meta("n", "i")])),
        vec![profile_header("p", false), region_header("r"), line("n", "i")]
    );
    assert_eq!(agg.current_profile, "p");
    assert_eq!(
        agg.consume(&listed("p", "r2", vec![meta("m", "j")])),
        vec![region_header("r2"), line("m", "j")]
    );
}

#[test]
fn partial_failure_keeps_other_identities() {
    // Identity a cannot list its regions; b can.
    let a = resolve_regions(Err(s("AuthFailure")));
    let b = resolve_regions(Ok(Some(vec![Some(s("us-east-1"))])));
    assert_eq!(a.diagnostics.len(), 1);
    let mut tasks = plan_region_tasks(&s("a"), &a.regions, &None);
    tasks.extend(plan_region_tasks(&s("b"), &b.regions, &None));
    assert_eq!(tasks, vec![RegionTask { profile: s("b"), region: s("us-east-1") }]);
    let outcomes: Vec<Outcome> = tasks
        .into_iter()
        .map(|t| {
            regional_instances(
                t.profile,
                t.region,
                listing(vec![instance(Some(vec![tag("Name", "api")]), Some("3.3.3.3"))]),
                false,
            )
        })
        .collect();
    assert_eq!(
        aggregate(&outcomes),
        vec![profile_header("b", false), region_header("us-east-1"), line("api", "3.3.3.3")]
    );
}

#[test]
fn two_profiles_one_instance() {
    let creds = aws_creds_list(vec![
        s("[work]"),
        s("aws_access_key_id = AKW"),
        s("aws_secret_access_key = SKW"),
        s("[personal]"),
        s("aws_access_key_id = AKP"),
        s("aws_secret_access_key = SKP"),
    ]);
    let selected = select_identities(&creds, &None);
    assert_eq!(selected.len(), 2);
    let mut outcomes: Vec<Outcome> = Vec::new();
    for identity in &selected {
        let resolved = resolve_regions(Ok(Some(vec![Some(s("us-east-1")), Some(s("eu-west-1"))])));
        assert!(resolved.diagnostics.is_empty());
        for task in plan_region_tasks(&identity.name, &resolved.regions, &None) {
            let answer = if task.profile == "work" && task.region == "us-east-1" {
                listing(vec![instance(Some(vec![tag("Name", "web")]), Some("1.2.3.4"))])
            } else {
                Ok(Some(vec![]))
            };
            outcomes.push(regional_instances(task.profile, task.region, answer, false));
        }
    }
    let events = aggregate(&outcomes);
    assert_eq!(
        events,
        vec![profile_header("work", false), region_header("us-east-1"), line("web", "1.2.3.4")]
    );
    assert!(!events.iter().any(|e| matches!(e, ReportEvent::Diagnostic { .. })));
}
