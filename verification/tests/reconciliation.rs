//! Reconciliation plans, batch application, resolver fallback, the cache
//! round trip, and routing-table parsing.

use sync_block::addr::Address;
use sync_block::cache::{format_cache, load_cache, parse_cache, CacheRead};
use sync_block::error::SyncError;
use sync_block::reconcile::{block_plan, unblock_plan, Batch};
use sync_block::resolver::{
    desired_routes, needs_cache_fallback, routes, Resolution, ResolutionErrorKind,
};
use sync_block::table::{check_exit, parse_route_table};

fn a() -> Address {
    Address::V4(10, 0, 0, 1)
}

fn b() -> Address {
    Address::V4(10, 0, 0, 2)
}

fn c() -> Address {
    Address::V4(10, 0, 0, 3)
}

fn set_eq(left: &[Address], right: &[Address]) -> bool {
    left.iter().all(|x| right.contains(x)) && right.iter().all(|x| left.contains(x))
}

#[test]
fn diff_adds_only_the_missing_address() {
    // existing {A, C}, desired {A, B}: one add (B), one delete (A)
    let existing = vec![a(), c()];
    let desired = vec![a(), b()];
    assert_eq!(block_plan(&existing, &desired), vec![b()]);
    assert_eq!(unblock_plan(&existing, &desired), vec![a()]);
}

#[test]
fn block_twice_adds_nothing_the_second_time() {
    let existing = vec![c()];
    let desired = vec![a(), b()];
    let first = block_plan(&existing, &desired);
    assert_eq!(first, vec![a(), b()]);
    // the table now holds the union; a second run has zero adds
    let mut after = existing.clone();
    after.extend(first);
    assert_eq!(block_plan(&after, &desired), Vec::<Address>::new());
}

#[test]
fn unblock_with_nothing_blocked_deletes_nothing() {
    let existing = vec![c()];
    let desired = vec![a(), b()];
    assert_eq!(unblock_plan(&existing, &desired), Vec::<Address>::new());
}

#[test]
fn batch_stops_at_first_failure() {
    // three adds; the second fails: the first stays mutated, the third is
    // never attempted
    let plan = vec![a(), b(), c()];
    let mut batch = Batch::new(plan);
    let mut failure: Option<SyncError> = None;
    let outcomes = [true, false, true];
    let mut step = 0;
    while let Some(addr) = batch.next_address() {
        let ok = outcomes[step];
        step += 1;
        match check_exit(ok, addr, b"out".to_vec(), b"err".to_vec()) {
            Ok(()) => batch.advance(),
            Err(e) => {
                failure = Some(e);
                break;
            },
        }
    }
    assert_eq!(step, 2);
    assert_eq!(batch.completed(), vec![a()]);
    assert_eq!(batch.completed_count(), 1);
    match failure {
        Some(SyncError::ProcessExit { address, stdout, stderr }) => {
            assert_eq!(address, Some(b()));
            assert_eq!(stdout, b"out".to_vec());
            assert_eq!(stderr, b"err".to_vec());
        },
        other => panic!("expected a process exit failure, got {other:?}"),
    }
}

#[test]
fn batch_runs_to_completion_on_success() {
    let plan = vec![a(), b()];
    let mut batch = Batch::new(plan.clone());
    while let Some(addr) = batch.next_address() {
        check_exit(true, addr, Vec::new(), Vec::new()).unwrap();
        batch.advance();
    }
    assert_eq!(batch.completed(), plan);
}

#[test]
fn one_failed_domain_does_not_lose_the_others() {
    // one of two domains fails with a non-connectivity error: the other's
    // addresses survive and the cache is not consulted
    let rs = vec![
        Resolution::Resolved(vec![a(), b()]),
        Resolution::Failed(ResolutionErrorKind::Other),
    ];
    assert!(!needs_cache_fallback(&rs));
    let cached = vec![c()];
    let desired = desired_routes(&rs, &cached);
    assert!(set_eq(&desired, &[a(), b()]));
    assert!(!desired.contains(&c()));
}

#[test]
fn total_connectivity_loss_falls_back_to_the_cache() {
    let rs = vec![
        Resolution::Failed(ResolutionErrorKind::NoConnectivity),
        Resolution::Failed(ResolutionErrorKind::NoConnectivity),
        Resolution::Failed(ResolutionErrorKind::NoConnectivity),
    ];
    assert!(needs_cache_fallback(&rs));
    let cached = vec![a(), b()];
    let desired = desired_routes(&rs, &cached);
    assert!(set_eq(&desired, &[a(), b()]));
}

#[test]
fn partial_loss_of_connectivity_still_unions_the_cache() {
    // fresh results are kept even when the cache is consulted
    let rs = vec![
        Resolution::Resolved(vec![a()]),
        Resolution::Failed(ResolutionErrorKind::NoConnectivity),
    ];
    assert!(needs_cache_fallback(&rs));
    let desired = desired_routes(&rs, &vec![b()]);
    assert!(set_eq(&desired, &[a(), b()]));
}

#[test]
fn desired_routes_drops_duplicates() {
    let rs = vec![
        Resolution::Resolved(vec![a(), a(), b()]),
        Resolution::Resolved(vec![b(), a()]),
    ];
    let desired = desired_routes(&rs, &Vec::new());
    assert_eq!(desired.len(), 2);
    assert!(set_eq(&desired, &[a(), b()]));
}

#[test]
fn routes_on_total_loss_returns_exactly_the_cache() {
    let rs = vec![
        Resolution::Failed(ResolutionErrorKind::NoConnectivity),
        Resolution::Failed(ResolutionErrorKind::NoConnectivity),
    ];
    let cache = CacheRead::Found(b"10.0.0.1\n10.0.0.2".to_vec());
    let desired = routes(&rs, &cache).unwrap();
    assert!(set_eq(&desired, &[a(), b()]));
}

#[test]
fn routes_without_loss_ignores_the_cache() {
    // even an unparseable cache file is no failure when it is not consulted
    let rs = vec![
        Resolution::Resolved(vec![a()]),
        Resolution::Failed(ResolutionErrorKind::Other),
    ];
    let cache = CacheRead::Found(b"garbage".to_vec());
    let desired = routes(&rs, &cache).unwrap();
    assert_eq!(desired, vec![a()]);
}

#[test]
fn routes_surfaces_a_bad_cache_line_on_fallback() {
    let rs = vec![Resolution::Failed(ResolutionErrorKind::NoConnectivity)];
    let cache = CacheRead::Found(b"10.0.0.1\ngarbage".to_vec());
    match routes(&rs, &cache) {
        Err(SyncError::CacheParse { line }) => assert_eq!(line, b"garbage".to_vec()),
        other => panic!("expected a cache parse failure, got {other:?}"),
    }
}

#[test]
fn routes_with_missing_cache_on_partial_success() {
    // a missing cache file contributes an empty set, without an error
    let rs = vec![
        Resolution::Resolved(vec![b()]),
        Resolution::Failed(ResolutionErrorKind::NoConnectivity),
    ];
    let desired = routes(&rs, &CacheRead::Absent).unwrap();
    assert_eq!(desired, vec![b()]);
}

#[test]
fn cache_round_trip_restores_the_set() {
    let addrs = vec![a(), b(), Address::V6(0x2001, 0xdb8, 0, 0, 0, 0, 0, 1)];
    let text = format_cache(&addrs);
    let back = parse_cache(&text).unwrap();
    assert_eq!(back, addrs);
}

#[test]
fn empty_cache_round_trip() {
    let text = format_cache(&Vec::new());
    assert_eq!(text, Vec::<u8>::new());
    assert_eq!(parse_cache(&text).unwrap(), Vec::<Address>::new());
}

#[test]
fn missing_cache_file_is_an_empty_set() {
    let loaded = load_cache(&CacheRead::Absent).unwrap();
    assert_eq!(loaded, Vec::<Address>::new());
}

#[test]
fn cache_text_variants_parse() {
    assert_eq!(
        parse_cache(b"10.0.0.1\n10.0.0.2").unwrap(),
        vec![a(), b()]
    );
    // a final newline and carriage returns belong to the line endings
    assert_eq!(
        parse_cache(b"10.0.0.1\r\n10.0.0.2\n").unwrap(),
        vec![a(), b()]
    );
}

#[test]
fn bad_cache_line_is_a_cache_parse_failure() {
    match parse_cache(b"10.0.0.1\nnot-an-address\n10.0.0.3") {
        Err(SyncError::CacheParse { line }) => assert_eq!(line, b"not-an-address".to_vec()),
        other => panic!("expected a cache parse failure, got {other:?}"),
    }
}

#[test]
fn route_listing_skips_two_headers_and_reads_first_fields() {
    let listing = b"Kernel IP routing table\n\
Destination Gateway Genmask Flags Metric Ref Use Iface\n\
10.0.0.1 - 255.255.255.255 !H - - - -\n\
10.0.0.2 - 255.255.255.255 !H - - - -\n";
    let routes = parse_route_table(true, listing.to_vec(), Vec::new()).unwrap();
    assert_eq!(routes, vec![a(), b()]);
}

#[test]
fn route_listing_with_no_body_is_empty() {
    assert_eq!(parse_route_table(true, Vec::new(), Vec::new()).unwrap(), Vec::<Address>::new());
    assert_eq!(
        parse_route_table(true, b"header one\nheader two\n".to_vec(), Vec::new()).unwrap(),
        Vec::<Address>::new()
    );
}

#[test]
fn route_listing_failed_command_is_a_process_exit_failure() {
    // a listing whose command exits non-zero must not be read as an empty
    // table, whatever its stdout holds
    match parse_route_table(false, Vec::new(), b"route: not permitted".to_vec()) {
        Err(SyncError::ProcessExit { address, stdout, stderr }) => {
            assert_eq!(address, None);
            assert_eq!(stdout, Vec::<u8>::new());
            assert_eq!(stderr, b"route: not permitted".to_vec());
        },
        other => panic!("expected a process exit failure, got {other:?}"),
    }
}

#[test]
fn route_listing_deduplicates() {
    let listing = b"h1\nh2\n10.0.0.1 x\n10.0.0.1 y\n";
    assert_eq!(parse_route_table(true, listing.to_vec(), Vec::new()).unwrap(), vec![a()]);
}

#[test]
fn route_listing_bad_field_is_a_parse_failure() {
    let listing = b"h1\nh2\n10.0.0.1 ok\nbogus-field rest\n";
    match parse_route_table(true, listing.to_vec(), Vec::new()) {
        Err(SyncError::Parse { line }) => assert_eq!(line, b"bogus-field rest".to_vec()),
        other => panic!("expected a parse failure, got {other:?}"),
    }
}

#[test]
fn exit_status_translation() {
    assert!(check_exit(true, a(), Vec::new(), Vec::new()).is_ok());
    let err = check_exit(false, a(), b"o".to_vec(), b"e".to_vec()).unwrap_err();
    assert!(matches!(err, SyncError::ProcessExit { address, .. } if address == Some(a())));
    // the remaining kinds are raised by the surrounding process and file
    // plumbing
    assert!(matches!(SyncError::ProcessLaunch, SyncError::ProcessLaunch));
    assert!(matches!(SyncError::CacheIo, SyncError::CacheIo));
}

#[test]
fn full_block_flow_over_injected_outcomes() {
    // listing shows A and C blocked; resolution yields A and B; the run
    // must add exactly B, and every add succeeds
    let listing = b"Kernel IP routing table\n\
Destination Gateway Genmask Flags Metric Ref Use Iface\n\
10.0.0.1 - 255.255.255.255 !H - - - -\n\
10.0.0.3 - 255.255.255.255 !H - - - -\n";
    let existing = parse_route_table(true, listing.to_vec(), Vec::new()).unwrap();
    let rs = vec![
        Resolution::Resolved(vec![a()]),
        Resolution::Resolved(vec![b()]),
    ];
    let desired = routes(&rs, &CacheRead::Absent).unwrap();
    let plan = block_plan(&existing, &desired);
    assert_eq!(plan, vec![b()]);
    let mut batch = Batch::new(plan);
    while let Some(addr) = batch.next_address() {
        check_exit(true, addr, Vec::new(), Vec::new()).unwrap();
        batch.advance();
    }
    assert_eq!(batch.completed(), vec![b()]);
}

#[test]
fn backend_list_has_nine_domains() {
    let domains = sync_block::backends::sync_backends();
    assert_eq!(domains.len(), 9);
    assert!(domains.contains(&"my.remarkable.com"));
}
