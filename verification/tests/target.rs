//! Backend selection.

use std::collections::HashMap;

use lb::lb_core::rotation::{lay_out, MAX_WEIGHT_TABLE};
use lb::lb_core::target::{BackendEndpoint, TargetGroup};

fn group(specs: &[(&str, u32)]) -> TargetGroup {
    TargetGroup::from_endpoints(
        specs
            .iter()
            .map(|(a, w)| BackendEndpoint::new(a.to_string(), *w))
            .collect(),
    )
}

#[test]
fn round_robin_cycles_in_order() {
    let g = group(&[
        ("10.0.0.1:8080", 1),
        ("10.0.0.2:8080", 1),
        ("10.0.0.3:8080", 1),
    ]);
    let seen: Vec<_> = (0..4).map(|_| g.select().address().to_string()).collect();
    assert_eq!(
        seen,
        [
            "10.0.0.1:8080",
            "10.0.0.2:8080",
            "10.0.0.3:8080",
            "10.0.0.1:8080"
        ]
    );
}

#[test]
fn single_endpoint_skips_the_atomic() {
    let g = group(&[("10.0.0.1:80", 1)]);
    assert_eq!(g.select().address(), "10.0.0.1:80");
    assert_eq!(g.select().address(), "10.0.0.1:80");
    assert_eq!(g.len(), 1);
}

#[test]
fn empty_group_yields_a_safe_placeholder() {
    let g = TargetGroup::from_endpoints(vec![]);
    assert_eq!(g.select().address(), "127.0.0.1:80");
}

#[test]
fn zero_weight_endpoints_receive_no_traffic() {
    let g = group(&[("live:80", 1), ("drained:80", 0)]);
    for _ in 0..20 {
        assert_eq!(g.select().address(), "live:80");
    }
}

#[test]
fn weighted_distribution_matches_ratio() {
    let g = group(&[("a:80", 3), ("b:80", 1)]);
    let mut counts: HashMap<String, usize> = HashMap::new();
    for _ in 0..4_000 {
        *counts.entry(g.select().address().to_string()).or_default() += 1;
    }
    assert_eq!(counts["a:80"], 3_000);
    assert_eq!(counts["b:80"], 1_000);
}

#[test]
fn weighted_selection_is_interleaved_not_blocked() {
    // 3:1 must produce a,a,b,a-style spread, never aaa...bbb.
    let g = group(&[("a:80", 3), ("b:80", 1)]);
    let seq: Vec<_> = (0..8).map(|_| g.select().address().to_string()).collect();
    let first_b = seq.iter().position(|s| s == "b:80").expect("b must appear");
    assert!(first_b < 4, "b starved for {first_b} slots: {seq:?}");
}

#[test]
fn extreme_weights_stay_within_the_table_cap() {
    let g = group(&[("a:80", 1_000_000), ("b:80", 1)]);
    // Must not allocate a million-entry table, and must still serve both.
    let mut saw_b = false;
    for _ in 0..4096 {
        if g.select().address() == "b:80" {
            saw_b = true;
        }
    }
    assert!(saw_b, "the low-weight backend was scaled out of existence");
}

#[test]
fn authority_is_parsed_once_and_cached() {
    let ep = BackendEndpoint::new("10.0.0.1:8080".to_string(), 1);
    let first = ep.authority().expect("valid authority");
    let second = ep.authority().expect("valid authority");
    assert!(
        std::ptr::eq(first, second),
        "authority must be cached, not reparsed"
    );
    assert_eq!(ep.authority().unwrap(), "10.0.0.1:8080");
}

#[test]
fn invalid_authority_is_reported_not_panicked() {
    assert!(
        BackendEndpoint::new("not a valid authority".to_string(), 1)
            .authority()
            .is_none()
    );
}


#[test]
fn equality_ignores_the_derived_authority_cache() {
    let a = BackendEndpoint::new("10.0.0.1:80".to_string(), 1);
    let b = BackendEndpoint::new("10.0.0.1:80".to_string(), 1);
    let _ = a.authority();
    assert_eq!(a, b, "populating the cache must not change identity");
}

#[test]
fn clones_share_one_cursor() {
    let g = group(&[("a:80", 1), ("b:80", 1)]);
    let clone = g.clone();
    assert_eq!(g.select().address(), "a:80");
    assert_eq!(
        clone.select().address(),
        "b:80",
        "clone must share the cursor"
    );
}

#[test]
fn interleaved_selection_is_evenly_distributed() {
    let g = group(&[("a:80", 1), ("b:80", 1), ("c:80", 1)]);
    let clones: Vec<TargetGroup> = (0..8).map(|_| g.clone()).collect();
    let mut counts: HashMap<String, usize> = HashMap::new();
    for _ in 0..3_000 {
        for g in &clones {
            *counts.entry(g.select().address().to_string()).or_default() += 1;
        }
    }
    assert_eq!(counts.values().sum::<usize>(), 24_000);
    for (addr, n) in counts.iter() {
        assert_eq!(*n, 8_000, "{addr} got {n} of 24000");
    }
}

#[test]
fn the_table_never_exceeds_its_cap() {
    let table = lay_out(&vec![1_000_000, 1]);
    assert_eq!(table.len(), MAX_WEIGHT_TABLE);
    assert!(table.contains(&0) && table.contains(&1));
    assert_eq!(table.iter().filter(|slot| **slot == 1).count(), 1);

    // Many light backends beside heavy ones: each keeps a turn.
    let mut weights = vec![1_000_000u32, 3_000_000];
    weights.resize(1_000, 1);
    let table = lay_out(&weights);
    assert_eq!(table.len(), MAX_WEIGHT_TABLE);
    for i in 0..1_000u16 {
        assert!(table.contains(&i));
    }
}

#[test]
fn any_run_of_turns_honours_the_weights() {
    let g = group(&[("a:80", 5), ("b:80", 2), ("c:80", 1)]);
    for from in 0..20 {
        let mut counts = [0; 3];
        for ticket in from..from + 8 {
            match g.select_at(ticket).address() {
                "a:80" => counts[0] += 1,
                "b:80" => counts[1] += 1,
                _ => counts[2] += 1,
            }
        }
        assert_eq!(counts, [5, 2, 1]);
    }
    let even = group(&[("a:80", 2), ("b:80", 2)]);
    let seen: Vec<&str> = (3..7).map(|t| even.select_at(t).address()).collect();
    assert_eq!(seen, ["b:80", "a:80", "b:80", "a:80"]);
}
