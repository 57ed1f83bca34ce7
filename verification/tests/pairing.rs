use pairgen::generator::{generate_groups, greedy_pairing};
use pairgen::history::{build_pair_counts, pair_score};
use pairgen::keys::normalize_pair;
use pairgen::output::{display_groups, normalized_pairs, score_matrix};

fn names(list: &[&str]) -> Vec<String> {
    list.iter().map(|s| s.to_string()).collect()
}

fn records(list: &[(&str, &str)]) -> Vec<(String, String)> {
    list.iter().map(|(a, b)| (a.to_string(), b.to_string())).collect()
}

/// All participants of a result, sorted: the pairs' members plus the solo.
fn members(pairs: &[(String, String)], solo: &Option<String>) -> Vec<String> {
    let mut all: Vec<String> = Vec::new();
    for (a, b) in pairs {
        all.push(a.clone());
        all.push(b.clone());
    }
    if let Some(s) = solo {
        all.push(s.clone());
    }
    all.sort();
    all
}

#[test]
fn normalize_pair_is_symmetric() {
    assert_eq!(normalize_pair("Ann", "Bo"), normalize_pair("Bo", "Ann"));
    assert_eq!(normalize_pair("Bo", "Ann"), ("Ann".to_string(), "Bo".to_string()));
    assert_eq!(normalize_pair("Ann", "Ann"), ("Ann".to_string(), "Ann".to_string()));
    assert_eq!(normalize_pair("", "Ann"), ("".to_string(), "Ann".to_string()));
}

#[test]
fn history_round_trip_counts_records() {
    let recs = records(&[("Ann", "Bo"), ("Bo", "Ann"), ("Ann", "Bo"), ("Cy", "Di")]);
    let h = build_pair_counts(&recs);
    assert_eq!(pair_score(&h, "Ann", "Bo"), 3);
    assert_eq!(pair_score(&h, "Bo", "Ann"), 3);
    assert_eq!(pair_score(&h, "Cy", "Di"), 1);
    assert_eq!(pair_score(&h, "Di", "Cy"), 1);
    assert_eq!(pair_score(&h, "Ann", "Cy"), 0);
}

#[test]
fn empty_history_scores_zero() {
    let h = build_pair_counts(&records(&[]));
    assert_eq!(pair_score(&h, "Ann", "Bo"), 0);
}

#[test]
fn greedy_pass_prefers_first_low_score_partner() {
    let h = build_pair_counts(&records(&[("Ann", "Bo"), ("Ann", "Bo"), ("Ann", "Bo")]));
    // Cy scores zero with both Ann and Bo; the first in scan order wins.
    let r = greedy_pairing(&names(&["Cy", "Ann", "Bo"]), &h);
    assert_eq!(r.pairs, vec![("Cy".to_string(), "Ann".to_string())]);
    assert_eq!(r.solo, Some("Bo".to_string()));
    assert_eq!(r.total, 0);
    // Ann avoids Bo (score 3) in favor of Cy (score 0).
    let r2 = greedy_pairing(&names(&["Ann", "Bo", "Cy"]), &h);
    assert_eq!(r2.pairs, vec![("Ann".to_string(), "Cy".to_string())]);
    assert_eq!(r2.solo, Some("Bo".to_string()));
    assert_eq!(r2.total, 0);
}

#[test]
fn even_roster_with_empty_history() {
    let roster = names(&["Ann", "Bo", "Cy", "Di"]);
    let h = build_pair_counts(&records(&[]));
    let r = generate_groups(&roster, &h, 1);
    assert_eq!(r.pairs.len(), 2);
    assert!(r.solo.is_none());
    assert_eq!(r.total, 0);
    assert_eq!(members(&r.pairs, &r.solo), names(&["Ann", "Bo", "Cy", "Di"]));
}

#[test]
fn odd_roster_yields_two_pairs_and_a_solo() {
    let roster = names(&["Ann", "Bo", "Cy", "Di", "Ed"]);
    let h = build_pair_counts(&records(&[]));
    let r = generate_groups(&roster, &h, 10);
    assert_eq!(r.pairs.len(), 2);
    assert!(r.solo.is_some());
    assert_eq!(r.total, 0);
    assert_eq!(members(&r.pairs, &r.solo), names(&["Ann", "Bo", "Cy", "Di", "Ed"]));
}

#[test]
fn single_participant_is_solo() {
    let roster = names(&["Ann"]);
    let h = build_pair_counts(&records(&[]));
    let r = generate_groups(&roster, &h, 1);
    assert_eq!(r.pairs.len(), 0);
    assert_eq!(r.solo, Some("Ann".to_string()));
    assert_eq!(r.total, 0);
}

#[test]
fn repeated_pair_is_avoided() {
    let roster = names(&["Ann", "Bo", "Cy"]);
    let h = build_pair_counts(&records(&[("Ann", "Bo"), ("Ann", "Bo"), ("Ann", "Bo")]));
    let r = generate_groups(&roster, &h, 1000);
    assert_eq!(r.total, 0);
    assert_eq!(r.pairs.len(), 1);
    let (a, b) = &r.pairs[0];
    // Cy is in the one real pair; Ann and Bo are never paired together.
    assert!(a == "Cy" || b == "Cy");
    let solo = r.solo.clone().unwrap();
    assert!(solo == "Ann" || solo == "Bo");
    assert_eq!(members(&r.pairs, &r.solo), names(&["Ann", "Bo", "Cy"]));
}

#[test]
fn larger_budget_never_scores_worse() {
    // A-B scores 0, C-D scores 5, every cross pair scores 1: a pass whose
    // permutation starts with A or B greedily takes the zero-score pair
    // and is then stuck with C-D (total 5); starting with C or D finds a
    // total of 2, the minimum. A large budget finds 2 all but certainly.
    let roster = names(&["Ann", "Bo", "Cy", "Di"]);
    let mut past: Vec<(&str, &str)> = Vec::new();
    for _ in 0..5 {
        past.push(("Cy", "Di"));
    }
    past.push(("Ann", "Cy"));
    past.push(("Ann", "Di"));
    past.push(("Bo", "Cy"));
    past.push(("Bo", "Di"));
    let h = build_pair_counts(&records(&past));
    let small = generate_groups(&roster, &h, 5);
    let large = generate_groups(&roster, &h, 2000);
    assert_eq!(large.total, 2);
    assert!(large.total <= small.total);
}

#[test]
fn totals_report_the_sum_of_pair_scores() {
    let roster = names(&["Ann", "Bo"]);
    let h = build_pair_counts(&records(&[("Ann", "Bo"), ("Ann", "Bo")]));
    let r = generate_groups(&roster, &h, 3);
    assert_eq!(r.pairs.len(), 1);
    assert!(r.solo.is_none());
    assert_eq!(r.total, 2);
}

#[test]
fn normalized_pairs_sort_each_pair() {
    let out = normalized_pairs(&records(&[("Di", "Cy"), ("Ann", "Bo")]));
    assert_eq!(out, records(&[("Cy", "Di"), ("Ann", "Bo")]));
}

#[test]
fn display_merges_solo_into_last_group() {
    let pairs = records(&[("Ann", "Bo"), ("Cy", "Di")]);
    let g = display_groups(&pairs, &Some("Ed".to_string()));
    assert_eq!(g, vec![names(&["Ann", "Bo"]), names(&["Cy", "Di", "Ed"])]);
    let g2 = display_groups(&pairs, &None);
    assert_eq!(g2, vec![names(&["Ann", "Bo"]), names(&["Cy", "Di"])]);
    let g3 = display_groups(&records(&[]), &Some("Ann".to_string()));
    assert!(g3.is_empty());
}

#[test]
fn matrix_holds_every_pairwise_score() {
    let roster = names(&["Ann", "Bo", "Cy"]);
    let h = build_pair_counts(&records(&[("Bo", "Ann"), ("Ann", "Bo"), ("Cy", "Ann")]));
    let mx = score_matrix(&roster, &h);
    assert_eq!(mx.len(), 3);
    assert_eq!(mx[0], vec![0, 2, 1]);
    assert_eq!(mx[1], vec![2, 0, 0]);
    assert_eq!(mx[2], vec![1, 0, 0]);
}
