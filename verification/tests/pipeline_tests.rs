use mirrors::candidate::{filter, Candidate};
use mirrors::probe::{
    collect_outcomes, probe_target, probe_targets, ProbeOutcome, DEFAULT_CONNECT_TIMEOUT_SECS,
};
use mirrors::pipeline::{fast_lines, probed_lines};
use mirrors::ranker::{rank, RankedEntry, DEFAULT_MIN_RANK};
use mirrors::render::render;
use mirrors::scoring::{rendered_line, score_fast, score_outcomes};

fn eligible(url: &str, score: f64) -> Candidate {
    Candidate {
        base_url: url.to_string(),
        transport_protocol: "https".to_string(),
        prior_score: Some(score.to_bits()),
        supports_ipv4: true,
        is_active: true,
    }
}

fn weighted(prior: u64, millis: u128) -> u64 {
    let score = f64::from_bits(prior);
    let time = (millis as f64) / 1000.;
    ((-(time * time) / 100.).exp() * 0.5 + (-(score * score) / 100.).exp() * 0.5).to_bits()
}

fn inverse(prior: u64) -> u64 {
    (1. / f64::from_bits(prior)).to_bits()
}

#[test]
fn default_timeout_is_fifteen_seconds() {
    assert_eq!(DEFAULT_CONNECT_TIMEOUT_SECS, 15);
}

#[test]
fn probe_target_appends_the_reference_file() {
    let target = probe_target(&"https://mirror.example/arch/".to_string());
    assert_eq!(target, "https://mirror.example/arch/core/os/x86_64/core.db.tar.gz");
    assert_eq!(probe_target(&String::new()), "core/os/x86_64/core.db.tar.gz");
}

#[test]
fn probe_targets_are_one_per_candidate_in_order() {
    let candidates = vec![eligible("https://a/", 1.0), eligible("https://b/", 2.0)];
    let targets = probe_targets(&candidates);
    assert_eq!(
        targets,
        vec![
            "https://a/core/os/x86_64/core.db.tar.gz".to_string(),
            "https://b/core/os/x86_64/core.db.tar.gz".to_string(),
        ]
    );
    assert!(probe_targets(&Vec::new()).is_empty());
}

#[test]
fn outcomes_are_matched_place_by_place() {
    let candidates =
        vec![eligible("https://a/", 1.0), eligible("https://b/", 2.0), eligible("https://c/", 3.0)];
    let elapsed = vec![Some(300u128), None, Some(20u128)];
    let outcomes = collect_outcomes(&candidates, &elapsed).unwrap();
    assert_eq!(outcomes.len(), 3);
    for i in 0..3 {
        assert_eq!(outcomes[i].candidate.base_url, candidates[i].base_url);
        assert_eq!(outcomes[i].candidate.prior_score, candidates[i].prior_score);
        assert_eq!(outcomes[i].elapsed_millis, elapsed[i]);
        assert_eq!(outcomes[i].has_succeeded(), elapsed[i].is_some());
    }
}

#[test]
fn outcomes_need_one_measurement_per_candidate() {
    let candidates = vec![eligible("https://a/", 1.0), eligible("https://b/", 2.0)];
    assert!(collect_outcomes(&candidates, &vec![Some(1u128)]).is_none());
    assert!(collect_outcomes(&candidates, &vec![None, None, None]).is_none());
    assert!(collect_outcomes(&Vec::new(), &Vec::new()).unwrap().is_empty());
}

#[test]
fn outcome_duplicate_copies_both_fields() {
    let o = ProbeOutcome { candidate: eligible("https://a/", 1.0), elapsed_millis: Some(7) };
    let d = o.duplicate();
    assert_eq!(d.candidate.base_url, "https://a/");
    assert_eq!(d.elapsed_millis, Some(7));
}

#[test]
fn rendered_line_wraps_the_address() {
    assert_eq!(
        rendered_line(&"https://mirror.example/arch/".to_string()),
        "Server = https://mirror.example/arch/$repo/os/$arch"
    );
}

#[test]
fn score_outcomes_hands_prior_score_and_millis_to_the_formula() {
    let candidates = vec![eligible("https://a/", 3.0), eligible("https://b/", 7.0)];
    let outcomes = collect_outcomes(&candidates, &vec![Some(11u128), Some(13u128)]).unwrap();
    let entries = score_outcomes(&outcomes, |prior: u64, millis: u128| {
        (f64::from_bits(prior) as u64) * 1000 + (millis as u64)
    });
    assert_eq!(entries.len(), 2);
    assert_eq!(entries[0].rank, 3011);
    assert_eq!(entries[1].rank, 7013);
    assert_eq!(entries[0].rendered_url, "Server = https://a/$repo/os/$arch");
    assert_eq!(entries[1].rendered_url, "Server = https://b/$repo/os/$arch");
}

#[test]
fn normal_score_has_its_exact_value() {
    let candidates = vec![eligible("x", 1.0)];
    let outcomes = collect_outcomes(&candidates, &vec![Some(100u128)]).unwrap();
    let entries = score_outcomes(&outcomes, weighted);
    let got = f64::from_bits(entries[0].rank);
    let want = 0.5 * (-0.0001f64).exp() + 0.5 * (-0.01f64).exp();
    assert!((got - want).abs() < 1e-15);
    assert!((got - 0.9949749193745008).abs() < 1e-12);
    assert!(got > 0.0 && got <= 1.0);
}

#[test]
fn failed_probe_is_left_out() {
    let candidates = vec![eligible("x", 1.0), eligible("y", 1.0)];
    let outcomes = collect_outcomes(&candidates, &vec![Some(100u128), None]).unwrap();
    let entries = score_outcomes(&outcomes, weighted);
    let ranked = rank(&entries, Some(DEFAULT_MIN_RANK));
    let lines = render(&ranked);
    assert_eq!(lines, vec!["Server = x$repo/os/$arch".to_string()]);
}

#[test]
fn slow_and_poorly_rated_mirrors_fall_under_the_threshold() {
    let candidates = vec![eligible("slow", 0.5), eligible("good", 0.5), eligible("poor", 40.0)];
    let outcomes =
        collect_outcomes(&candidates, &vec![Some(60_000u128), Some(50u128), Some(50_000u128)])
            .unwrap();
    let entries = score_outcomes(&outcomes, weighted);
    assert_eq!(entries.len(), 3);
    let lines = render(&rank(&entries, Some(DEFAULT_MIN_RANK)));
    assert_eq!(lines, vec!["Server = good$repo/os/$arch".to_string()]);
}

#[test]
fn fast_mode_ranks_by_prior_score_alone() {
    let catalog = vec![eligible("a", 1.0), eligible("b", 50.0)];
    let candidates = filter(&catalog);
    let entries = score_fast(&candidates, inverse);
    assert_eq!(entries[0].rank, 1.0f64.to_bits());
    assert_eq!(entries[1].rank, 0.02f64.to_bits());
    let lines = render(&rank(&entries, None));
    assert_eq!(lines, vec!["a".to_string(), "b".to_string()]);
}

#[test]
fn fast_mode_applies_no_threshold_and_reorders() {
    let catalog = vec![eligible("b", 50.0), eligible("c", 4.0), eligible("a", 1.0)];
    let entries = score_fast(&filter(&catalog), inverse);
    let lines = render(&rank(&entries, None));
    assert_eq!(lines, vec!["a".to_string(), "c".to_string(), "b".to_string()]);
}

#[test]
fn empty_catalog_gives_empty_output() {
    let candidates = filter(&Vec::new());
    let outcomes = collect_outcomes(&candidates, &Vec::new()).unwrap();
    let entries = score_outcomes(&outcomes, weighted);
    let lines = render(&rank(&entries, Some(DEFAULT_MIN_RANK)));
    assert!(lines.is_empty());
    assert!(render(&rank(&score_fast(&candidates, inverse), None)).is_empty());
}

#[test]
fn render_gives_each_line_as_it_stands() {
    let entries = vec![
        RankedEntry { rendered_url: "Server = z".to_string(), rank: 0.1f64.to_bits() },
        RankedEntry { rendered_url: "".to_string(), rank: 0.9f64.to_bits() },
        RankedEntry { rendered_url: "plain".to_string(), rank: 0.5f64.to_bits() },
    ];
    assert_eq!(render(&entries), vec!["Server = z".to_string(), "".to_string(), "plain".to_string()]);
}

#[test]
fn probed_lines_leave_out_the_failed_probe() {
    let candidates = vec![eligible("x", 1.0), eligible("y", 1.0)];
    let outcomes = collect_outcomes(&candidates, &vec![Some(100u128), None]).unwrap();
    let lines = probed_lines(&outcomes, weighted, DEFAULT_MIN_RANK);
    assert_eq!(lines, vec!["Server = x$repo/os/$arch".to_string()]);
}

#[test]
fn probed_lines_order_by_rank_and_cut_at_the_threshold() {
    let candidates = vec![
        eligible("late", 1.0),
        eligible("quick", 1.0),
        eligible("gone", 0.1),
        eligible("dull", 30.0),
        eligible("fair", 2.0),
    ];
    let elapsed = vec![Some(4_000u128), Some(20u128), None, Some(45_000u128), Some(900u128)];
    let outcomes = collect_outcomes(&candidates, &elapsed).unwrap();
    let lines = probed_lines(&outcomes, weighted, DEFAULT_MIN_RANK);
    assert_eq!(
        lines,
        vec![
            "Server = quick$repo/os/$arch".to_string(),
            "Server = fair$repo/os/$arch".to_string(),
            "Server = late$repo/os/$arch".to_string(),
        ]
    );
}

#[test]
fn probed_lines_of_equal_ranks_keep_the_order_of_the_catalog() {
    let candidates = vec![eligible("p", 1.0), eligible("q", 1.0), eligible("r", 1.0)];
    let outcomes =
        collect_outcomes(&candidates, &vec![Some(10u128), Some(10u128), Some(10u128)]).unwrap();
    let lines = probed_lines(&outcomes, weighted, DEFAULT_MIN_RANK);
    assert_eq!(
        lines,
        vec![
            "Server = p$repo/os/$arch".to_string(),
            "Server = q$repo/os/$arch".to_string(),
            "Server = r$repo/os/$arch".to_string(),
        ]
    );
}

#[test]
fn fast_lines_rank_the_eligible_by_prior_score() {
    let mut catalog = vec![eligible("a", 1.0), eligible("b", 50.0)];
    let lines = fast_lines(&catalog, inverse).unwrap();
    assert_eq!(lines, vec!["a".to_string(), "b".to_string()]);

    catalog.reverse();
    let mut inactive = eligible("c", 0.5);
    inactive.is_active = false;
    catalog.push(inactive);
    let mut unscored = eligible("d", 0.5);
    unscored.prior_score = None;
    catalog.push(unscored);
    let lines = fast_lines(&catalog, inverse).unwrap();
    assert_eq!(lines, vec!["a".to_string(), "b".to_string()]);
}

#[test]
fn fast_lines_give_nothing_where_a_rank_is_no_number() {
    let catalog = vec![eligible("a", 1.0), eligible("b", f64::NAN)];
    assert!(fast_lines(&catalog, inverse).is_none());
    assert_eq!(fast_lines(&Vec::new(), inverse), Some(Vec::new()));
}

#[test]
fn outcomes_follow_the_candidates_whatever_finished_first() {
    let candidates: Vec<Candidate> =
        (0..8).map(|i| eligible(&format!("https://m{}/", i), i as f64)).collect();
    let latency: Vec<u128> = vec![800, 700, 600, 500, 400, 300, 200, 100];
    let mut finished: Vec<usize> = (0..8).collect();
    finished.sort_by_key(|&i| latency[i]);
    assert_eq!(finished, vec![7, 6, 5, 4, 3, 2, 1, 0]);
    let mut slots: Vec<Option<u128>> = vec![None; 8];
    for &i in finished.iter() {
        slots[i] = Some(latency[i]);
    }
    let outcomes = collect_outcomes(&candidates, &slots).unwrap();
    assert_eq!(outcomes.len(), 8);
    for i in 0..8 {
        assert_eq!(outcomes[i].candidate.base_url, format!("https://m{}/", i));
        assert_eq!(outcomes[i].elapsed_millis, Some(latency[i]));
    }
}
