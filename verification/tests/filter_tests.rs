use mirrors::candidate::{filter, Candidate};

fn candidate(url: &str, protocol: &str, score: Option<f64>, ipv4: bool, active: bool) -> Candidate {
    Candidate {
        base_url: url.to_string(),
        transport_protocol: protocol.to_string(),
        prior_score: score.map(|s| s.to_bits()),
        supports_ipv4: ipv4,
        is_active: active,
    }
}

fn urls(candidates: &Vec<Candidate>) -> Vec<String> {
    candidates.iter().map(|c| c.base_url.clone()).collect()
}

#[test]
fn filter_keeps_only_eligible_in_order() {
    let catalog = vec![
        candidate("https://one/", "https", Some(1.5), true, true),
        candidate("http://two/", "http", Some(1.0), true, true),
        candidate("https://three/", "https", Some(0.2), false, true),
        candidate("https://four/", "https", Some(0.3), true, false),
        candidate("https://five/", "https", None, true, true),
        candidate("rsync://six/", "rsync", Some(0.1), true, true),
        candidate("https://seven/", "https", Some(0.0), true, true),
    ];
    let kept = filter(&catalog);
    assert_eq!(urls(&kept), vec!["https://one/".to_string(), "https://seven/".to_string()]);
    assert_eq!(kept[0].prior_score, Some(1.5f64.to_bits()));
    assert_eq!(kept[1].prior_score, Some(0.0f64.to_bits()));
    assert!(kept.iter().all(|c| c.is_eligible()));
}

#[test]
fn filter_of_empty_catalog_is_empty() {
    let kept = filter(&Vec::new());
    assert!(kept.is_empty());
}

#[test]
fn filter_may_keep_nothing() {
    let catalog = vec![
        candidate("http://a/", "http", Some(1.0), true, true),
        candidate("https://b/", "https", None, true, true),
    ];
    assert!(filter(&catalog).is_empty());
}

#[test]
fn filter_twice_is_filter_once() {
    let catalog = vec![
        candidate("https://a/", "https", Some(2.0), true, true),
        candidate("https://b/", "HTTPS", Some(2.0), true, true),
        candidate("https://c/", "https", Some(3.0), true, true),
        candidate("https://d/", "https", Some(3.0), false, false),
    ];
    let once = filter(&catalog);
    let twice = filter(&once);
    assert_eq!(urls(&once), vec!["https://a/".to_string(), "https://c/".to_string()]);
    assert_eq!(urls(&twice), urls(&once));
}

#[test]
fn eligibility_needs_all_four_parts() {
    assert!(candidate("u", "https", Some(1.0), true, true).is_eligible());
    assert!(!candidate("u", "http", Some(1.0), true, true).is_eligible());
    assert!(!candidate("u", "https", None, true, true).is_eligible());
    assert!(!candidate("u", "https", Some(1.0), false, true).is_eligible());
    assert!(!candidate("u", "https", Some(1.0), true, false).is_eligible());
    assert!(!candidate("u", "", Some(1.0), true, true).is_eligible());
}

#[test]
fn duplicate_copies_every_field() {
    let c = candidate("https://m/", "https", Some(4.25), true, false);
    let d = c.duplicate();
    assert_eq!(d.base_url, "https://m/");
    assert_eq!(d.transport_protocol, "https");
    assert_eq!(d.prior_score, Some(4.25f64.to_bits()));
    assert!(d.supports_ipv4);
    assert!(!d.is_active);
}
