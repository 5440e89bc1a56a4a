use hanleng_nianchi::evidence::{default_evidence, EvidenceKind};
use hanleng_nianchi::fixtures::{seed_exchanges, seed_input, seed_markers, seed_segments, DEFAULT_DRAWS, DEFAULT_SEED};
use hanleng_nianchi::model::SOLVER_VERSION;

fn f(bits: u64) -> f64 {
    f64::from_bits(bits)
}

#[test]
fn fixture_segments() {
    let s = seed_segments();
    let ids: Vec<&str> = s.iter().map(|x| x.id.as_str()).collect();
    assert_eq!(ids, vec!["S1", "S2", "S3", "S4"]);
    assert_eq!((f(s[2].top), f(s[2].bottom)), (21.8, 22.4));
    assert!(!s[2].present);
    assert_eq!(s[2].gap_min_years.map(f), Some(30.0));
    assert_eq!(f(s[3].bottom), 30.0);
}

#[test]
fn fixture_markers() {
    let m = seed_markers();
    let ids: Vec<&str> = m.iter().map(|x| x.id.as_str()).collect();
    assert_eq!(ids, vec!["A0", "L9", "V15", "V20", "I24", "I28", "C25B"]);
    assert_eq!(m[1].alt_means.iter().map(|b| f(*b)).collect::<Vec<f64>>(), vec![43.0, 45.0, 47.0]);
    assert_eq!(m[2].exchange_group.as_deref(), Some("EX-V"));
    assert_eq!((f(m[5].lo), f(m[5].hi)), (180.0, 190.0));
    assert!(m[6].excluded && m[6].hard);
    assert_eq!((f(m[6].lo), f(m[6].hi)), (150.0, 165.0));
    assert_eq!(f(m[0].weight), 1000.0);
}

#[test]
fn fixture_input() {
    let inp = seed_input();
    assert_eq!(inp.seed, DEFAULT_SEED);
    assert_eq!(DEFAULT_SEED, 20260921);
    assert_eq!(inp.draws, DEFAULT_DRAWS);
    assert_eq!(DEFAULT_DRAWS, 400);
    assert_eq!(inp.solver_version, SOLVER_VERSION);
    let ex = seed_exchanges();
    assert_eq!(ex.len(), 1);
    assert_eq!(ex[0].group, "EX-V");
    assert!(!ex[0].swapped);
}

#[test]
fn acceptance_evidence() {
    let e = default_evidence();
    let ids: Vec<&str> = e.iter().map(|x| x.id.as_str()).collect();
    assert_eq!(ids, vec!["layer-A", "layer-C", "ash-1", "ash-2", "isotope-1", "hard-A", "hard-C", "gap-BC", "hard-X"]);
    assert_eq!(e[7].kind, EvidenceKind::Gap);
    assert_eq!(e[7].gap_end.map(f), Some(82.6));
    assert_eq!(e[1].start_depth.map(f), Some(82.6));
    assert_eq!((e[5].age_lo.map(f), e[5].age_hi.map(f)), (Some(300.0), Some(340.0)));
    assert!(!e[8].enabled);
    assert_eq!((e[8].age_lo.map(f), e[8].age_hi.map(f)), (Some(346.0), Some(380.0)));
    assert_eq!(f(e[3].depth), 35.0);
    assert_eq!(e[3].sigma.map(f), Some(22.0));
}
