use hanleng_nianchi::rng::{fnv1a, splitmix, Rng};

#[test]
fn deterministic_streams() {
    let a = Rng::derived(42, "edge-1").next_u64();
    let b = Rng::derived(42, "edge-1").next_u64();
    let c = Rng::derived(42, "edge-2").next_u64();
    assert_eq!(a, b);
    assert_ne!(a, c);
}

#[test]
fn hash_and_finaliser_values() {
    assert_eq!(fnv1a(""), 0xcbf29ce484222325);
    assert_eq!(fnv1a("edge-1"), 0xf1d7a8b4352bc316);
    assert_eq!(splitmix(0), 0xe220a8397b1dcdaf);
}

#[test]
fn stream_values_are_reproducible() {
    let mut r = Rng::derived(42, "edge-1");
    assert_eq!(r.next_u64(), 10012934285929097059);
    assert_eq!(r.next_u64(), 15584371659992572263);
    assert_eq!(r.next_u64(), 6704215917934115784);
    let mut other = Rng::derived(42, "edge-2");
    assert_eq!(other.next_u64(), 17560778956838155297);
    let mut marker = Rng::derived(20260921, "V15:0:v3");
    assert_eq!(marker.next_u64(), 3868428249875188307);
    assert_eq!(marker.next_u64(), 16791828757942385805);
}
