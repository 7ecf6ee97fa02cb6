use pcbforge::model::P;

#[test]
fn i64_headroom_at_one_meter() {
    let p = P::new(1_000_000_000, -1_000_000_000); // one meter either way
    assert_eq!(p.x.checked_mul(4), Some(4_000_000_000)); // room to spare
    let _ = p;
}
