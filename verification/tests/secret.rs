use tempkeys::secret::Secret;

#[test]
fn wiping_overwrites_every_byte() {
    let mut s = Secret(vec![1, 2, 255]);
    s.wipe();
    assert_eq!(s.0, vec![0, 0, 0]);
}
