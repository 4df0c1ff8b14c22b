use bruteforce::credentials::Credentials;

#[test]
fn compute_hash() {
    const HASH: i32 = -1608160232;

    let credential = Credentials::new(b"foo", b"bar");

    assert!(credential.verify(HASH));
}

#[test]
fn hash_exact_values() {
    assert_eq!(Credentials::new(b"foo", b"bar").hash(), -1608160232);
    assert_eq!(Credentials::new(b"", b"").hash(), -526077693);
    assert_eq!(Credentials::new(b"a", b"a").hash(), 595216619);
    assert_eq!(Credentials::new(b"admin", b"hunter2").hash(), -1517120242);
    assert_eq!(Credentials::new(b"4hyk", b"4yk").hash(), 1315459805);
}

#[test]
fn hash_is_deterministic() {
    let first = Credentials::new(b"admin", b"hunter2").hash();
    let second = Credentials::new(b"admin", b"hunter2").hash();
    assert_eq!(first, second);
}

#[test]
fn verify_rejects_other_hashes() {
    let credential = Credentials::new(b"foo", b"bar");
    assert!(!credential.verify(1608160232));
    assert!(!credential.verify(0));
    assert!(!Credentials::new(b"bar", b"foo").verify(-1608160232));
}
