use mywubi::VERSION;

#[test]
fn version_is_set() {
    let _ = VERSION;
    assert!(!VERSION.is_empty());
}
