use smrt::queries::sort_mc;

#[test]
fn mc_versions_sort_numerically() {
    let mut v = ["1.10.2", "1.7.10", "1.12.2", "1.16.5", "1.8.9"]
        .map(String::from)
        .to_vec();
    sort_mc(&mut v);
    assert_eq!(v, ["1.7.10", "1.8.9", "1.10.2", "1.12.2", "1.16.5"]);
}
