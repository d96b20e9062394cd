use parity_scale_codec::Error;

#[test]
fn test_full_error() {
    let msg: &str = "root cause";

    let error = Error::from("root cause").chain("wrap cause").chain("final type");

    assert_eq!(error.to_string(), msg);

    assert_eq!(error.what(), msg);
}
