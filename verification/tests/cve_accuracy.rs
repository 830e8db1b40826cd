// The accuracy runs need live services; without them only this notice runs.
#[test]
fn cve_accuracy_requires_fingerprint_feature() {
    println!("SKIP: cve_accuracy tests require 'fingerprint' feature");
}
