use stoffbuch_gate::Exit;

#[test]
fn each_verdict_has_its_own_code() {
    assert_eq!(Exit::Clean.code(), 0);
    assert_eq!(Exit::Refused.code(), 1);
    assert_eq!(Exit::CouldNotJudge.code(), 2);
}
