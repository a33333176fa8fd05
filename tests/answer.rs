use dns_codec::Answer;

#[test]
pub fn serialize_de() {
    let ans = Answer::from_domain_name("hello.world.io");
    let ser = ans.clone().serialize();
    let (de, _) = Answer::deserialize(&ser, 0).unwrap();
    assert_eq!(ans, de);
}
