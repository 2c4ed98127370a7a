use topple::save::SaveData;

#[test]
fn round_trips() {
    let s = SaveData { solved: 0b1011, strict: true, level: 4 };
    assert_eq!(SaveData::from_bytes(&s.to_bytes()), Some(s));
    assert_eq!(SaveData::from_bytes(b"nope"), None);
}
