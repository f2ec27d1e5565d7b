use recipe_scaler::codec::decode;
use recipe_scaler::codec::encode;
use recipe_scaler::session::RecipeSession;

fn sample_session() -> RecipeSession {
    let mut s = RecipeSession::new();
    for (i, (name, amount, unit)) in
        [("Flour", "200", "g"), ("Sugar", "100", "g"), ("Milk", "2.5", "dl")].iter().enumerate()
    {
        s.add();
        s.set_name(i, String::from(*name)).unwrap();
        s.set_amount_text(i, String::from(*amount)).unwrap();
        s.set_unit(i, String::from(*unit)).unwrap();
    }
    s.set_selected(0).unwrap();
    s.set_editing(true);
    s.set_target_text(0, String::from("400")).unwrap();
    s.recompute();
    s
}

#[test]
fn round_trip_reproduces_session() {
    let s = sample_session();
    let stored = encode(&s);
    let r = decode(stored.as_str()).expect("a freshly encoded record must decode");
    assert_eq!(r.len(), s.len());
    for i in 0..s.len() {
        let a = s.get(i).unwrap();
        let b = r.get(i).unwrap();
        assert_eq!(a.name, b.name);
        assert_eq!(a.amount_text, b.amount_text);
        assert_eq!(a.unit, b.unit);
        assert_eq!(a.reference_target_text, b.reference_target_text);
        assert_eq!(a.scaled_amount_text, b.scaled_amount_text);
        assert_eq!(a.amount, b.amount);
    }
    assert_eq!(r.selected(), s.selected());
    assert_eq!(r.editing(), s.editing());
    assert_eq!(r.ratio(), s.ratio());
}

#[test]
fn round_trip_of_empty_session() {
    let s = RecipeSession::new();
    let stored = encode(&s);
    let r = decode(stored.as_str()).expect("an empty session encodes and decodes");
    assert_eq!(r.len(), 0);
    assert_eq!(r.selected(), None);
    assert!(!r.editing());
}

#[test]
fn decode_rejects_malformed_records() {
    assert!(decode("").is_none());
    assert!(decode("garbage").is_none());
    assert!(decode("1").is_none());
    let s = sample_session();
    let mut stored = encode(&s);
    stored.pop();
    assert!(decode(stored.as_str()).is_none());
}
