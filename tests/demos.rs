use ledger::objects::{ObjA, ObjB, EA, EB};
use ledger::sensitive::{pad_to_align, SensitiveData};
use ledger::users::User;

#[test]
fn objects_own_each_other_in_turn() {
    let b = ObjB { x: EA::Empty };
    let a = ObjA::set_x(b);
    let bb = ObjB::set_x(a);
    match bb.x {
        EA::MyBox { val } => match val.x {
            EB::MyBox { val: inner } => assert!(matches!(inner.x, EA::Empty)),
            EB::Empty => panic!("inner object missing"),
        },
        EA::Empty => panic!("outer object missing"),
    }
}

#[test]
fn pad_to_align_copies_and_zero_fills() {
    let r = pad_to_align(&[1, 2, 3]);
    assert_eq!(&r[..3], &[1, 2, 3]);
    assert!(r[3..].iter().all(|b| *b == 0));
    assert_eq!(pad_to_align(&[]), [0u8; 64]);
    assert_eq!(pad_to_align(&[9u8; 64]), [9u8; 64]);
}

#[test]
fn sensitive_data_holds_then_wipes_secret() {
    let mut d = SensitiveData::new();
    let text = b"Sensitive information: secret_key=ABC123!\0";
    let bytes = d.contents();
    assert_eq!(bytes.len(), 64);
    assert_eq!(&bytes[..text.len()], &text[..]);
    assert!(bytes[text.len()..].iter().all(|b| *b == 0));
    d.zeroize();
    assert_eq!(d.contents(), vec![0u8; 64]);
}

#[test]
fn user_fields_are_public() {
    let u = User { id: 1, name: String::from("Alice"), age: 24 };
    assert_eq!((u.id, u.name.as_str(), u.age), (1, "Alice", 24));
}
