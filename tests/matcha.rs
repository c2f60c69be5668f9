use langdetect::keyval::KeyVal;
use langdetect::matcha::{Checker, Matcha};

#[test]
fn it_works() {
    let result = 2 + 2;
    assert_eq!(result, 4);
}

fn chars(s: &str) -> Vec<char> {
    s.chars().collect()
}

fn colour_pattern() -> Matcha {
    let mut m = Matcha::new();
    m.add(Checker::Literal(chars("My favourite colour is #")), None);
    m.add(Checker::Anything, Some("color".to_string()));
    m.add(Checker::Literal(chars(" and I am ")), None);
    m.add(Checker::Anything, Some("age".to_string()));
    m.add(Checker::Literal(chars(" years old.")), None);
    m
}

#[test]
fn pattern_matches_whole_text() {
    let m = colour_pattern();
    let text = chars("My favourite colour is #00ffee and I am 192 years old.");
    assert!(m.is_match(&text));
    let bounds = m.try_match(&text).unwrap();
    assert_eq!(bounds.len(), 6);
    let colour: String = text[bounds[1]..bounds[2]].iter().collect();
    let age: String = text[bounds[3]..bounds[4]].iter().collect();
    assert_eq!(colour, "00ffee");
    assert_eq!(age, "192");
}

#[test]
fn pattern_rejects_other_text() {
    let m = colour_pattern();
    assert!(!m.is_match(&chars("My favourite colour is red.")));
    assert_eq!(m.try_match(&chars("I am 3 years old.")), None);
    let empty = Matcha::new();
    assert!(empty.is_match(&[]));
    assert!(!empty.is_match(&chars("x")));
}

#[test]
fn keyval_checks_values() {
    let mut guarded = KeyVal::new_with_blank(Some(|v: &u32| *v < 8));
    assert!(guarded.val.is_none());
    assert_eq!(guarded.set(3), Ok(3));
    assert_eq!(guarded.set(9), Err("Invalid value".to_string()));
    let mut open: KeyVal<String, fn(&String) -> bool> = KeyVal::new_with_defaults("bob".to_string(), None);
    assert_eq!(open.val.as_deref(), Some("bob"));
    assert_eq!(open.set("alice".to_string()), Ok("alice".to_string()));
}
