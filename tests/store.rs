use langdetect::compressor::{compressed_length, compressed_length_of_concat};
use langdetect::error::LangError;
use langdetect::store::{include_reference, select_references, Detector, LanguageDoc};

#[test]
fn empty_directory_has_no_references() {
    assert_eq!(Detector::from_documents(vec![], vec![]).err(), Some(LangError::NoReferenceFiles));
}

#[test]
fn store_from_documents_keeps_order() {
    let d = Detector::from_documents(
        vec!["en".to_string(), "fr".to_string()],
        vec![b"hello world".to_vec(), b"bonjour le monde".to_vec()],
    )
    .unwrap();
    assert_eq!(d.names, vec!["en".to_string(), "fr".to_string()]);
    assert_eq!(d.docs[1].data, b"bonjour le monde".to_vec());
    assert_eq!(d.docs[0].compressed_size, compressed_length(b"hello world"));
}

#[test]
fn adding_under_a_known_name_replaces() {
    let mut d = Detector::new();
    d.add_bytes(b"one", "x".to_string());
    d.add_bytes(b"two", "y".to_string());
    d.add_bytes(b"three", "x".to_string());
    assert_eq!(d.names, vec!["x".to_string(), "y".to_string()]);
    assert_eq!(d.docs[0].data, b"three".to_vec());
    assert_eq!(d.find(&"y".to_string()), Some(1));
    assert_eq!(d.find(&"z".to_string()), None);
}

#[test]
fn sparsity_and_overrides_select_files() {
    let names: Vec<String> = ["a", "b", "c", "d", "e", "f", "g"].iter().map(|s| s.to_string()).collect();
    let none: Vec<String> = vec![];
    assert_eq!(select_references(&names, 1, &String::new(), &none), vec![0, 1, 2, 3, 4, 5, 6]);
    assert_eq!(select_references(&names, 3, &String::new(), &none), vec![0, 3, 6]);
    assert_eq!(select_references(&names, 3, &"e".to_string(), &none), vec![0, 3, 4, 6]);
    let also = vec!["b".to_string(), "zz".to_string()];
    assert_eq!(select_references(&names, 30, &"f".to_string(), &also), vec![0, 1, 5]);
    assert!(include_reference(9, &"q".to_string(), 3, &String::new(), &none));
    assert!(!include_reference(10, &"q".to_string(), 3, &String::new(), &none));
}

#[test]
fn compressed_lengths_are_not_the_input_lengths() {
    let repeated = vec![b'a'; 1000];
    let c = compressed_length(&repeated);
    assert!(c >= 4 && c < 100);
    let doc = LanguageDoc::new(&repeated);
    assert_eq!(doc.compressed_size, c);
    let joined = compressed_length_of_concat(&repeated, &repeated);
    assert!(joined < 2 * c + 10);
    assert_eq!(compressed_length(b""), compressed_length_of_concat(b"", b""));
}

#[test]
fn mean_compressed_length_is_exact() {
    let mut d = Detector::new();
    assert_eq!(d.mean_compressed_length(), (0, 0));
    d.add_bytes(b"abcabcabc", "x".to_string());
    d.add_bytes(b"hello", "y".to_string());
    let expected = (compressed_length(b"abcabcabc") + compressed_length(b"hello")) as u64;
    assert_eq!(d.mean_compressed_length(), (expected, 2));
}

#[test]
fn oversized_references_are_skipped() {
    let big = vec![b'z'; langdetect::store::MAX_DOC_LEN + 1];
    let d = Detector::from_documents(vec!["big".to_string(), "small".to_string()], vec![big.clone(), b"tiny".to_vec()]).unwrap();
    assert_eq!(d.names, vec!["small".to_string()]);
    assert_eq!(Detector::from_documents(vec!["big".to_string()], vec![big]).err(), Some(LangError::NoReferenceFiles));
}
