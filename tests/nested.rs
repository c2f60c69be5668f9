use std::collections::HashMap;

#[test]
fn lib_test() {
    let even_numbers = false;
    let special_num = 4;
    let mut inner: HashMap<i32, Vec<i32>> = HashMap::new();
    inner.insert(special_num, if even_numbers { vec![0, 2, 4, 6, 8] } else { vec![1, 3, 5, 7] });
    let mut middle: HashMap<&str, HashMap<i32, Vec<i32>>> = HashMap::new();
    middle.insert("b", inner);
    let mut map: HashMap<&str, HashMap<&str, HashMap<i32, Vec<i32>>>> = HashMap::new();
    map.insert("a", middle);
    let result = map.get("a").and_then(|m| m.get("b")).and_then(|m| m.get(&special_num));
    assert_eq!(result, Some(&vec![1, 3, 5, 7]));
}
