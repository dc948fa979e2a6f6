use speakhuman::lists::natural_list;

#[test]
fn test_natural_list_three() {
    let items = vec!["one".to_string(), "two".to_string(), "three".to_string()];
    assert_eq!(natural_list(&items), "one, two and three");
}

#[test]
fn test_natural_list_two() {
    let items = vec!["one".to_string(), "two".to_string()];
    assert_eq!(natural_list(&items), "one and two");
}

#[test]
fn test_natural_list_one() {
    let items = vec!["one".to_string()];
    assert_eq!(natural_list(&items), "one");
}

#[test]
fn test_natural_list_numbers() {
    let items = vec![1.to_string(), 2.to_string(), 3.to_string()];
    assert_eq!(natural_list(&items), "1, 2 and 3");
}

#[test]
fn test_natural_list_empty_string() {
    let items = vec!["".to_string()];
    assert_eq!(natural_list(&items), "");
}

#[test]
fn test_natural_list_empty() {
    let items: Vec<String> = vec![];
    assert_eq!(natural_list(&items), "");
}
