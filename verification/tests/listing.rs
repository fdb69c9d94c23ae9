use short_pwd::listing::dir_entries;

fn listed(items: Vec<Option<&str>>) -> Result<Vec<Option<String>>, String> {
    Ok(items.into_iter().map(|item| item.map(|name| name.to_string())).collect())
}

fn names(items: &[&str]) -> Vec<String> {
    items.iter().map(|s| s.to_string()).collect()
}

#[test]
fn names_are_kept_in_order() {
    let read = listed(vec![Some("b"), Some("a"), Some("c")]);
    assert_eq!(dir_entries(read), Ok(names(&["b", "a", "c"])));
}

#[test]
fn entries_without_a_name_are_passed_over() {
    let read = listed(vec![None, Some("src"), None, None, Some("target"), None]);
    assert_eq!(dir_entries(read), Ok(names(&["src", "target"])));
}

#[test]
fn empty_directory_has_no_names() {
    assert_eq!(dir_entries(listed(vec![])), Ok(names(&[])));
    assert_eq!(dir_entries(listed(vec![None, None])), Ok(names(&[])));
}

#[test]
fn repeated_names_are_all_kept() {
    let read = listed(vec![Some("x"), Some("x")]);
    assert_eq!(dir_entries(read), Ok(names(&["x", "x"])));
}

#[test]
fn unreadable_directory_hands_its_error_on() {
    let read: Result<Vec<Option<String>>, String> = Err("permission denied".to_string());
    assert_eq!(dir_entries(read), Err("permission denied".to_string()));
    let read: Result<Vec<Option<String>>, u32> = Err(13);
    assert_eq!(dir_entries(read), Err(13));
}
