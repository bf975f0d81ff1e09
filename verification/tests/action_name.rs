use find_duplicates::action_name::ActionName;

#[test]
fn test_action_name() {
    let select_wildcard: ActionName = ActionName("win.select_wildcard", 4);
    assert_eq!(select_wildcard.full(), "win.select_wildcard");
    assert_eq!(select_wildcard.local(), "select_wildcard");
}
