use yaromchecker::sets::{sort_set_rows, SetRow, SetSortColumn, SetSortState, SortDirection};

fn sort_row(name: &str, status: &str, counts: [Option<usize>; 4]) -> SetRow {
    SetRow {
        name: name.to_owned(),
        status: status.to_owned(),
        counts,
    }
}

#[test]
fn set_sort_cycle_returns_to_original_order_and_new_column_starts_ascending() {
    let initial = SetSortState::default();
    let name_ascending = initial.cycle(SetSortColumn::Name);
    assert_eq!(
        name_ascending,
        SetSortState(Some((SetSortColumn::Name, SortDirection::Ascending)))
    );
    let name_descending = name_ascending.cycle(SetSortColumn::Name);
    assert_eq!(
        name_descending,
        SetSortState(Some((SetSortColumn::Name, SortDirection::Descending)))
    );
    assert_eq!(
        name_descending.cycle(SetSortColumn::Name),
        SetSortState::default()
    );
    assert_eq!(
        name_descending.cycle(SetSortColumn::Status),
        SetSortState(Some((SetSortColumn::Status, SortDirection::Ascending)))
    );
}

#[test]
fn set_sort_helper_sorts_text_and_all_numeric_columns() {
    let original = vec![
        sort_row("beta", "Incomplete", [Some(2), Some(0), Some(4), Some(1)]),
        sort_row("Alpha", "Complete", [Some(1), Some(3), Some(0), Some(5)]),
        sort_row("alpha", "Not verified", [None, None, None, None]),
    ];

    for (column, expected) in [
        (SetSortColumn::Name, vec!["Alpha", "alpha", "beta"]),
        (SetSortColumn::Status, vec!["Alpha", "beta", "alpha"]),
        (SetSortColumn::Present, vec!["alpha", "Alpha", "beta"]),
        (SetSortColumn::Missing, vec!["alpha", "beta", "Alpha"]),
        (
            SetSortColumn::MissingInArchive,
            vec!["alpha", "Alpha", "beta"],
        ),
        (SetSortColumn::NoDump, vec!["alpha", "beta", "Alpha"]),
    ] {
        let mut rows = original.clone();
        sort_set_rows(
            &mut rows,
            SetSortState(Some((column, SortDirection::Ascending))),
        );
        assert_eq!(
            rows.iter().map(|row| row.name.as_str()).collect::<Vec<_>>(),
            expected
        );
    }
}

#[test]
fn set_sort_helper_descends_and_unsorted_preserves_input_exactly() {
    let original = vec![
        sort_row("first", "Same", [Some(1); 4]),
        sort_row("second", "Same", [Some(3); 4]),
        sort_row("third", "Same", [Some(2); 4]),
    ];
    let mut rows = original.clone();
    sort_set_rows(
        &mut rows,
        SetSortState(Some((SetSortColumn::Present, SortDirection::Descending))),
    );
    assert_eq!(
        rows.iter().map(|row| row.name.as_str()).collect::<Vec<_>>(),
        vec!["second", "third", "first"]
    );

    let mut unsorted = original.clone();
    sort_set_rows(&mut unsorted, SetSortState::default());
    assert_eq!(unsorted, original);
}

#[test]
fn set_sort_is_stable_for_equal_keys_in_both_directions() {
    let original = vec![
        sort_row("a", "Same", [Some(1); 4]),
        sort_row("b", "Same", [Some(1); 4]),
        sort_row("c", "Other", [Some(1); 4]),
    ];
    let mut ascending = original.clone();
    sort_set_rows(
        &mut ascending,
        SetSortState(Some((SetSortColumn::Status, SortDirection::Ascending))),
    );
    assert_eq!(
        ascending.iter().map(|row| row.name.as_str()).collect::<Vec<_>>(),
        vec!["c", "a", "b"]
    );
    let mut descending = original.clone();
    sort_set_rows(
        &mut descending,
        SetSortState(Some((SetSortColumn::Status, SortDirection::Descending))),
    );
    assert_eq!(
        descending.iter().map(|row| row.name.as_str()).collect::<Vec<_>>(),
        vec!["a", "b", "c"]
    );
}

#[test]
fn three_clicks_on_one_column_restore_the_unsorted_state() {
    let state = SetSortState::default()
        .cycle(SetSortColumn::NoDump)
        .cycle(SetSortColumn::NoDump)
        .cycle(SetSortColumn::NoDump);
    assert_eq!(state, SetSortState::default());
}
