use command_history::data_frame_names::{
    label_width, number_label, number_width, DataFrameNames, DataFrameNamesState, TableSelection,
};

#[test]
fn number_width_counts_decimal_digits() {
    assert_eq!(number_width(0), 1);
    assert_eq!(number_width(1), 1);
    assert_eq!(number_width(9), 1);
    assert_eq!(number_width(10), 2);
    assert_eq!(number_width(99), 2);
    assert_eq!(number_width(100), 3);
    assert_eq!(number_width(12_345), 5);
    assert_eq!(number_width(usize::MAX), usize::MAX.to_string().len());
}

#[test]
fn number_width_agrees_with_the_printed_number() {
    for count in 0..2_000usize {
        assert_eq!(number_width(count), count.to_string().len());
    }
}

#[test]
fn label_width_leaves_room_for_the_leading_space() {
    assert_eq!(label_width(0), 2);
    assert_eq!(label_width(7), 2);
    assert_eq!(label_width(10), 3);
    assert_eq!(label_width(1_000), 5);
}

#[test]
fn number_label_aligns_to_the_right() {
    assert_eq!(number_label(1, 1), " 1");
    assert_eq!(number_label(1, 2), "  1");
    assert_eq!(number_label(10, 2), " 10");
    assert_eq!(number_label(7, 4), "    7");
    assert_eq!(number_label(1_234, 4), " 1234");
}

#[test]
fn number_label_never_cuts_a_number() {
    assert_eq!(number_label(123, 2), " 123");
    assert_eq!(number_label(123, 0), " 123");
    assert_eq!(number_label(0, 0), " 0");
    assert_eq!(number_label(usize::MAX, 3), format!(" {}", usize::MAX));
}

#[test]
fn number_label_agrees_with_formatting() {
    for width in 0..6usize {
        for position in 0..1_200usize {
            assert_eq!(
                number_label(position, width),
                format!(" {:>width$}", position, width = width)
            );
        }
    }
}

#[test]
fn labels_of_one_list_have_one_length() {
    for count in [1usize, 9, 10, 11, 99, 100, 250] {
        let width = number_width(count);
        for position in 1..=count {
            assert_eq!(number_label(position, width).len(), usize::from(label_width(count)));
        }
    }
}

#[test]
fn new_list_holds_its_names() {
    let list = DataFrameNames::new(vec!["orders", "customers"]);
    assert_eq!(list.into_names(), vec!["orders", "customers"]);
}

#[test]
fn default_state_selects_the_first_row() {
    let state = DataFrameNamesState::default();
    assert_eq!(state.table().offset, 0);
    assert_eq!(state.table().selected, Some(0));
    assert_eq!(state.table().selected_column, None);
}

#[test]
fn table_mut_changes_the_state_in_place() {
    let mut state = DataFrameNamesState::default();
    state.table_mut().selected = Some(4);
    state.table_mut().offset = 2;
    let TableSelection { offset, selected, selected_column } = state.table();
    assert_eq!(*offset, 2);
    assert_eq!(*selected, Some(4));
    assert_eq!(*selected_column, None);
}
