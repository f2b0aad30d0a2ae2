//! Tests of the directory stack.

use navigate::stack::Stack;

fn strings(items: &[&str]) -> Vec<String> {
    items.iter().map(|s| s.to_string()).collect()
}

#[test]
fn push_and_pop_single_entries() {
    let mut st = Stack::new(42, Vec::new());
    assert_eq!(st.process_id(), 42);
    assert_eq!(st.len(), 0);
    st.push_entry("/a".to_string());
    st.push_entry("/b".to_string());
    assert_eq!(st.entries().len(), 2);
    let popped = st.pop_entry(None).unwrap();
    assert_eq!(popped, "/b");
    assert_eq!(st.len(), 1);
}

#[test]
fn pop_on_empty_stack_is_an_error() {
    let mut st = Stack::new(1, Vec::new());
    let err = st.pop_entry(None).unwrap_err();
    assert!(err.contains("might be empty"));
}

#[test]
fn pop_many_returns_oldest_popped_entry() {
    let mut st = Stack::new(1, strings(&["/a", "/b", "/c", "/d"]));
    // popping two entries returns the older of the two
    let popped = st.pop_entry(Some(2)).unwrap();
    assert_eq!(popped, "/c");
    assert_eq!(st.entries(), &strings(&["/a", "/b"]));
}

#[test]
fn pop_zero_or_too_many_pops_everything() {
    let mut st = Stack::new(1, strings(&["/a", "/b", "/c"]));
    let popped = st.pop_entry(Some(0)).unwrap();
    assert_eq!(popped, "/a");
    assert_eq!(st.len(), 0);

    let mut st = Stack::new(1, strings(&["/a", "/b"]));
    let popped = st.pop_entry(Some(10)).unwrap();
    assert_eq!(popped, "/a");
    assert_eq!(st.len(), 0);
}

#[test]
fn get_entry_by_number_counts_from_the_top() {
    let st = Stack::new(1, strings(&["/a", "/b", "/c"]));
    assert_eq!(st.get_entry_by_number(0).unwrap(), "/c");
    assert_eq!(st.get_entry_by_number(2).unwrap(), "/a");
    let err = st.get_entry_by_number(3).unwrap_err();
    assert!(err.contains("requested item (3) out of bounds (stack.len() = 3)"));
}

#[test]
fn rotate_stack_moves_chosen_entry_on_top() {
    let mut st = Stack::new(1, strings(&["/a", "/b", "/c", "/d"]));
    st.rotate_stack(0).unwrap();
    assert_eq!(st.entries(), &strings(&["/a", "/b", "/c", "/d"]));
    st.rotate_stack(2).unwrap();
    assert_eq!(st.entries(), &strings(&["/c", "/d", "/a", "/b"]));
    let err = st.rotate_stack(4).unwrap_err();
    assert!(err.contains("greater than the stacks length"));
}

#[test]
fn cleanup_stack_keeps_flagged_entries() {
    let mut st = Stack::new(1, strings(&["/a", "/b", "/c"]));
    st.cleanup_stack(&vec![true, false, true]);
    assert_eq!(st.entries(), &strings(&["/a", "/c"]));
}

#[test]
fn dedup_stack_keeps_newest_occurrences() {
    let mut st = Stack::new(1, strings(&["/a", "/b", "/a", "/c", "/b"]));
    st.dedup_stack();
    assert_eq!(st.entries(), &strings(&["/a", "/c", "/b"]));
}
