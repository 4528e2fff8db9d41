use go_sgf::batcher::assemble;
use go_sgf::dataset::GoItem;

fn item(window: &[u8]) -> GoItem {
    let mut record = b"01234".to_vec();
    record.extend_from_slice(window);
    GoItem { __key__: String::from("key"), __url__: String::from("url"), board: record }
}

#[test]
fn output_count_is_one_class_per_cell() {
    assert_eq!(GoItem::output_count(), 81);
}

#[test]
fn batch_drops_failures_and_keeps_alignment() {
    let items = vec![
        item(b"B[aa"),             // parses: target (0,0) -> 0
        item(b";;;;"),             // fails: no move
        item(b"W[ee"),             // parses: target (4,4) -> 40
        item(b"B[ka"),             // fails: coordinate off the board
        item(&[0xff, 0xff, 0xff, 0xff]), // fails: not text
        item(b"B[ii"),             // parses: target (8,8) -> 80
    ];
    let (boards, targets) = assemble(&items);
    assert_eq!(boards.len(), 3);
    assert_eq!(targets, vec![0, 40, 80]);
    for board in &boards {
        assert_eq!(board.len(), 81);
        assert!(board.iter().all(|stone| *stone == 0));
    }
}

#[test]
fn batch_of_failures_is_empty() {
    let items = vec![item(b";;;;"), item(b"x]yz")];
    let (boards, targets) = assemble(&items);
    assert!(boards.is_empty());
    assert!(targets.is_empty());
}

#[test]
fn empty_batch_is_empty() {
    let (boards, targets) = assemble(&vec![]);
    assert!(boards.is_empty());
    assert!(targets.is_empty());
}

#[test]
fn batch_keeps_each_record_with_its_own_target() {
    // A short record that fails sits between two that parse to different
    // targets; the survivors keep their order and their own targets.
    let mut items = vec![item(b"W[bc")];
    items.push(GoItem { __key__: String::new(), __url__: String::new(), board: vec![1, 2, 3] });
    items.push(item(b"B[hi"));
    let (boards, targets) = assemble(&items);
    assert_eq!(boards.len(), 2);
    assert_eq!(targets[0], 1 * 9 + 2);
    assert_eq!(targets[1], 7 * 9 + 8);
}
