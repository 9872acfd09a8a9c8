use ugit::base;
use ugit::data::hash_object;
use ugit::diff::{compare_trees, diff_blobs, diff_trees, get_changed_files, Change};
use ugit::error::Error;
use ugit::text::{
    decimal_digits, diff_text, edit_script, join_lines, lines_eq, merge_lines, report,
    split_pieces, Op,
};

fn lines(text: &[&[u8]]) -> Vec<Vec<u8>> {
    text.iter().map(|line| line.to_vec()).collect()
}

#[test]
fn pieces_keep_their_line_feeds() {
    assert_eq!(split_pieces(b"a\nb\n"), lines(&[b"a\n", b"b\n"]));
    assert_eq!(split_pieces(b"a\nb"), lines(&[b"a\n", b"b"]));
    assert_eq!(split_pieces(b"\n\n"), lines(&[b"\n", b"\n"]));
    assert_eq!(split_pieces(b""), Vec::<Vec<u8>>::new());
    assert_eq!(join_lines(&split_pieces(b"x\n\ny\nz")), b"x\n\ny\nz".to_vec());
}

#[test]
fn edit_script_keeps_deletes_and_inserts() {
    let a = lines(&[b"a\n", b"b\n", b"c\n"]);
    let b = lines(&[b"a\n", b"x\n", b"c\n"]);
    assert_eq!(edit_script(&a, &b), vec![Op::Keep, Op::Delete, Op::Insert, Op::Keep]);
    assert_eq!(edit_script(&a, &a), vec![Op::Keep, Op::Keep, Op::Keep]);
    assert_eq!(edit_script(&a, &vec![]), vec![Op::Delete, Op::Delete, Op::Delete]);
    assert_eq!(edit_script(&vec![], &b), vec![Op::Insert, Op::Insert, Op::Insert]);
    assert_eq!(edit_script(&vec![], &vec![]), Vec::<Op>::new());
}

#[test]
fn edit_script_keeps_a_longest_common_part() {
    let a = lines(&[b"1", b"2", b"3", b"4", b"5"]);
    let b = lines(&[b"0", b"2", b"4", b"5", b"6"]);
    let ops = edit_script(&a, &b);
    assert_eq!(ops.iter().filter(|op| **op == Op::Keep).count(), 3);
    assert_eq!(ops.iter().filter(|op| **op != Op::Insert).count(), 5);
    assert_eq!(ops.iter().filter(|op| **op != Op::Delete).count(), 5);
}

#[test]
fn numbers_in_decimal() {
    assert_eq!(decimal_digits(0), b"0".to_vec());
    assert_eq!(decimal_digits(7), b"7".to_vec());
    assert_eq!(decimal_digits(10), b"10".to_vec());
    assert_eq!(decimal_digits(1234567890), b"1234567890".to_vec());
}

#[test]
fn unified_report_of_a_changed_line() {
    let text = diff_text(b"f.txt", b"a\nb\nc\n", b"a\nx\nc\n");
    assert_eq!(text, b"--- a/f.txt\n+++ b/f.txt\n@@ -1,3 +1,3 @@\n a\n-b\n+x\n c\n".to_vec());
}

#[test]
fn unified_report_of_added_and_removed_files() {
    let added = diff_text(b"new", b"", b"one\ntwo\n");
    assert_eq!(added, b"--- a/new\n+++ b/new\n@@ -0,0 +1,2 @@\n+one\n+two\n".to_vec());
    let removed = diff_text(b"old", b"gone", b"");
    assert_eq!(removed, b"--- a/old\n+++ b/old\n@@ -1,1 +0,0 @@\n-gone\n".to_vec());
}

#[test]
fn unified_report_is_empty_without_a_change() {
    assert_eq!(diff_text(b"same", b"a\nb\n", b"a\nb\n"), Vec::<u8>::new());
    assert_eq!(diff_text(b"same", b"", b""), Vec::<u8>::new());
    let a = lines(&[b"a\n"]);
    assert_eq!(report(b"same", &a, &a), Vec::<u8>::new());
}

#[test]
fn missing_final_line_feed_is_a_change() {
    let text = diff_text(b"f", b"a\nb", b"a\nb\n");
    assert_eq!(text, b"--- a/f\n+++ b/f\n@@ -1,2 +1,2 @@\n a\n-b\n+b\n".to_vec());
}

#[test]
fn lists_of_lines_compare_by_content() {
    assert!(lines_eq(&lines(&[b"a", b"b"]), &lines(&[b"a", b"b"])));
    assert!(!lines_eq(&lines(&[b"a", b"b"]), &lines(&[b"a", b"c"])));
    assert!(!lines_eq(&lines(&[b"a"]), &lines(&[b"a", b"b"])));
    assert!(lines_eq(&vec![], &vec![]));
}

#[test]
fn merged_lines_of_three_lists() {
    let base = lines(&[b"a\n", b"b\n"]);
    let head = lines(&[b"a\n", b"b\n", b"c\n"]);
    let other = lines(&[b"b\n"]);
    assert_eq!(merge_lines(&base, &head, &other), lines(&[b"b\n", b"c\n"]));
}

#[test]
fn trees_side_by_side() {
    let first = vec![(b"1".to_vec(), b"a".to_vec()), (b"2".to_vec(), b"b".to_vec())];
    let second = vec![(b"3".to_vec(), b"c".to_vec()), (b"4".to_vec(), b"a".to_vec())];
    let third: Vec<(Vec<u8>, Vec<u8>)> = vec![];
    let rows = compare_trees(&vec![&first, &second, &third]);
    assert_eq!(
        rows,
        vec![
            (b"a".to_vec(), vec![Some(b"1".to_vec()), Some(b"4".to_vec()), None]),
            (b"b".to_vec(), vec![Some(b"2".to_vec()), None, None]),
            (b"c".to_vec(), vec![None, Some(b"3".to_vec()), None]),
        ]
    );
    assert!(compare_trees(&vec![]).is_empty());
}

#[test]
fn later_entry_of_a_path_counts() {
    let tree = vec![(b"1".to_vec(), b"a".to_vec()), (b"2".to_vec(), b"a".to_vec())];
    let rows = compare_trees(&vec![&tree]);
    assert_eq!(rows, vec![(b"a".to_vec(), vec![Some(b"2".to_vec())])]);
}

#[test]
fn changed_files_are_added_deleted_or_modified() {
    let from = vec![
        (b"1".to_vec(), b"same".to_vec()),
        (b"2".to_vec(), b"changed".to_vec()),
        (b"3".to_vec(), b"removed".to_vec()),
    ];
    let to = vec![
        (b"1".to_vec(), b"same".to_vec()),
        (b"9".to_vec(), b"changed".to_vec()),
        (b"4".to_vec(), b"fresh".to_vec()),
    ];
    let changes = get_changed_files(&from, &to);
    assert_eq!(
        changes,
        vec![
            (b"changed".to_vec(), Change::Modified),
            (b"removed".to_vec(), Change::Deleted),
            (b"fresh".to_vec(), Change::Added),
        ]
    );
    assert_eq!(Change::Added.label(), "new file");
    assert_eq!(Change::Deleted.label(), "deleted");
    assert_eq!(Change::Modified.label(), "modified");
    assert!(get_changed_files(&from, &from).is_empty());
}

#[test]
fn blobs_are_compared_as_text() {
    let mut repo = base::init();
    let from = hash_object(&mut repo, b"a\nb\n", b"blob");
    let to = hash_object(&mut repo, b"a\n", b"blob");
    let text = diff_blobs(&repo, &Some(from.clone()), &Some(to), b"dir/f").unwrap();
    assert_eq!(text, b"--- a/dir/f\n+++ b/dir/f\n@@ -1,2 +1,1 @@\n a\n-b\n".to_vec());
    let created = diff_blobs(&repo, &None, &Some(from.clone()), b"f").unwrap();
    assert_eq!(created, b"--- a/f\n+++ b/f\n@@ -0,0 +1,2 @@\n+a\n+b\n".to_vec());
    assert_eq!(
        diff_blobs(&repo, &Some(b"absent".to_vec()), &Some(from), b"f").unwrap_err(),
        Error::ObjectNotFound
    );
}

#[test]
fn trees_are_compared_file_by_file() {
    let mut repo = base::init();
    let one = hash_object(&mut repo, b"one\n", b"blob");
    let two = hash_object(&mut repo, b"two\n", b"blob");
    let from = vec![(one.clone(), b"a".to_vec()), (one.clone(), b"b".to_vec())];
    let to = vec![(one.clone(), b"a".to_vec()), (two.clone(), b"b".to_vec()), (two, b"c".to_vec())];
    let text = diff_trees(&repo, &from, &to).unwrap();
    let mut expected = b"--- a/b\n+++ b/b\n@@ -1,1 +1,1 @@\n-one\n+two\n".to_vec();
    expected.extend_from_slice(b"--- a/c\n+++ b/c\n@@ -0,0 +1,1 @@\n+two\n");
    assert_eq!(text, expected);
    assert_eq!(diff_trees(&repo, &from, &from).unwrap(), Vec::<u8>::new());
    let broken = vec![(b"absent".to_vec(), b"a".to_vec())];
    assert_eq!(diff_trees(&repo, &from, &broken).unwrap_err(), Error::ObjectNotFound);
}
