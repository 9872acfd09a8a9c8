use ugit::bytes::{
    bytes_eq, join_bytes, copy, find, is_space_byte, join_path, list_contains, opt_eq, slice,
    split_at, split_lines, split_words, starts_with,
};

fn list(items: &[&[u8]]) -> Vec<Vec<u8>> {
    items.iter().map(|item| item.to_vec()).collect()
}

#[test]
fn splitting_at_a_byte_gives_every_piece() {
    assert_eq!(split_at(b"a/b/c", b'/'), list(&[b"a", b"b", b"c"]));
    assert_eq!(split_at(b"/a//b/", b'/'), list(&[b"", b"a", b"", b"b", b""]));
    assert_eq!(split_at(b"", b'/'), list(&[b""]));
    assert_eq!(split_at(b"abc", b'/'), list(&[b"abc"]));
}

#[test]
fn lines_end_at_line_feeds() {
    assert_eq!(split_lines(b"a\nb\n"), list(&[b"a", b"b"]));
    assert_eq!(split_lines(b"a\nb"), list(&[b"a", b"b"]));
    assert_eq!(split_lines(b"a\n\nb"), list(&[b"a", b"", b"b"]));
    assert_eq!(split_lines(b"\n"), list(&[b""]));
    assert_eq!(split_lines(b""), Vec::<Vec<u8>>::new());
}

#[test]
fn words_are_separated_by_white_space() {
    assert_eq!(split_words(b"  tree \t abc\r\n x "), list(&[b"tree", b"abc", b"x"]));
    assert_eq!(split_words(b"one"), list(&[b"one"]));
    assert_eq!(split_words(b" \t\n"), Vec::<Vec<u8>>::new());
    assert_eq!(split_words(b""), Vec::<Vec<u8>>::new());
    assert!(is_space_byte(b' ') && is_space_byte(0x0b) && is_space_byte(0x0c));
    assert!(!is_space_byte(b'a') && !is_space_byte(0) && !is_space_byte(0xa0));
}

#[test]
fn byte_strings_compare_and_combine() {
    assert!(bytes_eq(b"abc", b"abc"));
    assert!(!bytes_eq(b"abc", b"abd"));
    assert!(!bytes_eq(b"abc", b"ab"));
    assert!(starts_with(b"refs/heads/x", b"refs/"));
    assert!(starts_with(b"refs/", b"refs/"));
    assert!(starts_with(b"anything", b""));
    assert!(!starts_with(b"ref", b"refs/"));
    assert!(!starts_with(b"xefs/", b"refs/"));
    assert_eq!(join_bytes(b"ab", b"cd"), b"abcd".to_vec());
    assert_eq!(copy(b"ab"), b"ab".to_vec());
    assert_eq!(slice(b"abcdef", 2, 4), b"cd".to_vec());
    assert_eq!(slice(b"abcdef", 3, 3), Vec::<u8>::new());
    assert_eq!(find(b"a,b,c", b',', 0), 1);
    assert_eq!(find(b"a,b,c", b',', 2), 3);
    assert_eq!(find(b"a,b,c", b',', 4), 5);
    assert!(list_contains(&list(&[b"a", b"b"]), b"b"));
    assert!(!list_contains(&list(&[b"a", b"b"]), b"c"));
    assert!(opt_eq(&None, &None));
    assert!(opt_eq(&Some(b"a".to_vec()), &Some(b"a".to_vec())));
    assert!(!opt_eq(&Some(b"a".to_vec()), &None));
}

#[test]
fn paths_are_joined_with_a_slash() {
    assert_eq!(join_path(b"", b"a"), b"a".to_vec());
    assert_eq!(join_path(b"dir", b"a"), b"dir/a".to_vec());
    assert_eq!(join_path(b"dir/sub", b"a"), b"dir/sub/a".to_vec());
}
