use dope::order::bytes_le;
use dope::sort::sort_by_text;

#[test]
fn bytes_are_compared_from_the_front() {
    assert!(bytes_le(b"a", b"b"));
    assert!(!bytes_le(b"b", b"a"));
    assert!(bytes_le(b"ab", b"b"));
    assert!(!bytes_le(b"b", b"ab"));
}

#[test]
fn a_prefix_comes_first() {
    assert!(bytes_le(b"", b""));
    assert!(bytes_le(b"", b"a"));
    assert!(!bytes_le(b"a", b""));
    assert!(bytes_le(b"ab", b"abc"));
    assert!(!bytes_le(b"abc", b"ab"));
}

#[test]
fn equal_texts_are_not_after_each_other() {
    assert!(bytes_le(b"abc", b"abc"));
}

#[test]
fn bytes_are_compared_unsigned() {
    assert!(bytes_le(&[0x7f], &[0x80]));
    assert!(!bytes_le(&[0xff], &[0x00]));
}

#[test]
fn comparison_agrees_with_std() {
    let texts: [&[u8]; 7] = [b"", b"a", b"ab", b"b", b"ba", b"\"x\"", b"[1]"];
    for a in texts {
        for b in texts {
            assert_eq!(bytes_le(a, b), a <= b);
        }
    }
}

#[test]
fn no_texts_no_order() {
    assert_eq!(sort_by_text(&vec![]), Vec::<usize>::new());
}

#[test]
fn texts_are_put_in_ascending_order() {
    let texts = vec![b"b".to_vec(), b"a".to_vec(), b"c".to_vec()];
    assert_eq!(sort_by_text(&texts), vec![1, 0, 2]);
}

#[test]
fn equal_texts_keep_their_order() {
    let texts = vec![b"b".to_vec(), b"a".to_vec(), b"b".to_vec(), b"a".to_vec()];
    assert_eq!(sort_by_text(&texts), vec![1, 3, 0, 2]);
}

#[test]
fn descending_texts_are_reversed() {
    let texts = vec![b"d".to_vec(), b"c".to_vec(), b"b".to_vec(), b"a".to_vec()];
    assert_eq!(sort_by_text(&texts), vec![3, 2, 1, 0]);
}

#[test]
fn order_agrees_with_a_stable_sort() {
    let texts: Vec<Vec<u8>> = ["k", "a", "zz", "a", "", "k", "b", "ab"]
        .iter()
        .map(|t| t.as_bytes().to_vec())
        .collect();
    let mut expected: Vec<usize> = (0..texts.len()).collect();
    expected.sort_by(|a, b| texts[*a].cmp(&texts[*b]));
    assert_eq!(sort_by_text(&texts), expected);
}
