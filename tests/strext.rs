use rosalind::strext::StrExt;

#[test]
fn basic_windows() {
    let s = "ABCD";
    let expected = vec!["AB", "BC", "CD"];
    let actual: Vec<&str> = s.windows(2).collect();

    assert_eq!(expected, actual);
}

#[test]
fn basic_chunks() {
    let s = "ATGATGATG";
    let expected = vec!["ATG", "ATG", "ATG"];
    let actual: Vec<&str> = s.chunks(3).collect();

    assert_eq!(expected, actual);
}

#[test]
fn windows_wider_than_string_are_none() {
    let mut w = "AB".windows(3);
    assert_eq!(w.size_hint(), (0, Some(0)));
    assert_eq!(w.next(), None);
}

#[test]
fn windows_size_hint_counts_starts() {
    let w = "ABCDE".windows(2);
    assert_eq!(w.size_hint(), (4, Some(4)));
}

#[test]
fn chunks_keep_short_tail() {
    let s = "ATGATGA";
    let actual: Vec<&str> = s.chunks(3).collect();
    assert_eq!(actual, vec!["ATG", "ATG", "A"]);
    assert_eq!(s.chunks(3).size_hint(), (3, Some(3)));
}

#[test]
fn chunks_from_the_back() {
    let mut c = "ATGATGA".chunks(3);
    assert_eq!(c.next_back(), Some("A"));
    assert_eq!(c.next_back(), Some("ATG"));
    assert_eq!(c.next(), Some("ATG"));
    assert_eq!(c.next(), None);
    assert_eq!(c.next_back(), None);
}

#[test]
fn empty_string_has_no_chunks() {
    let actual: Vec<&str> = "".chunks(3).collect();
    assert!(actual.is_empty());
}
