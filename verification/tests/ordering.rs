use daybook::order::bytes_le;
use daybook::order::locate;

#[test]
fn byte_strings_compare_lexicographically() {
    assert!(bytes_le(b"", b""));
    assert!(bytes_le(b"", b"a"));
    assert!(!bytes_le(b"a", b""));
    assert!(bytes_le(b"abc", b"abd"));
    assert!(!bytes_le(b"abd", b"abc"));
    assert!(bytes_le(b"ab", b"abc"));
    assert!(!bytes_le(b"abc", b"ab"));
    assert!(bytes_le(b"Z", b"a"));
    assert!(bytes_le(b"same", b"same"));
}

#[test]
fn locate_finds_the_place_of_a_name() {
    let names: Vec<Vec<u8>> =
        [&b"apple"[..], b"fig", b"pear"].iter().map(|n| n.to_vec()).collect();
    assert_eq!(locate(&names, b"apple"), (true, 0));
    assert_eq!(locate(&names, b"pear"), (true, 2));
    assert_eq!(locate(&names, b"aardvark"), (false, 0));
    assert_eq!(locate(&names, b"grape"), (false, 2));
    assert_eq!(locate(&names, b"plum"), (false, 3));
    assert_eq!(locate(&Vec::new(), b"plum"), (false, 0));
}
