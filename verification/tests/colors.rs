use daybook::color::hash_bytes;
use daybook::color::hue;

#[test]
fn hash_is_fnv1a() {
    assert_eq!(hash_bytes(b""), 0xcbf2_9ce4_8422_2325);
    assert_eq!(hash_bytes(b"a"), 0xaf63_dc4c_8601_ec8c);
    assert_eq!(hash_bytes(b"work"), 8095481971928999360);
}

#[test]
fn hue_is_the_hash_modulo_360() {
    assert_eq!(hue(b"work"), 80);
    assert_eq!(hue(b"health"), 55);
    assert_eq!(hue(b"work.code"), 183);
    assert_eq!(hue(b"work.code.backend"), 153);
    assert_eq!(hue(b""), 77);
}

#[test]
fn hue_is_stable() {
    assert_eq!(hue(b"chore"), hue(b"chore"));
    assert!(hue(b"anything at all") < 360);
}
