use comet::str::Str;
use comet::string::String;
use comet::vector::Vector;

fn bytes(b: &[u8]) -> Vector<u8> {
    let mut v = Vector::new();
    for x in b {
        v.push(*x);
    }
    v
}

#[test]
fn push_and_push_str() {
    let mut s = String::new();
    s.push('a');
    s.push('é');
    s.push_str("ℝ💖");
    assert_eq!(s.as_str(), "aéℝ💖");
    assert_eq!(s.len(), 1 + 2 + 3 + 4);
    assert!(!s.is_empty());
}

#[test]
fn from_utf8_accepts_valid_bytes() {
    let s = String::from_utf8(bytes(&[240, 159, 146, 150])).ok().unwrap();
    assert_eq!(s.as_str(), "💖");
}

#[test]
fn from_utf8_gives_invalid_bytes_back() {
    let e = String::from_utf8(bytes(&[0, 159])).err().unwrap();
    assert_eq!(e.as_bytes(), &[0u8, 159u8][..]);
    let e = String::from_utf8(bytes(&[0, 159, 146, 150])).err().unwrap();
    assert_eq!(e.into_bytes().as_slice(), &[0u8, 159, 146, 150][..]);
}

#[test]
fn from_utf16_decodes_surrogate_pairs() {
    let v = [0xD834, 0xDD1E, 0x006d, 0x0075, 0x0073, 0x0069, 0x0063];
    let s = String::from_utf16(&v).ok().unwrap();
    assert_eq!(s.as_str(), "𝄞music");
}

#[test]
fn from_utf16_refuses_unpaired_surrogate() {
    let v = [0xD834, 0xDD1E, 0x006d, 0x0075, 0xD800, 0x0069, 0x0063];
    assert!(String::from_utf16(&v).is_err());
    assert!(String::from_utf16(&[0xDC00]).is_err());
}

#[test]
fn remove_returns_the_character() {
    let mut s = String::new();
    s.push_str("föo");
    assert_eq!(s.remove(1), 'ö');
    assert_eq!(s.as_str(), "fo");
    assert_eq!(s.remove(0), 'f');
    assert_eq!(s.as_str(), "o");
}

#[test]
fn insert_and_insert_str() {
    let mut s = String::new();
    s.push_str("foo");
    s.insert(3, 'ß');
    assert_eq!(s.as_str(), "fooß");
    s.insert_str(0, "bar");
    assert_eq!(s.as_str(), "barfooß");
}

#[test]
fn split_off_keeps_both_halves() {
    let mut s = String::new();
    s.push_str("Hello, World!");
    let world = s.split_off(7);
    assert_eq!(s.as_str(), "Hello, ");
    assert_eq!(world.as_str(), "World!");
}

#[test]
fn replace_range_splices() {
    let mut s = String::new();
    s.push_str("α is alpha, β is beta");
    let beta_offset = s.as_str().find('β').unwrap();
    s.replace_range(0, beta_offset, "Α is capital alpha; ");
    assert_eq!(s.as_str(), "Α is capital alpha; β is beta");
}

#[test]
fn char_boundaries() {
    let mut s = String::new();
    s.push_str("é");
    assert!(s.is_char_boundary(0));
    assert!(!s.is_char_boundary(1));
    assert!(s.is_char_boundary(2));
    assert!(!s.is_char_boundary(3));
}

#[test]
fn clear_keeps_capacity() {
    let mut s = String::with_capacity(16);
    s.push_str("abc");
    let cap = s.capacity();
    s.clear();
    assert!(s.is_empty());
    assert_eq!(s.capacity(), cap);
    assert_eq!(s.capacity(), 16);
}

#[test]
fn str_records_byte_length() {
    let s = Str::new("héllo");
    assert_eq!(s.len(), 6);
    assert_eq!(s.as_str(), "héllo");
}

#[test]
fn push_then_remove_restores() {
    let mut s = String::new();
    s.push_str("ab");
    let len = s.len();
    s.push('€');
    assert_eq!(s.remove(len), '€');
    assert_eq!(s.as_str(), "ab");
}

#[test]
fn str_changes_through_its_mutable_slice() {
    let mut s = comet::str::Str::new("gc heap");
    s.as_mut_str().make_ascii_uppercase();
    assert_eq!(s.as_str(), "GC HEAP");
    assert_eq!(s.len(), 7);
}
