use pkgrank::distance::{hamming_dist, str_dist};

#[test]
fn test_hamming_distance() {
    assert_eq!(hamming_dist(&"asdf".to_string(), &"a".to_string()), 3);
    assert_eq!(hamming_dist(&"aaasdf".to_string(), &"aaas".to_string()), 2);
    assert_eq!(hamming_dist(&"abab".to_string(), &"baba".to_string()), 4);
}

#[test]
fn distance_to_itself_is_zero() {
    for s in ["", "a", "foo", "libssl-dev", "naïve", "日本語"] {
        assert_eq!(hamming_dist(&s.to_string(), &s.to_string()), 0);
    }
}

#[test]
fn distance_from_empty_is_the_length() {
    assert_eq!(hamming_dist(&"".to_string(), &"".to_string()), 0);
    assert_eq!(hamming_dist(&"".to_string(), &"vim".to_string()), 3);
    assert_eq!(hamming_dist(&"emacs".to_string(), &"".to_string()), 5);
}

#[test]
fn distance_is_symmetric() {
    let pairs = [("asdf", "a"), ("kitten", "sitting"), ("abc", "xbz"), ("", "q")];
    for (a, b) in pairs {
        assert_eq!(
            hamming_dist(&a.to_string(), &b.to_string()),
            hamming_dist(&b.to_string(), &a.to_string())
        );
    }
    assert_eq!(hamming_dist(&"kitten".to_string(), &"sitting".to_string()), 3);
    assert_eq!(hamming_dist(&"abc".to_string(), &"xbz".to_string()), 2);
}

#[test]
fn distance_counts_characters_not_bytes() {
    // two characters against two, one of them differs
    assert_eq!(hamming_dist(&"né".to_string(), &"ne".to_string()), 1);
    // three characters against none
    assert_eq!(hamming_dist(&"日本語".to_string(), &"".to_string()), 3);
    assert_eq!(hamming_dist(&"日本語".to_string(), &"日本".to_string()), 1);
    assert_eq!(hamming_dist(&"añb".to_string(), &"anb".to_string()), 1);
}

#[test]
fn distance_is_no_edit_distance() {
    // one insertion at the front shifts every position
    assert_eq!(hamming_dist(&"abcd".to_string(), &"xabcd".to_string()), 5);
}

#[test]
fn distance_of_slices() {
    assert_eq!(str_dist("foo", "fooo"), 1);
    assert_eq!(str_dist("foo", "bar"), 3);
    assert_eq!(str_dist("foo", "foo"), 0);
}
