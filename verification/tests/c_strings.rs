use jumpstart::string::{islower, isupper, str_copy, strcmp, strcpy, strlen, tolower, toupper};

fn c(s: &[u8]) -> Option<&[u8]> {
    Some(s)
}

#[test]
fn character_classes() {
    assert_eq!(islower('a' as i32), 1);
    assert_eq!(islower('z' as i32), 1);
    assert_eq!(islower('A' as i32), 0);
    assert_eq!(islower('{' as i32), 0);
    assert_eq!(isupper('Z' as i32), 1);
    assert_eq!(isupper('a' as i32), 0);
    assert_eq!(isupper('@' as i32), 0);
    assert_eq!(isupper(-65), 0);
}

#[test]
fn case_conversion() {
    assert_eq!(tolower('Q' as i32), 'q' as i32);
    assert_eq!(tolower('q' as i32), 'q' as i32);
    assert_eq!(tolower('1' as i32), '1' as i32);
    assert_eq!(toupper('q' as i32), 'Q' as i32);
    assert_eq!(toupper('Q' as i32), 'Q' as i32);
    assert_eq!(toupper(300), 300);
}

#[test]
fn case_mapping_round_trips() {
    for c in ('a' as i32)..=('z' as i32) {
        assert_eq!(tolower(toupper(c)), c);
    }
    for c in ('A' as i32)..=('Z' as i32) {
        assert_eq!(toupper(tolower(c)), c);
    }
    for c in -10..300 {
        assert_eq!(tolower(tolower(c)), tolower(c));
        assert_eq!(toupper(toupper(c)), toupper(c));
    }
}

#[test]
fn strlen_counts_to_first_nul() {
    assert_eq!(strlen(c(b"hello\0")), 5);
    assert_eq!(strlen(c(b"\0")), 0);
    assert_eq!(strlen(c(b"ab\0cd\0")), 2);
    assert_eq!(strlen(None), 0);
}

#[test]
fn strcmp_returns_byte_difference() {
    assert_eq!(strcmp(c(b"abc\0"), c(b"abd\0")), -1);
    assert_eq!(strcmp(c(b"abc\0"), c(b"abc\0")), 0);
    assert_eq!(strcmp(c(b"b\0"), c(b"a\0")), 1);
    assert_eq!(strcmp(c(b"ab\0"), c(b"abc\0")), -99);
    assert_eq!(strcmp(c(b"abc\0xyz"), c(b"abc\0")), 0);
    assert_eq!(strcmp(c(b"\xff\0"), c(b"\x01\0")), 254);
}

#[test]
fn strcmp_with_null_is_minus_one() {
    assert_eq!(strcmp(None, c(b"a\0")), -1);
    assert_eq!(strcmp(c(b"a\0"), None), -1);
    assert_eq!(strcmp(None, None), -1);
}

#[test]
fn strcmp_laws() {
    let words: [&[u8]; 5] = [b"\0", b"a\0", b"abc\0", b"abd\0", b"zz\0"];
    for a in words {
        assert_eq!(strcmp(c(a), c(a)), 0);
        for b in words {
            assert_eq!(strcmp(c(a), c(b)), -strcmp(c(b), c(a)));
        }
    }
}

#[test]
fn strcpy_copies_with_nul() {
    let mut dest = vec![9u8; 5];
    assert!(strcpy(Some(&mut dest), c(b"hi\0")));
    assert_eq!(dest, vec![b'h', b'i', 0, 9, 9]);
    let mut exact = vec![1u8; 3];
    str_copy(&mut exact, b"ab\0zz");
    assert_eq!(exact, vec![b'a', b'b', 0]);
}

#[test]
fn strcpy_with_null_copies_nothing() {
    let mut dest = vec![9u8; 4];
    assert!(!strcpy(Some(&mut dest), None));
    assert_eq!(dest, vec![9u8; 4]);
    assert!(!strcpy(None, c(b"x\0")));
}
