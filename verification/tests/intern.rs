use findpkg::intern::Interner;
use findpkg::Error;

#[test]
fn add() {
    let mut strings = Interner::new();

    let mut add_assert = |s: &str, offset| {
        let s = s.as_bytes();
        let interned = strings.add(s).unwrap();

        assert_eq!(strings.get(interned).unwrap(), s);
        assert_eq!(interned, offset);
    };

    add_assert("foo", 0);
    add_assert("foo", 0);

    add_assert("bar", 4);
    add_assert("bar", 4);

    add_assert("foo", 0);

    assert_eq!(strings.buf(), b"foo\nbar\n");
}

#[test]
fn get_without_newline_fails() {
    let mut strings = Interner::new();
    assert_eq!(strings.get(0), Err(Error::UnterminatedString));
    assert_eq!(strings.add(b"foo"), Ok(0));
    assert_eq!(strings.get(0), Ok(&b"foo"[..]));
    assert_eq!(strings.get(1), Ok(&b"oo"[..]));
    assert_eq!(strings.get(3), Ok(&b""[..]));
    assert_eq!(strings.get(4), Err(Error::UnterminatedString));
    assert_eq!(strings.get(5), Err(Error::UnterminatedString));
}

#[test]
fn offsets_grow_with_each_new_string() {
    let mut strings = Interner::new();
    assert_eq!(strings.add(b""), Ok(0));
    assert_eq!(strings.add(b"a"), Ok(1));
    assert_eq!(strings.add(b""), Ok(0));
    assert_eq!(strings.add(b"bc"), Ok(3));
    assert_eq!(strings.add(b"a"), Ok(1));
    assert_eq!(strings.buf(), b"\na\nbc\n");
}

#[test]
fn string_with_newline_is_kept_whole() {
    let mut strings = Interner::new();
    assert_eq!(strings.add(b"a\nb"), Ok(0));
    assert_eq!(strings.add(b"a"), Ok(4));
    assert_eq!(strings.add(b"a\nb"), Ok(0));
    assert_eq!(strings.buf(), b"a\nb\na\n");
    assert_eq!(strings.get(0), Ok(&b"a"[..]));
}

#[test]
fn default_is_empty() {
    let mut strings = Interner::default();
    assert_eq!(strings.buf(), b"");
    assert_eq!(strings.add(b"x"), Ok(0));
}

#[test]
fn many_strings_keep_their_offsets() {
    let mut strings = Interner::new();
    let mut offsets = Vec::new();
    let mut expected = 0u32;
    for i in 0..20000 {
        let s = format!("string-{}", i);
        let offset = strings.add(s.as_bytes()).unwrap();
        assert_eq!(offset, expected);
        expected += s.len() as u32 + 1;
        offsets.push(offset);
    }
    assert_eq!(strings.buf().len() as u32, expected);
    for i in (0..20000).rev() {
        let s = format!("string-{}", i);
        assert_eq!(strings.add(s.as_bytes()), Ok(offsets[i]));
        assert_eq!(strings.get(offsets[i]), Ok(s.as_bytes()));
    }
    assert_eq!(strings.buf().len() as u32, expected);
}
