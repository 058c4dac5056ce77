use findpkg::bytes::{find_byte, rfind_byte};
use findpkg::index::{index, index_with_key, parse_line};
use findpkg::search::{Database, Entry};
use findpkg::Error;

const SMALL: &[u8] = b"core\x00dash\x000.5.11\x00usr/bin/dash\ncore\x00dash\x000.5.11\x00usr/bin/\nextra\x00tree\x001.8\x00usr/bin/tree\ncore\x00dash\x000.5.11\x00usr/share/man/man1/dash.1.gz\n";

#[test]
fn index_with_key_writes_the_layout() {
    let expected: Vec<u8> = vec![
        102, 99, 110, 102, 32, 102, 111, 114, 109, 97, 116, 32, 48, 48, 51, 0, 32, 0, 0, 0, 30, 0,
        0, 0, 0, 0, 0, 0, 0, 0, 0, 0, 8, 0, 0, 0, 16, 0, 0, 0, 0, 0, 0, 0, 5, 0, 0, 0, 10, 0, 0, 0,
        5, 0, 0, 0, 19, 0, 0, 0, 25, 0, 0, 0, 10, 0, 0, 0, 25, 0, 0, 0, 1, 0, 0, 0, 0, 0, 0, 0, 0,
        0, 0, 0, 1, 0, 0, 0, 1, 0, 0, 0, 2, 0, 0, 0, 99, 111, 114, 101, 10, 100, 97, 115, 104, 10,
        117, 115, 114, 47, 98, 105, 110, 47, 10, 101, 120, 116, 114, 97, 10, 116, 114, 101, 101, 10,
    ];
    assert_eq!(index_with_key(SMALL, 0), Ok(expected));
}

#[test]
fn index_with_key_fails_where_the_key_gives_no_hash() {
    assert_eq!(index_with_key(SMALL, 1), Err(Error::PhfFailure));
    assert_eq!(index_with_key(SMALL, 42), Err(Error::PhfFailure));
    assert!(index_with_key(SMALL, 2).is_ok());
}

#[test]
fn index_is_index_with_the_key_it_chose() {
    let bytes = index(SMALL).unwrap();
    let key = u64::from_le_bytes([
        bytes[24], bytes[25], bytes[26], bytes[27], bytes[28], bytes[29], bytes[30], bytes[31],
    ]);
    assert_eq!(index_with_key(SMALL, key), Ok(bytes));
}

#[test]
fn last_line_needs_no_newline() {
    let with = index_with_key(b"core\0dash\x001\0usr/bin/dash\n", 0).unwrap();
    let without = index_with_key(b"core\0dash\x001\0usr/bin/dash", 0).unwrap();
    assert_eq!(with, without);
    let blank = index_with_key(b"\n\ncore\0dash\x001\0usr/bin/dash\n\n", 0).unwrap();
    assert_eq!(with, blank);
}

#[test]
fn missing_field_is_malformed() {
    assert_eq!(index(b"usr/bin/dash\n"), Err(Error::MalformedInput));
    assert_eq!(index(b"1\0usr/bin/dash\n"), Err(Error::MalformedInput));
    assert_eq!(index(b"dash\x001\0usr/bin/dash\n"), Err(Error::MalformedInput));
    assert!(index(b"core\0dash\x001\0usr/bin/dash\n").is_ok());
    assert_eq!(
        index(b"core\0dash\x001\0usr/bin/dash\ndash\x001\0usr/bin/dash\n"),
        Err(Error::MalformedInput)
    );
    // a line that names no executable is passed over, whatever it lacks
    assert!(index(b"usr/share/doc\n1\0usr/bin/\njunk\n").is_ok());
}

#[test]
fn parse_line_reads_from_the_right() {
    let fields = parse_line(b"core\0dash\x001\0usr/bin/dash").unwrap().unwrap();
    assert_eq!(
        (fields.repo, fields.package, fields.dir, fields.bin),
        (&b"core"[..], &b"dash"[..], &b"usr/bin/"[..], &b"dash"[..])
    );
    let fields = parse_line(b"more\0core\0dash\x001\0opt/x/bin/y").unwrap().unwrap();
    assert_eq!(
        (fields.repo, fields.package, fields.dir, fields.bin),
        (&b"core"[..], &b"dash"[..], &b"opt/x/bin/"[..], &b"y"[..])
    );
    let fields = parse_line(b"\0\0\0/bin/x").unwrap().unwrap();
    assert_eq!(
        (fields.repo, fields.package, fields.dir, fields.bin),
        (&b""[..], &b""[..], &b"/bin/"[..], &b"x"[..])
    );
}

#[test]
fn parse_line_passes_over_what_is_no_executable() {
    for line in [
        &b""[..],
        b"core\0dash\x001\0usr/bin/",
        b"core\0dash\x001\0dash",
        b"core\0dash\x001\0bin/dash",
        b"core\0dash\x001\0usr/sbin/dash",
        b"core\0dash\x001\0usr/Bin/dash",
        b"core\0dash\x001\0usr/bin/sub/dash",
        b"core\0dash\x001\0usr/share/dash",
    ] {
        assert!(matches!(parse_line(line), Ok(None)));
    }
    assert!(matches!(parse_line(b"usr/bin/dash"), Err(Error::MalformedInput)));
    assert!(matches!(parse_line(b"a\0b\0usr/bin/dash"), Err(Error::MalformedInput)));
}

#[test]
fn records_are_sorted_and_equal_names_keep_their_order() {
    let list = b"r\0third\x001\0usr/bin/b\nr\0first\x001\0usr/bin/a\nr\0second\x001\0opt/bin/b\nr\0zeroth\x001\0usr/bin/ab\n";
    let bytes = index(list).unwrap();
    let db = Database::new(&bytes).unwrap();
    assert_eq!(
        db.search(b"b"),
        Ok(Entry::Found(
            "b may be found in the following packages:\n  r/third \t/usr/bin/b\n  r/second\t/opt/bin/b\n"
                .to_string()
        ))
    );
    // four records of sixteen bytes: the offsets of the names, in order
    let bins: Vec<u32> = (0..4)
        .map(|i| {
            let at = 40 + 16 * i + 12;
            u32::from_le_bytes([bytes[at], bytes[at + 1], bytes[at + 2], bytes[at + 3]])
        })
        .collect();
    let names: Vec<&[u8]> = bins.iter().map(|&b| db.get(b).unwrap()).collect();
    assert_eq!(names, vec![&b"a"[..], b"ab", b"b", b"b"]);
}

#[test]
fn many_commands_round_trip() {
    let mut list = Vec::new();
    for i in 0..5000 {
        list.extend_from_slice(
            format!("repo{}\0package-{}\x001.0\0usr/bin/tool-{}\n", i % 3, i / 2, i % 4000).as_bytes(),
        );
    }
    let bytes = index(&list).unwrap();
    let db = Database::new(&bytes).unwrap();
    for i in 0..4000 {
        let command = format!("tool-{}", i);
        match db.search(command.as_bytes()).unwrap() {
            Entry::Found(report) => {
                let lines = report.lines().count();
                assert_eq!(lines, if i < 1000 { 3 } else { 2 }, "{}", report);
                assert!(report.contains(&format!("\t/usr/bin/tool-{}\n", i)));
            }
            Entry::NotFound => panic!("{} not found", command),
        }
    }
    for i in 4000..4100 {
        assert_eq!(db.search(format!("tool-{}", i).as_bytes()), Ok(Entry::NotFound));
    }
}

#[test]
fn find_byte_gives_first_and_last() {
    assert_eq!(find_byte(b"foo bar baz", b'z'), Some(10));
    assert_eq!(find_byte(b"foo bar baz", b'a'), Some(5));
    assert_eq!(find_byte(b"foo bar baz", b'y'), None);
    assert_eq!(rfind_byte(b"foo bar baz", b'a'), Some(9));
    assert_eq!(rfind_byte(b"foo bar baz", b'f'), Some(0));
    assert_eq!(rfind_byte(b"", b'f'), None);
}

fn checksum(bytes: &[u8]) -> u64 {
    let mut h: u64 = 0xcbf29ce484222325;
    for b in bytes {
        h ^= *b as u64;
        h = h.wrapping_mul(0x100000001b3);
    }
    h
}

fn mixed_listing() -> Vec<u8> {
    let packages = ["alpha", "beta", "gamma", "delta", "epsilon", "zeta", "eta", "theta"];
    let mut list = Vec::new();
    for i in 0..60 {
        let repo = ["core", "extra", "community"][i % 3];
        let package = packages[(i * 5) % 8];
        let dir = match i % 4 {
            0 => "usr/bin/".to_string(),
            1 => "usr/lib/x/bin/".to_string(),
            2 => format!("opt/{}/bin/", package),
            _ => "usr/share/".to_string(),
        };
        let line = format!("{}\0{}\x001.{}\0{}tool{}\n", repo, package, i, dir, i * 7 % 23);
        list.extend_from_slice(line.as_bytes());
        if i % 9 == 0 {
            let line = format!("{}\0{}\x001.{}\0{}\n", repo, package, i, dir);
            list.extend_from_slice(line.as_bytes());
        }
    }
    list
}

#[test]
fn index_with_key_on_a_mixed_listing() {
    let list = mixed_listing();
    assert_eq!((list.len(), checksum(&list)), (2320, 8489315377547177963));
    let bytes = index_with_key(&list, 0).unwrap();
    assert_eq!(bytes.len(), 40 + 45 * 16 + 5 * 8 + 23 * 8 + 258);
    assert_eq!(checksum(&bytes), 11178056162756917526);
    let db = Database::new(&bytes).unwrap();
    for i in 0..23 {
        let command = format!("tool{}", i);
        assert!(matches!(db.search(command.as_bytes()), Ok(Entry::Found(_))), "{}", command);
    }
    assert_eq!(db.search(b"tool23"), Ok(Entry::NotFound));
    assert_eq!(checksum(&index_with_key(&list, 1).unwrap()), 1099739438508923957);
    assert_eq!(index_with_key(&list, 2), Err(Error::PhfFailure));
    assert_eq!(index_with_key(&list, 1234567890), Err(Error::PhfFailure));
}

#[test]
fn lines_that_name_no_executable_do_not_matter() {
    let plain = b"core\0dash\x001\0usr/bin/dash\nextra\0tree\x001\0usr/bin/tree\n";
    let noisy = b"\ncore\0dash\x001\0usr/\ncore\0dash\x001\0usr/bin/dash\njunk\nextra\0tree\x001\0usr/share/tree\nextra\0tree\x001\0usr/bin/tree\nextra\0tree\x001\0usr/bin/";
    for key in 0..8 {
        assert_eq!(index_with_key(plain, key), index_with_key(noisy, key));
    }
    assert_eq!(index(plain), index(noisy));
    // the order of the lines that do name one matters: the arena is filled in their order
    let swapped = b"extra\0tree\x001\0usr/bin/tree\ncore\0dash\x001\0usr/bin/dash\n";
    assert_ne!(index(plain), index(swapped));
}
