use findpkg::update::index;
use findpkg::search::{Database, Entry};
use findpkg::{Error, Span};

fn push_line(list: &mut Vec<u8>, repo: &str, package: &str, version: &str, path: &str) {
    list.extend_from_slice(repo.as_bytes());
    list.push(0);
    list.extend_from_slice(package.as_bytes());
    list.push(0);
    list.extend_from_slice(version.as_bytes());
    list.push(0);
    list.extend_from_slice(path.as_bytes());
    list.push(b'\n');
}

fn listing() -> Vec<u8> {
    let mut list = Vec::new();
    let l = &mut list;
    push_line(l, "core", "binutils", "2.36.1-2", "usr/");
    push_line(l, "core", "binutils", "2.36.1-2", "usr/bin/");
    push_line(l, "core", "binutils", "2.36.1-2", "usr/bin/ar");
    push_line(l, "core", "binutils", "2.36.1-2", "usr/bin/ld");
    push_line(l, "core", "binutils", "2.36.1-2", "usr/lib/ldscripts/elf_x86_64.x");
    push_line(l, "core", "openssl", "1.1.1.k-1", "usr/bin/openssl");
    push_line(l, "core", "openssl", "1.1.1.k-1", "usr/include/openssl/ssl.h");
    push_line(l, "core", "perl", "5.32.1-1", "usr/bin/vendor_perl/");
    push_line(l, "extra", "perl-image-exiftool", "12.16-1", "usr/bin/vendor_perl/exiftool");
    push_line(l, "extra", "python", "3.9.2-1", "usr/lib/python3.9/__pycache__/");
    push_line(l, "extra", "python", "3.9.2-1", "usr/lib/python3.9/bin/__pycache__/a.pyc");
    push_line(l, "extra", "r", "4.0.4-1", "usr/bin/R");
    push_line(l, "extra", "r", "4.0.4-1", "usr/bin/Rscript");
    push_line(l, "extra", "r", "4.0.4-1", "usr/lib/R/bin/R");
    push_line(l, "extra", "r", "4.0.4-1", "usr/lib/R/bin/Rscript");
    push_line(l, "extra", "zziplib", "0.13.72-1", "usr/bin/unzzip");
    push_line(l, "extra", "zziplib", "0.13.72-1", "usr/bin/zzxordir");
    push_line(l, "community", "aarch64-linux-gnu-binutils", "2.36-1", "usr/aarch64-linux-gnu/bin/ld");
    push_line(l, "community", "arm-none-eabi-binutils", "2.36-1", "usr/arm-none-eabi/bin/ld");
    push_line(
        l,
        "community",
        "ecryptfs-utils",
        "111-4",
        "usr/bin/ecryptfs-insert-wrapped-passphrase-into-keyring",
    );
    push_line(l, "community", "lm32-elf-binutils", "2.36-1", "usr/lm32-elf/bin/ld");
    push_line(l, "community", "mingw-w64-binutils", "2.36-1", "usr/i686-w64-mingw32/bin/ld");
    push_line(l, "community", "mingw-w64-binutils", "2.36-1", "usr/x86_64-w64-mingw32/bin/ld");
    push_line(l, "community", "nds32le-elf-binutils", "2.36-1", "usr/nds32le-elf/bin/ld");
    push_line(l, "community", "or1k-elf-binutils", "2.36-1", "usr/or1k-elf/bin/ld");
    push_line(l, "community", "ppc64le-elf-binutils", "2.36-1", "usr/ppc64le-elf/bin/ld");
    push_line(l, "community", "riscv32-elf-binutils", "2.36-1", "usr/riscv32-elf/bin/ld");
    push_line(l, "community", "riscv64-elf-binutils", "2.36-1", "usr/riscv64-elf/bin/ld");
    push_line(l, "community", "riscv64-linux-gnu-binutils", "2.36-1", "usr/riscv64-linux-gnu/bin/ld");
    push_line(l, "community", "sh2-elf-binutils", "2.36-1", "usr/sh2-elf/bin/ld");
    push_line(l, "community", "sh4-elf-binutils", "2.36-1", "usr/sh4-elf/bin/ld");
    list
}

fn small_listing() -> Vec<u8> {
    let mut list = Vec::new();
    let l = &mut list;
    push_line(l, "core", "dash", "0.5.11.3-1", "usr/");
    push_line(l, "core", "dash", "0.5.11.3-1", "usr/bin/");
    push_line(l, "core", "dash", "0.5.11.3-1", "usr/bin/dash");
    push_line(l, "core", "dash", "0.5.11.3-1", "usr/share/man/man1/dash.1.gz");
    push_line(l, "core", "diffutils", "3.7-3", "usr/bin/cmp");
    push_line(l, "core", "diffutils", "3.7-3", "usr/bin/diff");
    push_line(l, "core", "diffutils", "3.7-3", "usr/bin/diff3");
    push_line(l, "core", "diffutils", "3.7-3", "usr/bin/sdiff");
    push_line(l, "core", "dnssec-anchors", "20190629-3", "usr/share/dnssec-trust-anchors/");
    push_line(
        l,
        "core",
        "dnssec-anchors",
        "20190629-3",
        "usr/share/dnssec-trust-anchors/trusted-key.key",
    );
    push_line(l, "extra", "tree", "1.8.0-2", "usr/bin/tree");
    push_line(l, "community", "weechat", "3.1-1", "usr/bin/weechat");
    push_line(l, "community", "weechat", "3.1-1", "usr/bin/weechat-curses");
    push_line(l, "community", "weechat", "3.1-1", "usr/bin/weechat-headless");
    list
}

fn lookup(bytes: &[u8], command: &str) -> Entry {
    Database::new(bytes).unwrap().search(command.as_bytes()).unwrap()
}

#[test]
fn found() {
    let cases = [
        (
            "openssl",
            "openssl may be found in the following packages:\n  core/openssl\t/usr/bin/openssl\n",
        ),
        (
            "ecryptfs-insert-wrapped-passphrase-into-keyring",
            "ecryptfs-insert-wrapped-passphrase-into-keyring may be found in the following packages:\n  community/ecryptfs-utils\t/usr/bin/ecryptfs-insert-wrapped-passphrase-into-keyring\n",
        ),
        (
            "R",
            "R may be found in the following packages:\n  extra/r\t/usr/bin/R\n  extra/r\t/usr/lib/R/bin/R\n",
        ),
        (
            "ld",
            "ld may be found in the following packages:\n  core/binutils                       \t/usr/bin/ld\n  community/aarch64-linux-gnu-binutils\t/usr/aarch64-linux-gnu/bin/ld\n  community/arm-none-eabi-binutils    \t/usr/arm-none-eabi/bin/ld\n  community/lm32-elf-binutils         \t/usr/lm32-elf/bin/ld\n  community/mingw-w64-binutils        \t/usr/i686-w64-mingw32/bin/ld\n  community/mingw-w64-binutils        \t/usr/x86_64-w64-mingw32/bin/ld\n  community/nds32le-elf-binutils      \t/usr/nds32le-elf/bin/ld\n  community/or1k-elf-binutils         \t/usr/or1k-elf/bin/ld\n  community/ppc64le-elf-binutils      \t/usr/ppc64le-elf/bin/ld\n  community/riscv32-elf-binutils      \t/usr/riscv32-elf/bin/ld\n  community/riscv64-elf-binutils      \t/usr/riscv64-elf/bin/ld\n  community/riscv64-linux-gnu-binutils\t/usr/riscv64-linux-gnu/bin/ld\n  community/sh2-elf-binutils          \t/usr/sh2-elf/bin/ld\n  community/sh4-elf-binutils          \t/usr/sh4-elf/bin/ld\n",
        ),
        (
            "zzxordir",
            "zzxordir may be found in the following packages:\n  extra/zziplib\t/usr/bin/zzxordir\n",
        ),
    ];

    let bytes = index(&listing()).unwrap();
    let db = Database::new(&bytes).unwrap();

    for (command, expected) in cases {
        assert_eq!(db.search(command.as_bytes()), Ok(Entry::Found(expected.to_string())));
    }
}

#[test]
fn not_found() {
    let long = "a-long-name-".repeat(8000);
    let cases = [
        "LS",
        "",
        "\0",
        " ",
        "\n",
        "nxcommand",
        "vendor_perl",
        "__pycache__",
        long.as_str(),
    ];

    let bytes = index(&listing()).unwrap();
    let db = Database::new(&bytes).unwrap();

    for command in cases {
        if let Entry::Found(msg) = db.search(command.as_bytes()).unwrap() {
            panic!("Found {}: {}", command, msg);
        }
    }
}

#[test]
fn small_dash() {
    let bytes = index(&small_listing()).unwrap();
    assert_eq!(
        lookup(&bytes, "dash"),
        Entry::Found(
            "dash may be found in the following packages:\n  core/dash\t/usr/bin/dash\n".to_string()
        )
    );
}

#[test]
fn small_diff() {
    let bytes = index(&small_listing()).unwrap();
    assert_eq!(
        lookup(&bytes, "diff"),
        Entry::Found(
            "diff may be found in the following packages:\n  core/diffutils\t/usr/bin/diff\n"
                .to_string()
        )
    );
}

#[test]
fn small_diff3() {
    let bytes = index(&small_listing()).unwrap();
    assert_eq!(
        lookup(&bytes, "diff3"),
        Entry::Found(
            "diff3 may be found in the following packages:\n  core/diffutils\t/usr/bin/diff3\n"
                .to_string()
        )
    );
}

#[test]
fn small_weechat_headless() {
    let bytes = index(&small_listing()).unwrap();
    assert_eq!(
        lookup(&bytes, "weechat-headless"),
        Entry::Found(
            "weechat-headless may be found in the following packages:\n  community/weechat\t/usr/bin/weechat-headless\n"
                .to_string()
        )
    );
}

#[test]
fn small_file_outside_bin_is_not_found() {
    let bytes = index(&small_listing()).unwrap();
    assert_eq!(lookup(&bytes, "trusted-key.key"), Entry::NotFound);
}

#[test]
fn odd_queries_are_not_found() {
    let long = "a-long-name-".repeat(8000);
    for bytes in [index(&small_listing()).unwrap(), index(&listing()).unwrap(), index(b"").unwrap()] {
        for command in ["", "\0", "\n", long.as_str()] {
            assert_eq!(lookup(&bytes, command), Entry::NotFound);
        }
    }
}

#[test]
fn every_command_of_the_listing_is_found() {
    let bytes = index(&small_listing()).unwrap();
    let db = Database::new(&bytes).unwrap();
    for command in
        ["dash", "cmp", "diff", "diff3", "sdiff", "tree", "weechat", "weechat-curses", "weechat-headless"]
    {
        assert!(matches!(db.search(command.as_bytes()), Ok(Entry::Found(_))), "{}", command);
    }
    for command in ["das", "dashh", "usr", "bin", "core", "diffutils", "dash.1.gz"] {
        assert_eq!(db.search(command.as_bytes()), Ok(Entry::NotFound), "{}", command);
    }
}

#[test]
fn building_twice_gives_the_same_file() {
    assert_eq!(index(&listing()), index(&listing()));
    assert_eq!(index(&small_listing()), index(&small_listing()));
}

#[test]
fn empty_listing_gives_a_bare_header() {
    let bytes = index(b"").unwrap();
    assert_eq!(bytes.len(), 40);
    assert_eq!(&bytes[..16], b"fcnf format 003\0");
    assert_eq!(&bytes[16..24], &[0u8; 8]);
    assert_eq!(&bytes[32..], &[0u8; 8]);
    assert_eq!(lookup(&bytes, "ls"), Entry::NotFound);
}

#[test]
fn changed_version_tag_is_unknown() {
    let bytes = index(&small_listing()).unwrap();
    for i in 0..16 {
        let mut changed = bytes.clone();
        changed[i] ^= 1;
        assert_eq!(Database::new(&changed).err(), Some(Error::UnknownVersion));
    }
}

#[test]
fn truncated_file_is_corrupt() {
    let bytes = index(&small_listing()).unwrap();
    for len in 40..bytes.len() {
        assert_eq!(Database::new(&bytes[..len]).err(), Some(Error::CorruptIndex));
    }
    for len in 0..40 {
        assert_eq!(Database::new(&bytes[..len]).err(), Some(Error::CorruptIndex));
    }
    assert!(Database::new(&bytes).is_ok());
}

#[test]
fn span_outside_the_records_is_corrupt() {
    let mut list = Vec::new();
    push_line(&mut list, "core", "dash", "1", "usr/bin/dash");
    let mut bytes = index(&list).unwrap();
    // one record, one bucket, one slot: the span starts at byte 40 + 16 + 8
    assert_eq!(&bytes[64..72], &[0, 0, 0, 0, 1, 0, 0, 0]);
    bytes[68] = 2;
    let db = Database::new(&bytes).unwrap();
    assert_eq!(db.search(b"dash"), Err(Error::CorruptIndex));
}

#[test]
fn string_without_end_is_corrupt() {
    let mut list = Vec::new();
    push_line(&mut list, "core", "dash", "1", "usr/bin/dash");
    let mut bytes = index(&list).unwrap();
    let last = bytes.len() - 1;
    assert_eq!(bytes[last], b'\n');
    bytes[last] = b'!';
    let db = Database::new(&bytes).unwrap();
    assert_eq!(db.search(b"dash"), Err(Error::CorruptIndex));
}

#[test]
fn package_column_counts_characters() {
    let mut list = Vec::new();
    push_line(&mut list, "core", "caf\u{e9}", "1", "usr/bin/x");
    push_line(&mut list, "extra", "longer-name", "1", "opt/bin/x");
    let bytes = index(&list).unwrap();
    assert_eq!(
        lookup(&bytes, "x"),
        Entry::Found(
            "x may be found in the following packages:\n  core/caf\u{e9}        \t/usr/bin/x\n  extra/longer-name\t/opt/bin/x\n"
                .to_string()
        )
    );
}

#[test]
fn bytes_that_are_no_text_show_as_replacement() {
    let mut list = Vec::new();
    list.extend_from_slice(b"core\0p\xffq\x001\0usr/bin/tool\n");
    let bytes = index(&list).unwrap();
    let db = Database::new(&bytes).unwrap();
    assert_eq!(
        db.report_bytes(b"tool"),
        Ok(Some(b"tool may be found in the following packages:\n  core/p\xffq\t/usr/bin/tool\n".to_vec()))
    );
    assert_eq!(
        db.search(b"tool"),
        Ok(Entry::Found(
            "tool may be found in the following packages:\n  core/p\u{fffd}q\t/usr/bin/tool\n"
                .to_string()
        ))
    );
}

#[test]
fn listing_shows_the_records_in_file_order() {
    let bytes = index(&small_listing()).unwrap();
    let db = Database::new(&bytes).unwrap();
    let expected = "core/diffutils\tusr/bin/cmp\ncore/dash\tusr/bin/dash\ncore/diffutils\tusr/bin/diff\ncore/diffutils\tusr/bin/diff3\ncore/diffutils\tusr/bin/sdiff\nextra/tree\tusr/bin/tree\ncommunity/weechat\tusr/bin/weechat\ncommunity/weechat\tusr/bin/weechat-curses\ncommunity/weechat\tusr/bin/weechat-headless\n";
    assert_eq!(db.listing(), Ok(expected.as_bytes().to_vec()));
}

#[test]
fn find_gives_the_run_of_the_command() {
    let bytes = index(&small_listing()).unwrap();
    let db = Database::new(&bytes).unwrap();
    // sorted: cmp, dash, diff, diff3, sdiff, tree, weechat, weechat-curses, weechat-headless
    assert_eq!(db.find(b"cmp"), Ok(Some(Span { start: 0, end: 1 })));
    assert_eq!(db.find(b"diff3"), Ok(Some(Span { start: 3, end: 4 })));
    assert_eq!(db.find(b"weechat-headless"), Ok(Some(Span { start: 8, end: 9 })));
    assert_eq!(db.find(b"weechat-"), Ok(None));
    let bytes = index(&listing()).unwrap();
    let db = Database::new(&bytes).unwrap();
    let span = db.find(b"ld").unwrap().unwrap();
    assert_eq!(span.end - span.start, 14);
}

#[test]
fn get_reads_a_string_of_the_arena() {
    let mut list = Vec::new();
    push_line(&mut list, "core", "dash", "1", "usr/bin/sh");
    let bytes = index(&list).unwrap();
    let db = Database::new(&bytes).unwrap();
    // the arena: core, dash, usr/bin/, sh
    assert_eq!(db.get(0), Ok(&b"core"[..]));
    assert_eq!(db.get(5), Ok(&b"dash"[..]));
    assert_eq!(db.get(10), Ok(&b"usr/bin/"[..]));
    assert_eq!(db.get(19), Ok(&b"sh"[..]));
    assert_eq!(db.get(21), Ok(&b""[..]));
    assert_eq!(db.get(22), Err(Error::CorruptIndex));
    assert_eq!(db.get(u32::MAX), Err(Error::CorruptIndex));
}
