use pfp::proc::{parse_maps, principal_binary, MapEntry, MapsError};
use pfp::target::locate_binary;
use pfp::text::IntError;

const SAMPLE: &str = "\
555555554000-555555641000 r--p 00000000 00:1d9 120084486                 /usr/bin/php8.3
555555641000-555555969000 r-xp 000ed000 00:1d9 120084486                 /usr/bin/php8.3
555555ae9000-555555d0f000 rw-p 00000000 00:00 0
7ffffdbbc000-7ffffdc3d000 rw-p 00000000 00:00 0
7ffffdc66000-7ffffdc68000 r--p 00000000 00:1d9 120058383                 /usr/lib/php/20230831/tokenizer.so
7ffffe0d2000-7ffffe0f7000 r-xp 00001000 00:1d9 120030011                 /usr/lib/x86_64-linux-gnu/libc.so.6
7ffffffde000-7fffffffe000 rw-p 00000000 00:00 0                          [stack]
";

#[test]
fn parses_typical_maps() {
    let maps = parse_maps(SAMPLE).unwrap();
    assert_eq!(maps.len(), 7);

    let first = &maps[0];
    assert_eq!(first.start, 0x555555554000);
    assert_eq!(first.perms, "r--p");
    assert_eq!(first.path.as_deref(), Some("/usr/bin/php8.3"));

    // Anonymous mapping has no path.
    assert_eq!(maps[2].path, None);
    // Stack pseudo-path is preserved.
    assert_eq!(maps[6].path.as_deref(), Some("[stack]"));
}

#[test]
fn principal_binary_skips_anon_and_pseudo() {
    let maps = parse_maps(SAMPLE).unwrap();
    let p = principal_binary(&maps).unwrap();
    // Should pick php8.3, the first executable mapping with a real path.
    assert_eq!(p.path.as_deref(), Some("/usr/bin/php8.3"));
    // And specifically the lowest-address mapping for that file.
    assert_eq!(p.start, 0x555555554000);
}

#[test]
fn principal_binary_skips_swoole_shared_exec_mapping() {
    // Swoole maps an executable shared memory pool backed by
    // `/dev/zero (deleted)` at a lower address than the php text segment.
    let swoole = "\
5649acc00000-5649c4c00000 rw-s 00000000 00:01 4586                       /dev/zero (deleted)
5649c4c00000-5649ccc00000 r-xs 18000000 00:01 4586                       /dev/zero (deleted)
5649ccc00000-5649ccd69000 r--p 00000000 fe:01 656824                     /usr/local/bin/php
5649cce00000-5649cd601000 r-xp 00200000 fe:01 656824                     /usr/local/bin/php
";
    let maps = parse_maps(swoole).unwrap();
    let p = principal_binary(&maps).unwrap();
    assert_eq!(p.path.as_deref(), Some("/usr/local/bin/php"));
    assert_eq!(p.start, 0x5649ccc00000);
}

#[test]
fn principal_binary_handles_only_anon() {
    let only_anon = "\
7ffffdbbc000-7ffffdc3d000 rw-p 00000000 00:00 0
7ffffffde000-7fffffffe000 rw-p 00000000 00:00 0                          [stack]
";
    let maps = parse_maps(only_anon).unwrap();
    assert!(principal_binary(&maps).is_none());
    assert!(locate_binary(&maps).is_none());
}

#[test]
fn parse_maps_rejects_garbage() {
    assert!(parse_maps("not a maps line").is_err());
}

#[test]
fn maps_errors_say_what_is_wrong() {
    let e = parse_maps("lonely").unwrap_err();
    assert!(matches!(&e, MapsError::Line(l) if l == "lonely"));
    assert_eq!(e.message(), "bad maps line: lonely");
    let e = parse_maps("not a maps line").unwrap_err();
    assert_eq!(e.message(), "bad range: not");
    let e = parse_maps("xyz-1 r--p").unwrap_err();
    assert!(matches!(e, MapsError::Address(IntError::InvalidDigit)));
    assert_eq!(e.message(), "invalid digit found in string");
    let e = parse_maps("-1 r--p").unwrap_err();
    assert!(matches!(e, MapsError::Address(IntError::Empty)));
    let e = parse_maps("11112222333344445-1 r--p").unwrap_err();
    assert!(matches!(e, MapsError::Address(IntError::Overflow)));
    // A blank line is no entry, and no maps at all are none.
    assert!(parse_maps("\n").is_err());
    assert_eq!(parse_maps("").unwrap().len(), 0);
}

#[test]
fn maps_columns_are_split_at_single_spaces() {
    // The sixth piece is the path, spaces and all; columns count only where
    // they are not empty.
    let maps = parse_maps("1000-2000 r-xp 0 0 0 /opt/my php  \r\n").unwrap();
    assert_eq!(maps[0].path.as_deref(), Some("/opt/my php"));
    let maps = parse_maps("1000-2000  r-xp 0 0 0 /opt/php").unwrap();
    assert_eq!(maps[0].perms, "r-xp");
    assert_eq!(maps[0].path, None);
}

fn entry(start: u64, perms: &str, path: Option<&str>) -> MapEntry {
    MapEntry { start, perms: perms.to_string(), path: path.map(str::to_string) }
}

#[test]
fn the_lowest_text_decides_and_its_lowest_mapping_is_the_base() {
    let maps = [
        entry(0x9000, "r-xp", Some("/bin/b")),
        entry(0x5000, "r-xp", Some("/bin/a")),
        entry(0x1000, "rw-p", Some("/bin/b")),
        entry(0x4000, "r--p", Some("/bin/a")),
        entry(0x2000, "r-xp", Some("/bin/gone (deleted)")),
        entry(0x0800, "r-xp", Some("/dev/mem")),
        entry(0x0700, "r-xs", Some("/bin/c")),
        entry(0x0600, "r-xp", None),
    ];
    let p = principal_binary(&maps).unwrap();
    assert_eq!(p.start, 0x4000);
    let b = locate_binary(&maps).unwrap();
    assert_eq!(b.path, "/bin/a");
    assert_eq!(b.load_base, 0x4000);
}
