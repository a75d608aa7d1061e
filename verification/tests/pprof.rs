use flate2::read::GzDecoder;
use pfp::pprof::PprofBuilder;
use pfp::zend::Frame;
use std::io::Read;
use std::sync::Arc;

fn frame(function: &str) -> Frame {
    Frame {
        class: None,
        function: Arc::from(function),
        file: Some(Arc::from("/t.php")),
        line: 1,
    }
}

#[test]
fn take_gzipped_emits_gzip_and_resets() {
    let mut b = PprofBuilder::new(1_000);
    assert!(b.is_empty());
    b.add(&[frame("a"), frame("b")]);
    assert!(!b.is_empty());

    let (bytes, start, end) = b.take_gzipped(2_000).unwrap();
    // gzip magic.
    assert_eq!(&bytes[..2], &[0x1f, 0x8b]);
    assert!(end >= start);
    // Window is reset: no samples carried over, and the window advances.
    assert!(b.is_empty());
    assert_eq!(b.window_start_nanos(), end);

    // A second window still produces a valid, independent profile.
    b.add(&[frame("c")]);
    let (bytes2, _, _) = b.take_gzipped(3_000).unwrap();
    assert_eq!(&bytes2[..2], &[0x1f, 0x8b]);
}

#[test]
fn a_profile_of_one_sample_byte_by_byte() {
    let mut b = PprofBuilder::new(5);
    b.add(&[frame("a")]);
    let (bytes, start, end) = b.take_profile(7);
    assert_eq!((start, end), (5, 7));
    let mut want: Vec<u8> = vec![0x0a, 4, 0x08, 4, 0x10, 3];
    want.extend_from_slice(&[0x12, 6, 0x0a, 1, 1, 0x12, 1, 1]);
    want.extend_from_slice(&[0x22, 8, 0x08, 1, 0x22, 4, 0x08, 1, 0x10, 1]);
    want.extend_from_slice(&[0x2a, 8, 0x08, 1, 0x10, 1, 0x18, 1, 0x20, 2]);
    want.extend_from_slice(&[0x32, 0, 0x32, 1, b'a']);
    want.extend_from_slice(b"\x32\x06/t.php\x32\x05count\x32\x07samples");
    want.extend_from_slice(&[0x48, 5, 0x50, 2]);
    assert_eq!(bytes, want);
}

#[test]
fn compressed_profiles_decompress() {
    let mut a = PprofBuilder::new(5);
    let mut b = PprofBuilder::new(5);
    for x in [&mut a, &mut b] {
        for _ in 0..300 {
            x.add(&[frame("inner"), frame("outer")]);
        }
        x.add(&[]);
    }
    let (plain, _, _) = a.take_profile(9);
    let (gz, _, _) = b.take_gzipped(9).unwrap();
    let mut out = Vec::new();
    GzDecoder::new(&gz[..]).read_to_end(&mut out).unwrap();
    assert_eq!(out, plain);
}

/// The fields of a message: tag, number, bytes.
fn fields(mut m: &[u8]) -> Vec<(u64, u64, Vec<u8>)> {
    fn varint(m: &mut &[u8]) -> u64 {
        let mut v = 0u64;
        let mut shift = 0;
        loop {
            let b = m[0];
            *m = &m[1..];
            v |= ((b & 0x7f) as u64) << shift;
            shift += 7;
            if b < 0x80 {
                return v;
            }
        }
    }
    let mut out = Vec::new();
    while !m.is_empty() {
        let key = varint(&mut m);
        if key % 8 == 0 {
            out.push((key / 8, varint(&mut m), Vec::new()));
        } else {
            let n = varint(&mut m) as usize;
            out.push((key / 8, 0, m[..n].to_vec()));
            m = &m[n..];
        }
    }
    out
}

#[test]
fn stacks_are_counted_and_read_back() {
    let mut b = PprofBuilder::new(0);
    let mut method = frame("run");
    method.class = Some(Arc::from("Worker"));
    method.line = 200;
    let mut internal = frame("usleep");
    internal.file = None;
    internal.line = 0;
    for _ in 0..130 {
        b.add(&[internal.clone(), method.clone()]);
    }
    b.add(&[method.clone()]);
    let (bytes, _, _) = b.take_profile(-3);
    let top = fields(&bytes);
    let of = |tag| top.iter().filter(|f| f.0 == tag).map(|f| f.2.clone()).collect::<Vec<_>>();
    let strings: Vec<String> =
        of(6).into_iter().map(|s| String::from_utf8(s).unwrap()).collect();
    assert_eq!(strings, ["", "usleep", "Worker::run", "/t.php", "count", "samples"]);
    // A missing file is the empty string.
    assert_eq!(fields(&of(5)[0]), [
        (1, 1, vec![]),
        (2, 1, vec![]),
        (3, 1, vec![]),
    ]);
    let samples = of(2);
    assert_eq!(samples.len(), 2);
    // 130 takes two bytes.
    assert_eq!(samples[0], [0x0a, 2, 1, 2, 0x12, 2, 0x82, 1]);
    assert_eq!(samples[1], [0x0a, 1, 2, 0x12, 1, 1]);
    assert_eq!(fields(&of(4)[1]), [(1, 2, vec![]), (4, 0, vec![0x08, 2, 0x10, 0xc8, 1])]);
    // Time that runs backwards lasts zero, and zeros are not written.
    assert!(of(9).is_empty() && of(10).is_empty());
    assert_eq!(b.window_start_nanos(), -3);
}

#[test]
fn negative_times_are_written_modulo_two_to_the_sixty_four() {
    let mut b = PprofBuilder::new(-1);
    let (bytes, _, _) = b.take_profile(0);
    let top = fields(&bytes);
    assert!(top.contains(&(9, u64::MAX, vec![])));
    assert!(top.contains(&(10, 1, vec![])));
}

#[test]
fn counts_add_up_to_the_stacks_added() {
    let mut b = PprofBuilder::new(0);
    let mut other_line = frame("a");
    other_line.line = 2;
    b.add(&[frame("a"), frame("b")]);
    b.add(&[frame("a"), frame("b")]);
    b.add(&[frame("b"), frame("a")]);
    b.add(&[other_line]);
    b.add(&[]);
    let (bytes, _, _) = b.take_profile(1);
    let top = fields(&bytes);
    let samples: Vec<Vec<u8>> =
        top.iter().filter(|f| f.0 == 2).map(|f| f.2.clone()).collect();
    assert_eq!(samples, [
        vec![0x0a, 2, 1, 2, 0x12, 1, 2],
        vec![0x0a, 2, 2, 1, 0x12, 1, 1],
        vec![0x0a, 1, 3, 0x12, 1, 1],
        vec![0x12, 1, 1],
    ]);
    assert_eq!(samples.iter().map(|s| *s.last().unwrap()).sum::<u8>(), 5);
    // An empty stack is a sample too.
    b.add(&[]);
    assert!(!b.is_empty());
}
