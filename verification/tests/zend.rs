use pfp::offsets;
use pfp::remote::{ReadError, Remote};
use pfp::zend::{
    current_execute_data, ht_get_string, qualified_name, read_u32, read_u64, read_zend_string,
    Frame, StackWalker,
};
use std::sync::Arc;

#[test]
fn read_u64_helper_decodes_le() {
    let mut buf = [0u8; 64];
    buf[24..32].copy_from_slice(&0x_DEAD_BEEF_CAFE_BABE_u64.to_le_bytes());
    assert_eq!(read_u64(&buf, 24), 0x_DEAD_BEEF_CAFE_BABE);
}

#[test]
fn read_u32_helper_decodes_le() {
    let mut buf = [0u8; 32];
    buf[8..12].copy_from_slice(&0xAABB_CCDD_u32.to_le_bytes());
    assert_eq!(read_u32(&buf, 8), 0xAABB_CCDD);
}

/// A memory to reply from.
struct Memory {
    bytes: std::collections::BTreeMap<u64, u8>,
}

impl Memory {
    fn new() -> Self {
        Memory { bytes: Default::default() }
    }

    fn put(&mut self, addr: u64, b: &[u8]) {
        for (i, x) in b.iter().enumerate() {
            self.bytes.insert(addr + i as u64, *x);
        }
    }

    fn put_u64(&mut self, addr: u64, v: u64) {
        self.put(addr, &v.to_le_bytes());
    }

    fn put_u32(&mut self, addr: u64, v: u32) {
        self.put(addr, &v.to_le_bytes());
    }

    fn put_string(&mut self, addr: u64, s: &str) {
        self.put_u64(addr + 16, s.len() as u64);
        self.put(addr + 24, s.as_bytes());
    }

    fn zeros(&mut self, addr: u64, n: u64) {
        for i in 0..n {
            self.bytes.entry(addr + i).or_insert(0);
        }
    }

    fn reply(&self, addr: u64, len: usize) -> Option<Vec<u8>> {
        (0..len as u64).map(|i| self.bytes.get(&(addr + i)).copied()).collect()
    }

    /// Runs a computation again and again until it asks for nothing more.
    fn drive<T>(
        &self,
        rem: &mut Remote,
        mut f: impl FnMut(&Remote) -> Result<T, ReadError>,
    ) -> Result<T, ReadError> {
        loop {
            match f(rem) {
                Err(ReadError::Pending { addr, len }) => {
                    rem.supply(addr, len, self.reply(addr, len))
                }
                r => return r,
            }
        }
    }
}

#[test]
fn strings_are_read_by_length() {
    let mut mem = Memory::new();
    let mut rem = Remote::new(1);
    mem.put_string(0x100, "hello");
    mem.put_u64(0x210, 0);
    mem.put_u64(0x310, 10_000);
    mem.put(0x318, &[b'x'; 5000]);
    assert_eq!(mem.drive(&mut rem, |r| read_zend_string(r, 0x100)).unwrap(), "hello");
    assert_eq!(mem.drive(&mut rem, |r| read_zend_string(r, 0x200)).unwrap(), "");
    assert_eq!(mem.drive(&mut rem, |r| read_zend_string(r, 0x300)).unwrap().len(), 4096);
    assert!(mem.drive(&mut rem, |r| read_zend_string(r, 0x9000)).is_err());
}

/// A frame at `ex` of a function at `func`.
fn put_frame(mem: &mut Memory, ex: u64, opline: u64, func: u64, prev: u64) {
    mem.zeros(ex, 64);
    mem.put_u64(ex, opline);
    mem.put_u64(ex + 24, func);
    mem.put_u64(ex + 48, prev);
}

fn put_function(mem: &mut Memory, func: u64, kind: u8, name: u64, scope: u64, file: u64) {
    mem.zeros(func, 192);
    mem.put(func, &[kind]);
    mem.put_u64(func + 8, name);
    mem.put_u64(func + 16, scope);
    mem.put_u64(func + 144, file);
    mem.put_u32(func + 152, 77);
}

fn read_one(
    mem: &Memory,
    walker: &mut StackWalker,
    ex: u64,
) -> Result<(Frame, u64), ReadError> {
    let mut rem = Remote::new(1);
    let layout = offsets::layout_8_3();
    mem.drive(&mut rem, |r| walker.read_frame(r, ex, &layout))
}

#[test]
fn a_user_method_is_read_in_full() {
    let mut mem = Memory::new();
    put_frame(&mut mem, 0x1000, 0x5000, 0x2000, 0x1100);
    put_function(&mut mem, 0x2000, 2, 0x3000, 0x4000, 0x3100);
    mem.put_string(0x3000, "level1");
    mem.put_string(0x3100, "/t.php");
    mem.put_string(0x3200, "Worker");
    mem.put_u64(0x4008, 0x3200);
    mem.put_u32(0x5018, 10);
    let mut walker = StackWalker::new();
    let (f, prev) = read_one(&mem, &mut walker, 0x1000).unwrap();
    assert_eq!(&*f.function, "level1");
    assert_eq!(f.class.as_deref(), Some("Worker"));
    assert_eq!(f.file.as_deref(), Some("/t.php"));
    assert_eq!(f.line, 10);
    assert_eq!(prev, 0x1100);
    assert_eq!(qualified_name(&f), "Worker::level1");
    // The strings are remembered: the memory behind them is not read again.
    mem.put_string(0x3000, "other!");
    let (f, _) = read_one(&mem, &mut walker, 0x1000).unwrap();
    assert_eq!(&*f.function, "level1");
    let (f, _) = read_one(&mem, &mut StackWalker::default(), 0x1000).unwrap();
    assert_eq!(&*f.function, "other!");
    // Where the line cannot be read, it is where the function starts.
    put_frame(&mut mem, 0x1000, 0x7777_0000, 0x2000, 0);
    assert_eq!(read_one(&mem, &mut walker, 0x1000).unwrap().0.line, 77);
    put_frame(&mut mem, 0x1000, 0, 0x2000, 0);
    assert_eq!(read_one(&mem, &mut walker, 0x1000).unwrap().0.line, 77);
}

#[test]
fn internal_main_and_unknown_frames() {
    let mut mem = Memory::new();
    let mut walker = StackWalker::new();
    put_frame(&mut mem, 0x1000, 0x5000, 0x2000, 0);
    put_function(&mut mem, 0x2000, 1, 0x3000, 0, 0);
    mem.put_string(0x3000, "usleep");
    let (f, prev) = read_one(&mem, &mut walker, 0x1000).unwrap();
    assert_eq!(&*f.function, "usleep");
    assert_eq!(f.class, None);
    assert_eq!(f.file.as_deref(), Some("<internal>"));
    assert_eq!((f.line, prev), (0, 0));
    put_function(&mut mem, 0x2000, 2, 0, 0, 0);
    put_frame(&mut mem, 0x1000, 0, 0x2000, 0);
    let (f, _) = read_one(&mem, &mut walker, 0x1000).unwrap();
    assert_eq!(&*f.function, "{main}");
    assert_eq!(f.file, None);
    put_frame(&mut mem, 0x1000, 0, 0, 0x1234);
    let (f, prev) = read_one(&mem, &mut walker, 0x1000).unwrap();
    assert_eq!(&*f.function, "<unknown>");
    assert_eq!((f.class, f.file, f.line, prev), (None, None, 0, 0x1234));
    put_function(&mut mem, 0x2000, 4, 0, 0, 0);
    put_frame(&mut mem, 0x1000, 0, 0x2000, 0);
    assert_eq!(read_one(&mem, &mut walker, 0x1000).unwrap().0.file, None);
    // A frame whose function cannot be read fails.
    put_frame(&mut mem, 0x1000, 0, 0x8000, 0);
    assert!(read_one(&mem, &mut walker, 0x1000).is_err());
}

#[test]
fn the_running_frame_is_in_the_executor_globals() {
    let mut rem = Remote::new(1);
    rem.supply(0x1000 + 512, 8, Some(0x77u64.to_le_bytes().to_vec()));
    assert_eq!(current_execute_data(&rem, 0x1000, &offsets::layout_8_5()), Ok(0x77));
}

fn put_bucket(mem: &mut Memory, b: u64, tag: u32, value: u64, key: u64) {
    mem.put_u64(b, value);
    mem.put_u32(b + 8, tag);
    mem.put_u64(b + 24, key);
}

#[test]
fn tables_are_looked_up_by_key() {
    let mut mem = Memory::new();
    let mut rem = Remote::new(1);
    mem.put_u32(0x1018, 6);
    mem.put_u64(0x1010, 0x2000);
    for (i, k) in ["undef", "num", "str", "ref", "refnum"].iter().enumerate() {
        mem.put_string(0x3000 + 0x100 * i as u64, k);
    }
    mem.put_string(0x4000, "GET");
    mem.put_string(0x4100, "/index.php");
    // A reference to a string, and one to a number.
    mem.put_u64(0x5010, 0x4100);
    mem.put_u32(0x5018, 6);
    mem.put_u64(0x5110, 1);
    mem.put_u32(0x5118, 4);
    put_bucket(&mut mem, 0x2000, 0, 0x4000, 0x3000);
    put_bucket(&mut mem, 0x2020, 4, 1, 0x3100);
    put_bucket(&mut mem, 0x2040, 6, 0x4000, 0);
    put_bucket(&mut mem, 0x2060, 0x106, 0x4000, 0x3200);
    put_bucket(&mut mem, 0x2080, 10, 0x5000, 0x3300);
    put_bucket(&mut mem, 0x20a0, 10, 0x5100, 0x3400);
    let mut get = |key: &str| mem.drive(&mut rem, |r| ht_get_string(r, 0x1000, key));
    assert_eq!(get("undef"), Ok(None));
    assert_eq!(get("num"), Ok(None));
    assert_eq!(get("str"), Ok(Some("GET".to_string())));
    assert_eq!(get("ref"), Ok(Some("/index.php".to_string())));
    assert_eq!(get("refnum"), Ok(None));
    assert_eq!(get("missing"), Ok(None));
}

#[test]
fn tables_that_cannot_be_read() {
    let mut mem = Memory::new();
    let mut rem = Remote::new(1);
    assert!(mem.drive(&mut rem, |r| ht_get_string(r, 0x1000, "k")).is_err());
    rem.forget();
    mem.put_u32(0x1018, 1);
    mem.put_u64(0x1010, 0);
    assert_eq!(mem.drive(&mut rem, |r| ht_get_string(r, 0x1000, "k")), Ok(None));
    rem.forget();
    // A bucket that cannot be read is passed over.
    mem.put_u64(0x1010, 0x2000);
    assert_eq!(mem.drive(&mut rem, |r| ht_get_string(r, 0x1000, "k")), Ok(None));
}

#[test]
fn shared_strings_keep_their_text() {
    let f = Frame { function: Arc::from("f"), class: None, file: None, line: 0 };
    assert_eq!(qualified_name(&f), "f");
}
