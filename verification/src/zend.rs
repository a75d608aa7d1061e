//! Typed reads of Zend VM structures.
//!
//! Each frame costs two reads of fixed size, one of the execute data and one
//! of the function, plus lookups of strings, which [`StackWalker`] caches.

use crate::offsets;
use crate::offsets::VersionLayout;
use crate::remote;
use crate::remote::{Memory, ReadError, Remote};
use crate::text;
use std::collections::HashMap;
use std::sync::Arc;
use vstd::prelude::*;
use vstd::slice::slice_subrange;

verus! {

broadcast use vstd::std_specs::hash::group_hash_axioms;

/// The longest string that is read; of a longer one, its start.
pub const MAX_STR_LEN: u64 = 4096;

/// How many strings a walker remembers at most.
pub const CACHE_LIMIT: usize = 8192;

/// How many buckets of a hash table are looked at, at most.
pub const MAX_BUCKETS: u64 = 4096;

// Frames

/// The text that a shared string holds.
pub open spec fn text_of(s: Arc<str>) -> Seq<char> {
    (*s)@
}

/// The text of an optional shared string.
pub open spec fn opt_text(s: Option<Arc<str>>) -> Option<Seq<char>> {
    match s {
        Some(t) => Some(text_of(t)),
        None => None,
    }
}

/// `Arc::<str>::from` holds the text that it is made from.
#[verifier::external_body]
pub(crate) fn shared(s: &str) -> (r: Arc<str>)
    ensures
        text_of(r) == s@,
{
    Arc::from(s)
}

/// One call on the stack.
#[derive(Clone)]
pub struct Frame {
    pub function: Arc<str>,
    pub class: Option<Arc<str>>,
    pub file: Option<Arc<str>>,
    pub line: u32,
}

/// What a [`Frame`] says.
#[verifier::ext_equal]
pub struct FrameView {
    pub function: Seq<char>,
    pub class: Option<Seq<char>>,
    pub file: Option<Seq<char>>,
    pub line: u32,
}

impl View for Frame {
    type V = FrameView;

    open spec fn view(&self) -> FrameView {
        FrameView {
            function: text_of(self.function),
            class: opt_text(self.class),
            file: opt_text(self.file),
            line: self.line,
        }
    }
}

/// What the frames of a stack say.
pub open spec fn frames_view(frames: Seq<Frame>) -> Seq<FrameView> {
    Seq::new(frames.len(), |i: int| frames[i]@)
}

/// The name that a frame goes by: `Class::function`, or the bare function.
pub open spec fn qualified(f: FrameView) -> Seq<char> {
    match f.class {
        Some(c) => c + "::"@ + f.function,
        None => f.function,
    }
}

/// Writes the name that a frame goes by.
pub fn qualified_name(f: &Frame) -> (r: String)
    ensures
        r@ == qualified(f@),
{
    let mut out = String::new();
    if let Some(c) = &f.class {
        out.append(&**c);
        out.append("::");
    }
    out.append(&*f.function);
    assert(out@ =~= qualified(f@));
    out
}

// Fields of a buffer

/// The 64-bit field at an offset of a buffer.
pub open spec fn field64(b: Seq<u8>, off: int) -> u64 {
    remote::le64(b.skip(off))
}

/// The 32-bit field at an offset of a buffer.
pub open spec fn field32(b: Seq<u8>, off: int) -> u32 {
    remote::le32(b.skip(off))
}

pub fn read_u64(buf: &[u8], off: u64) -> (r: u64)
    requires
        off + 8 <= buf@.len(),
    ensures
        r == field64(buf@, off as int),
{
    let tail = slice_subrange(buf, off as usize, buf.len());
    assert(tail@ == buf@.skip(off as int));
    remote::u64_from_le(tail)
}

pub fn read_u32(buf: &[u8], off: u64) -> (r: u32)
    requires
        off + 4 <= buf@.len(),
    ensures
        r == field32(buf@, off as int),
{
    let tail = slice_subrange(buf, off as usize, buf.len());
    assert(tail@ == buf@.skip(off as int));
    remote::u32_from_le(tail)
}

// Strings

/// Whether an outcome still waits for a reply.
pub open spec fn pending<T>(r: Result<T, ReadError>) -> bool {
    r matches Err(ReadError::Pending { .. })
}

/// A value, with zero in place of a failed read.
pub open spec fn or_zero32(r: Result<u32, ReadError>) -> Result<u32, ReadError> {
    match r {
        Err(ReadError::Failed { .. }) => Ok(0),
        _ => r,
    }
}

/// A value, with zero in place of a failed read.
pub open spec fn or_zero64(r: Result<u64, ReadError>) -> Result<u64, ReadError> {
    match r {
        Err(ReadError::Failed { .. }) => Ok(0),
        _ => r,
    }
}

fn zero_if_failed32(r: Result<u32, ReadError>) -> (v: Result<u32, ReadError>)
    ensures
        v == or_zero32(r),
{
    match r {
        Err(ReadError::Failed { .. }) => Ok(0),
        _ => r,
    }
}

fn zero_if_failed64(r: Result<u64, ReadError>) -> (v: Result<u64, ReadError>)
    ensures
        v == or_zero64(r),
{
    match r {
        Err(ReadError::Failed { .. }) => Ok(0),
        _ => r,
    }
}

/// How many bytes of a string of the given length are read.
pub open spec fn read_len(n: u64) -> usize {
    if n < MAX_STR_LEN {
        n as usize
    } else {
        MAX_STR_LEN as usize
    }
}

/// The text of the `zend_string` at an address.
pub open spec fn zend_string_at(mem: Memory, addr: u64) -> Result<Seq<char>, ReadError> {
    match remote::fetch_u64(mem, addr.wrapping_add(offsets::ZSTR_LEN)) {
        Err(e) => Err(e),
        Ok(n) => if n == 0 {
            Ok(Seq::empty())
        } else {
            match remote::fetch(mem, addr.wrapping_add(offsets::ZSTR_VAL), read_len(n)) {
                Err(e) => Err(e),
                Ok(b) => Ok(text::utf8_lossy(b)),
            }
        },
    }
}

pub fn read_zend_string(rem: &Remote, addr: u64) -> (r: Result<String, ReadError>)
    ensures
        match r {
            Ok(s) => zend_string_at(rem@, addr) == Ok::<Seq<char>, ReadError>(s@),
            Err(e) => zend_string_at(rem@, addr) == Err::<Seq<char>, ReadError>(e),
        },
{
    let n: u64 = match rem.read_u64(addr.wrapping_add(offsets::ZSTR_LEN)) {
        Ok(n) => n,
        Err(e) => return Err(e),
    };
    if n == 0 {
        let none = String::new();
        assert(none@ == Seq::<char>::empty());
        return Ok(none);
    }
    let len: usize = if n < MAX_STR_LEN {
        n as usize
    } else {
        MAX_STR_LEN as usize
    };
    match rem.read_vec(addr.wrapping_add(offsets::ZSTR_VAL), len) {
        Ok(b) => Ok(text::decode_lossy(b.as_slice())),
        Err(e) => Err(e),
    }
}

/// The strings that a walker remembers, by address.
pub type Cache = Map<u64, Seq<char>>;

/// The text of a string that may be remembered, and what is remembered then.
pub open spec fn cached_string(cache: Cache, mem: Memory, addr: u64) -> (
    Result<Seq<char>, ReadError>,
    Cache,
) {
    if cache.dom().contains(addr) {
        (Ok(cache[addr]), cache)
    } else {
        match zend_string_at(mem, addr) {
            Err(e) => (Err(e), cache),
            Ok(s) => (
                Ok(s),
                if cache.len() < CACHE_LIMIT {
                    cache.insert(addr, s)
                } else {
                    cache
                },
            ),
        }
    }
}

// One frame

/// The name of a function, given the address of its name.
pub open spec fn function_name(cache: Cache, mem: Memory, name: u64) -> (
    Result<Seq<char>, ReadError>,
    Cache,
) {
    if name == 0 {
        (Ok("{main}"@), cache)
    } else {
        cached_string(cache, mem, name)
    }
}

/// The text of a string that may be absent.
pub open spec fn optional_string(cache: Cache, mem: Memory, addr: u64) -> (
    Result<Option<Seq<char>>, ReadError>,
    Cache,
) {
    if addr == 0 {
        (Ok(None), cache)
    } else {
        let (s, after) = cached_string(cache, mem, addr);
        match s {
            Ok(s) => (Ok(Some(s)), after),
            Err(e) => (Err(e), after),
        }
    }
}

/// The name of the class that a function belongs to, given the class entry.
pub open spec fn class_name(cache: Cache, mem: Memory, scope: u64) -> (
    Result<Option<Seq<char>>, ReadError>,
    Cache,
) {
    if scope == 0 {
        (Ok(None), cache)
    } else {
        match remote::fetch_u64(mem, scope.wrapping_add(offsets::CE_NAME)) {
            Err(e) => (Err(e), cache),
            Ok(name) => optional_string(cache, mem, name),
        }
    }
}

/// The file that a function is from.
pub open spec fn file_name(cache: Cache, mem: Memory, func: Seq<u8>, layout: VersionLayout) -> (
    Result<Option<Seq<char>>, ReadError>,
    Cache,
) {
    if func[0] == offsets::TYPE_USER {
        optional_string(cache, mem, field64(func, layout.op_array_filename as int))
    } else if func[0] == offsets::TYPE_INTERNAL {
        (Ok(Some("<internal>"@)), cache)
    } else {
        (Ok(None), cache)
    }
}

/// The line that a frame is at: that of the running instruction of a user
/// function, or where the function starts if there is none.
pub open spec fn line_number(
    mem: Memory,
    opline: u64,
    func: Seq<u8>,
    layout: VersionLayout,
) -> Result<u32, ReadError> {
    if func[0] != offsets::TYPE_USER {
        Ok(0)
    } else {
        let at = if opline == 0 {
            Ok(0)
        } else {
            or_zero32(remote::fetch_u32(mem, opline.wrapping_add(offsets::OP_LINENO)))
        };
        match at {
            Err(e) => Err(e),
            Ok(line) => if line == 0 {
                Ok(field32(func, layout.op_array_line_start as int))
            } else {
                Ok(line)
            },
        }
    }
}

/// The frame of a function, with the address of the frame before it.
pub open spec fn called_frame(
    cache: Cache,
    mem: Memory,
    ex: Seq<u8>,
    func: Seq<u8>,
    layout: VersionLayout,
) -> (Result<(FrameView, u64), ReadError>, Cache) {
    let (function, cache1) = function_name(
        cache,
        mem,
        field64(func, offsets::FUNC_FUNCTION_NAME as int),
    );
    match function {
        Err(e) => (Err(e), cache1),
        Ok(function) => {
            let (class, cache2) = class_name(
                cache1,
                mem,
                field64(func, offsets::FUNC_SCOPE as int),
            );
            match class {
                Err(e) => (Err(e), cache2),
                Ok(class) => {
                    let (file, cache3) = file_name(cache2, mem, func, layout);
                    match file {
                        Err(e) => (Err(e), cache3),
                        Ok(file) => match line_number(
                            mem,
                            field64(ex, offsets::EX_OPLINE as int),
                            func,
                            layout,
                        ) {
                            Err(e) => (Err(e), cache3),
                            Ok(line) => (
                                Ok(
                                    (
                                        FrameView { function, class, file, line },
                                        field64(ex, offsets::EX_PREV_EXECUTE_DATA as int),
                                    ),
                                ),
                                cache3,
                            ),
                        },
                    }
                },
            }
        },
    }
}

/// The frame at an address, with the address of the frame before it, and what
/// the walker remembers after reading it.
pub open spec fn frame_at(cache: Cache, mem: Memory, addr: u64, layout: VersionLayout) -> (
    Result<(FrameView, u64), ReadError>,
    Cache,
) {
    match remote::fetch(mem, addr, offsets::EX_BUF) {
        Err(e) => (Err(e), cache),
        Ok(ex) => {
            let func_ptr = field64(ex, offsets::EX_FUNC as int);
            if func_ptr == 0 {
                (
                    Ok(
                        (
                            FrameView {
                                function: "<unknown>"@,
                                class: None,
                                file: None,
                                line: 0,
                            },
                            field64(ex, offsets::EX_PREV_EXECUTE_DATA as int),
                        ),
                    ),
                    cache,
                )
            } else {
                match remote::fetch(mem, func_ptr, offsets::FUNC_BUF) {
                    Err(e) => (Err(e), cache),
                    Ok(func) => called_frame(cache, mem, ex, func, layout),
                }
            }
        },
    }
}

/// The address of the frame that is running.
pub fn current_execute_data(rem: &Remote, eg_addr: u64, layout: &VersionLayout) -> (r: Result<
    u64,
    ReadError,
>)
    ensures
        r == remote::fetch_u64(rem@, eg_addr.wrapping_add(layout.eg_current_execute_data)),
{
    rem.read_u64(eg_addr.wrapping_add(layout.eg_current_execute_data))
}

/// Reads frames, and remembers the strings it has read: function names, file
/// names and class names. What is remembered is shared rather than copied.
pub struct StackWalker {
    string_cache: HashMap<u64, Arc<str>>,
    intern_main: Arc<str>,
    intern_internal: Arc<str>,
    intern_unknown: Arc<str>,
}

impl View for StackWalker {
    type V = Cache;

    closed spec fn view(&self) -> Cache {
        self.string_cache@.map_values(|s: Arc<str>| text_of(s))
    }
}

impl StackWalker {
    #[verifier::type_invariant]
    spec fn well_formed(self) -> bool {
        &&& text_of(self.intern_main) == "{main}"@
        &&& text_of(self.intern_internal) == "<internal>"@
        &&& text_of(self.intern_unknown) == "<unknown>"@
    }

    pub fn new() -> (r: Self)
        ensures
            r@ == Cache::empty(),
    {
        let r = Self {
            string_cache: HashMap::with_capacity(256),
            intern_main: shared("{main}"),
            intern_internal: shared("<internal>"),
            intern_unknown: shared("<unknown>"),
        };
        assert(r@ =~= Cache::empty());
        r
    }

    fn read_zstring_cached(&mut self, rem: &Remote, addr: u64) -> (r: Result<Arc<str>, ReadError>)
        ensures
            final(self)@ == cached_string(old(self)@, rem@, addr).1,
            match r {
                Ok(s) => cached_string(old(self)@, rem@, addr).0 == Ok::<Seq<char>, ReadError>(
                    text_of(s),
                ),
                Err(e) => cached_string(old(self)@, rem@, addr).0 == Err::<Seq<char>, ReadError>(e),
            },
    {
        proof {
            use_type_invariant(&*self);
        }
        if let Some(s) = self.string_cache.get(&addr) {
            return Ok(Arc::clone(s));
        }
        let s: Arc<str> = match read_zend_string(rem, addr) {
            Ok(s) => shared(s.as_str()),
            Err(e) => return Err(e),
        };
        proof {
            assert(self@.dom() =~= self.string_cache@.dom());
        }
        if self.string_cache.len() < CACHE_LIMIT {
            let mut cache: HashMap<u64, Arc<str>> = HashMap::new();
            std::mem::swap(&mut cache, &mut self.string_cache);
            cache.insert(addr, Arc::clone(&s));
            self.string_cache = cache;
            assert(self@ =~= old(self)@.insert(addr, text_of(s)));
        }
        Ok(s)
    }

    fn read_optional(&mut self, rem: &Remote, addr: u64) -> (r: Result<Option<Arc<str>>, ReadError>)
        ensures
            final(self)@ == optional_string(old(self)@, rem@, addr).1,
            match r {
                Ok(s) => optional_string(old(self)@, rem@, addr).0 == Ok::<
                    Option<Seq<char>>,
                    ReadError,
                >(opt_text(s)),
                Err(e) => optional_string(old(self)@, rem@, addr).0 == Err::<
                    Option<Seq<char>>,
                    ReadError,
                >(e),
            },
    {
        if addr == 0 {
            return Ok(None);
        }
        match self.read_zstring_cached(rem, addr) {
            Ok(s) => Ok(Some(s)),
            Err(e) => Err(e),
        }
    }

    fn read_function(&mut self, rem: &Remote, name: u64) -> (r: Result<Arc<str>, ReadError>)
        ensures
            final(self)@ == function_name(old(self)@, rem@, name).1,
            match r {
                Ok(s) => function_name(old(self)@, rem@, name).0 == Ok::<Seq<char>, ReadError>(
                    text_of(s),
                ),
                Err(e) => function_name(old(self)@, rem@, name).0 == Err::<Seq<char>, ReadError>(e),
            },
    {
        if name == 0 {
            proof {
                use_type_invariant(&*self);
            }
            return Ok(Arc::clone(&self.intern_main));
        }
        self.read_zstring_cached(rem, name)
    }

    fn read_class(&mut self, rem: &Remote, scope: u64) -> (r: Result<Option<Arc<str>>, ReadError>)
        ensures
            final(self)@ == class_name(old(self)@, rem@, scope).1,
            match r {
                Ok(s) => class_name(old(self)@, rem@, scope).0 == Ok::<
                    Option<Seq<char>>,
                    ReadError,
                >(opt_text(s)),
                Err(e) => class_name(old(self)@, rem@, scope).0 == Err::<
                    Option<Seq<char>>,
                    ReadError,
                >(e),
            },
    {
        if scope == 0 {
            return Ok(None);
        }
        match rem.read_u64(scope.wrapping_add(offsets::CE_NAME)) {
            Ok(name) => self.read_optional(rem, name),
            Err(e) => Err(e),
        }
    }

    fn read_file(&mut self, rem: &Remote, func: &[u8], layout: &VersionLayout) -> (r: Result<
        Option<Arc<str>>,
        ReadError,
    >)
        requires
            func@.len() == offsets::FUNC_BUF,
            layout.fits(),
        ensures
            final(self)@ == file_name(old(self)@, rem@, func@, *layout).1,
            match r {
                Ok(s) => file_name(old(self)@, rem@, func@, *layout).0 == Ok::<
                    Option<Seq<char>>,
                    ReadError,
                >(opt_text(s)),
                Err(e) => file_name(old(self)@, rem@, func@, *layout).0 == Err::<
                    Option<Seq<char>>,
                    ReadError,
                >(e),
            },
    {
        if func[0] == offsets::TYPE_USER {
            let name = read_u64(func, layout.op_array_filename);
            self.read_optional(rem, name)
        } else if func[0] == offsets::TYPE_INTERNAL {
            proof {
                use_type_invariant(&*self);
            }
            Ok(Some(Arc::clone(&self.intern_internal)))
        } else {
            Ok(None)
        }
    }

    /// Reads one frame. Returns it with the address of the frame before it.
    pub fn read_frame(&mut self, rem: &Remote, ex_addr: u64, layout: &VersionLayout) -> (r: Result<
        (Frame, u64),
        ReadError,
    >)
        requires
            layout.fits(),
        ensures
            final(self)@ == frame_at(old(self)@, rem@, ex_addr, *layout).1,
            match r {
                Ok((frame, prev)) => frame_at(old(self)@, rem@, ex_addr, *layout).0 == Ok::<
                    (FrameView, u64),
                    ReadError,
                >((frame@, prev)),
                Err(e) => frame_at(old(self)@, rem@, ex_addr, *layout).0 == Err::<
                    (FrameView, u64),
                    ReadError,
                >(e),
            },
    {
        let ex = match rem.read_vec(ex_addr, offsets::EX_BUF) {
            Ok(b) => b,
            Err(e) => return Err(e),
        };
        let opline = read_u64(ex.as_slice(), offsets::EX_OPLINE);
        let func_ptr = read_u64(ex.as_slice(), offsets::EX_FUNC);
        let prev = read_u64(ex.as_slice(), offsets::EX_PREV_EXECUTE_DATA);
        if func_ptr == 0 {
            proof {
                use_type_invariant(&*self);
            }
            let frame = Frame {
                function: Arc::clone(&self.intern_unknown),
                class: None,
                file: None,
                line: 0,
            };
            return Ok((frame, prev));
        }
        let func = match rem.read_vec(func_ptr, offsets::FUNC_BUF) {
            Ok(b) => b,
            Err(e) => return Err(e),
        };
        let name_ptr = read_u64(func.as_slice(), offsets::FUNC_FUNCTION_NAME);
        let scope_ptr = read_u64(func.as_slice(), offsets::FUNC_SCOPE);
        let function = match self.read_function(rem, name_ptr) {
            Ok(s) => s,
            Err(e) => return Err(e),
        };
        let class = match self.read_class(rem, scope_ptr) {
            Ok(s) => s,
            Err(e) => return Err(e),
        };
        let file = match self.read_file(rem, func.as_slice(), layout) {
            Ok(s) => s,
            Err(e) => return Err(e),
        };
        let line = match read_line(rem, opline, func.as_slice(), layout) {
            Ok(line) => line,
            Err(e) => return Err(e),
        };
        Ok((Frame { function, class, file, line }, prev))
    }
}

impl Default for StackWalker {
    fn default() -> (r: Self)
        ensures
            r@ == Cache::empty(),
    {
        Self::new()
    }
}

fn read_line(rem: &Remote, opline: u64, func: &[u8], layout: &VersionLayout) -> (r: Result<
    u32,
    ReadError,
>)
    requires
        func@.len() == offsets::FUNC_BUF,
        layout.fits(),
    ensures
        r == line_number(rem@, opline, func@, *layout),
{
    if func[0] != offsets::TYPE_USER {
        return Ok(0);
    }
    let line: u32 = if opline == 0 {
        0
    } else {
        match zero_if_failed32(rem.read_u32(opline.wrapping_add(offsets::OP_LINENO))) {
            Ok(line) => line,
            Err(e) => return Err(e),
        }
    };
    if line == 0 {
        Ok(read_u32(func, layout.op_array_line_start))
    } else {
        Ok(line)
    }
}

// Hash tables

/// The type tag that a `type_info` word holds.
pub open spec fn tag_of(type_info: u32) -> u8 {
    (type_info % 256) as u8
}

/// The string that the zval at an address points to.
pub open spec fn string_value(mem: Memory, zval: u64) -> Result<Option<Seq<char>>, ReadError> {
    match remote::fetch_u64(mem, zval.wrapping_add(offsets::ZVAL_VALUE)) {
        Err(e) => Err(e),
        Ok(s) => match zend_string_at(mem, s) {
            Err(e) => Err(e),
            Ok(s) => Ok(Some(s)),
        },
    }
}

/// What a reference refers to, if it is a string.
pub open spec fn referred_string(mem: Memory, zval: u64) -> Result<Option<Seq<char>>, ReadError> {
    match remote::fetch_u64(mem, zval.wrapping_add(offsets::ZVAL_VALUE)) {
        Err(e) => Err(e),
        Ok(r) => if r == 0 {
            Ok(None)
        } else {
            let inner = r.wrapping_add(offsets::REFERENCE_VAL);
            match or_zero32(
                remote::fetch_u32(mem, inner.wrapping_add(offsets::ZVAL_TYPE_INFO)),
            ) {
                Err(e) => Err(e),
                Ok(type_info) => if tag_of(type_info) == offsets::IS_STRING {
                    string_value(mem, inner)
                } else {
                    Ok(None)
                },
            }
        },
    }
}

/// What one bucket of a table says of a key: `None` if it is of another key or
/// of none, else the string under the key, if there is one.
pub open spec fn bucket_string(mem: Memory, bucket: u64, key: Seq<char>) -> Result<
    Option<Option<Seq<char>>>,
    ReadError,
> {
    let zval = bucket.wrapping_add(offsets::BUCKET_VAL);
    match or_zero32(remote::fetch_u32(mem, zval.wrapping_add(offsets::ZVAL_TYPE_INFO))) {
        Err(e) => Err(e),
        Ok(type_info) => if tag_of(type_info) == offsets::IS_UNDEF {
            Ok(None)
        } else {
            match bucket_has_key(mem, bucket, key) {
                Err(e) => Err(e),
                Ok(false) => Ok(None),
                Ok(true) => {
                    let value = if tag_of(type_info) == offsets::IS_REFERENCE {
                        referred_string(mem, zval)
                    } else if tag_of(type_info) == offsets::IS_STRING {
                        string_value(mem, zval)
                    } else {
                        Ok(None)
                    };
                    match value {
                        Err(e) => Err(e),
                        Ok(s) => Ok(Some(s)),
                    }
                },
            }
        },
    }
}

/// Whether a bucket has the given key. A key that cannot be read is another.
pub open spec fn bucket_has_key(mem: Memory, bucket: u64, key: Seq<char>) -> Result<
    bool,
    ReadError,
> {
    match or_zero64(remote::fetch_u64(mem, bucket.wrapping_add(offsets::BUCKET_KEY))) {
        Err(e) => Err(e),
        Ok(key_ptr) => if key_ptr == 0 {
            Ok(false)
        } else {
            match zend_string_at(mem, key_ptr) {
                Ok(k) => Ok(k == key),
                Err(ReadError::Failed { .. }) => Ok(false),
                Err(e) => Err(e),
            }
        },
    }
}

/// The address of a bucket of a table.
pub open spec fn bucket_at(ar_data: u64, i: u64) -> u64 {
    ar_data.wrapping_add((i * offsets::BUCKET_SIZE) as u64)
}

/// How many buckets of a table with `n_used` are looked at.
pub open spec fn bucket_limit(n_used: u32) -> u64 {
    if n_used < MAX_BUCKETS {
        n_used as u64
    } else {
        MAX_BUCKETS
    }
}

/// The string under a key in the buckets from index `i` on, the first bucket
/// that has the key deciding.
pub open spec fn string_in_buckets(
    mem: Memory,
    ar_data: u64,
    i: u64,
    limit: u64,
    key: Seq<char>,
) -> Result<Option<Seq<char>>, ReadError>
    decreases limit - i,
{
    if i >= limit {
        Ok(None)
    } else {
        match bucket_string(mem, bucket_at(ar_data, i), key) {
            Err(e) => Err(e),
            Ok(Some(s)) => Ok(s),
            Ok(None) => string_in_buckets(mem, ar_data, (i + 1) as u64, limit, key),
        }
    }
}

/// The string under a key in the hash table at an address.
pub open spec fn string_in_table(mem: Memory, ht_addr: u64, key: Seq<char>) -> Result<
    Option<Seq<char>>,
    ReadError,
> {
    match remote::fetch_u32(mem, ht_addr.wrapping_add(offsets::HT_N_NUM_USED)) {
        Err(e) => Err(e),
        Ok(n_used) => match remote::fetch_u64(mem, ht_addr.wrapping_add(offsets::HT_AR_DATA)) {
            Err(e) => Err(e),
            Ok(ar_data) => if ar_data == 0 {
                Ok(None)
            } else {
                string_in_buckets(mem, ar_data, 0, bucket_limit(n_used), key)
            },
        },
    }
}

fn read_string_value(rem: &Remote, zval: u64) -> (r: Result<Option<String>, ReadError>)
    ensures
        match r {
            Ok(s) => string_value(rem@, zval) == Ok::<Option<Seq<char>>, ReadError>(
                text::opt_string(s),
            ),
            Err(e) => string_value(rem@, zval) == Err::<Option<Seq<char>>, ReadError>(e),
        },
{
    match rem.read_u64(zval.wrapping_add(offsets::ZVAL_VALUE)) {
        Ok(s) => match read_zend_string(rem, s) {
            Ok(s) => Ok(Some(s)),
            Err(e) => Err(e),
        },
        Err(e) => Err(e),
    }
}

fn read_referred_string(rem: &Remote, zval: u64) -> (r: Result<Option<String>, ReadError>)
    ensures
        match r {
            Ok(s) => referred_string(rem@, zval) == Ok::<Option<Seq<char>>, ReadError>(
                text::opt_string(s),
            ),
            Err(e) => referred_string(rem@, zval) == Err::<Option<Seq<char>>, ReadError>(e),
        },
{
    let r: u64 = match rem.read_u64(zval.wrapping_add(offsets::ZVAL_VALUE)) {
        Ok(r) => r,
        Err(e) => return Err(e),
    };
    if r == 0 {
        return Ok(None);
    }
    let inner: u64 = r.wrapping_add(offsets::REFERENCE_VAL);
    match zero_if_failed32(rem.read_u32(inner.wrapping_add(offsets::ZVAL_TYPE_INFO))) {
        Ok(type_info) => if (type_info % 256) as u8 == offsets::IS_STRING {
            read_string_value(rem, inner)
        } else {
            Ok(None)
        },
        Err(e) => Err(e),
    }
}

/// Whether the bucket at an address has the given key.
pub fn has_key(rem: &Remote, bucket: u64, key: &str) -> (r: Result<bool, ReadError>)
    ensures
        r == bucket_has_key(rem@, bucket, key@),
{
    let key_ptr: u64 = match zero_if_failed64(
        rem.read_u64(bucket.wrapping_add(offsets::BUCKET_KEY)),
    ) {
        Ok(p) => p,
        Err(e) => return Err(e),
    };
    if key_ptr == 0 {
        return Ok(false);
    }
    match read_zend_string(rem, key_ptr) {
        Ok(k) => Ok(text::same_text(k.as_str(), key)),
        Err(ReadError::Failed { .. }) => Ok(false),
        Err(e) => Err(e),
    }
}

fn read_bucket(rem: &Remote, bucket: u64, key: &str) -> (r: Result<
    Option<Option<String>>,
    ReadError,
>)
    ensures
        match r {
            Ok(Some(s)) => bucket_string(rem@, bucket, key@) == Ok::<
                Option<Option<Seq<char>>>,
                ReadError,
            >(Some(text::opt_string(s))),
            Ok(None) => bucket_string(rem@, bucket, key@) == Ok::<
                Option<Option<Seq<char>>>,
                ReadError,
            >(None),
            Err(e) => bucket_string(rem@, bucket, key@) == Err::<
                Option<Option<Seq<char>>>,
                ReadError,
            >(e),
        },
{
    let zval: u64 = bucket.wrapping_add(offsets::BUCKET_VAL);
    let type_info: u32 = match zero_if_failed32(
        rem.read_u32(zval.wrapping_add(offsets::ZVAL_TYPE_INFO)),
    ) {
        Ok(t) => t,
        Err(e) => return Err(e),
    };
    let tag: u8 = (type_info % 256) as u8;
    if tag == offsets::IS_UNDEF {
        return Ok(None);
    }
    match has_key(rem, bucket, key) {
        Ok(true) => {},
        Ok(false) => return Ok(None),
        Err(e) => return Err(e),
    }
    let value = if tag == offsets::IS_REFERENCE {
        read_referred_string(rem, zval)
    } else if tag == offsets::IS_STRING {
        read_string_value(rem, zval)
    } else {
        Ok(None)
    };
    match value {
        Ok(s) => Ok(Some(s)),
        Err(e) => Err(e),
    }
}

/// Looks a key up in the hash table at an address. The answer is the string
/// under the key; `None` if the key is not there or its value is no string.
pub fn ht_get_string(rem: &Remote, ht_addr: u64, want_key: &str) -> (r: Result<
    Option<String>,
    ReadError,
>)
    ensures
        match r {
            Ok(s) => string_in_table(rem@, ht_addr, want_key@) == Ok::<
                Option<Seq<char>>,
                ReadError,
            >(text::opt_string(s)),
            Err(e) => string_in_table(rem@, ht_addr, want_key@) == Err::<
                Option<Seq<char>>,
                ReadError,
            >(e),
        },
{
    let n_used: u32 = match rem.read_u32(ht_addr.wrapping_add(offsets::HT_N_NUM_USED)) {
        Ok(n) => n,
        Err(e) => return Err(e),
    };
    let ar_data: u64 = match rem.read_u64(ht_addr.wrapping_add(offsets::HT_AR_DATA)) {
        Ok(p) => p,
        Err(e) => return Err(e),
    };
    if ar_data == 0 {
        return Ok(None);
    }
    let limit: u64 = if (n_used as u64) < MAX_BUCKETS {
        n_used as u64
    } else {
        MAX_BUCKETS
    };
    let mut i: u64 = 0;
    while i < limit
        invariant
            i <= limit <= MAX_BUCKETS,
            string_in_table(rem@, ht_addr, want_key@) == string_in_buckets(
                rem@,
                ar_data,
                i,
                limit,
                want_key@,
            ),
        decreases limit - i,
    {
        match read_bucket(rem, ar_data.wrapping_add(i * offsets::BUCKET_SIZE), want_key) {
            Ok(Some(s)) => return Ok(s),
            Ok(None) => {},
            Err(e) => return Err(e),
        }
        i = i + 1;
    }
    Ok(None)
}

} // verus!
