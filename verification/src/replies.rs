//! How a computation depends on the replies it has.
//!
//! A computation that lacks a reply stops and is run again with more replies.
//! The laws here say that this is sound: a computation that has come to an end
//! comes to the same end with more replies, one that stops asks for a reply
//! that it does not have, and a walk that is resumed, with the strings that it
//! remembers from before, ends as one that was never stopped.

use crate::arch::Arch;
use crate::offsets;
use crate::offsets::{LayoutOverrides, VersionLayout};
use crate::remote;
use crate::remote::{Memory, ReadError};
use crate::symbols::Symbols;
use crate::target;
use crate::target::{AttachFault, Attachment};
use crate::tls::ZtsError;
use crate::zend;
use crate::zend::Cache;
use vstd::prelude::*;

verus! {

/// Whether an outcome that waits for a reply waits for one that is missing.
pub open spec fn asks_anew<T>(r: Result<T, ReadError>, mem: Memory) -> bool {
    r matches Err(ReadError::Pending { addr, len }) ==> !mem.dom().contains((addr, len))
}

/// Whether an outcome with some replies stands with more of them.
pub open spec fn stands<T>(with: Result<T, ReadError>, with_more: Result<T, ReadError>) -> bool {
    zend::pending(with) || with_more == with
}

// Strings

proof fn lemma_string(mem: Memory, more: Memory, addr: u64)
    requires
        remote::extends(more, mem),
    ensures
        asks_anew(zend::zend_string_at(mem, addr), mem),
        stands(zend::zend_string_at(mem, addr), zend::zend_string_at(more, addr)),
{
}

/// Whether two caches give the same strings.
pub open spec fn same_strings(a: Cache, b: Cache, mem: Memory) -> bool {
    forall|addr: u64| #[trigger]
        zend::cached_string(a, mem, addr).0 == zend::cached_string(b, mem, addr).0
}

/// Whether a cache holds only what the memory says.
pub open spec fn agrees(cache: Cache, mem: Memory) -> bool {
    forall|addr: u64| #[trigger]
        cache.dom().contains(addr) ==> zend::zend_string_at(mem, addr) == Ok::<
            Seq<char>,
            ReadError,
        >(cache[addr])
}

/// Reading a string does not change what strings are read later, whatever
/// replies come meanwhile.
proof fn lemma_cached(cache: Cache, mem: Memory, more: Memory, addr: u64)
    requires
        remote::extends(more, mem),
    ensures
        asks_anew(zend::cached_string(cache, mem, addr).0, mem),
        zend::pending(zend::cached_string(cache, mem, addr).0) || zend::cached_string(
            cache,
            more,
            addr,
        ) == zend::cached_string(cache, mem, addr),
        same_strings(cache, zend::cached_string(cache, mem, addr).1, more),
{
    lemma_string(mem, more, addr);
}

/// Caches that come from two that give the same strings do so too.
proof fn lemma_same_after(a: Cache, b: Cache, a1: Cache, b1: Cache, mem: Memory)
    requires
        same_strings(a, b, mem),
        same_strings(a, a1, mem),
        same_strings(b, b1, mem),
    ensures
        same_strings(a1, b1, mem),
{
    assert forall|addr: u64| #[trigger]
        zend::cached_string(a1, mem, addr).0 == zend::cached_string(b1, mem, addr).0 by {
        assert(zend::cached_string(a, mem, addr).0 == zend::cached_string(a1, mem, addr).0);
        assert(zend::cached_string(b, mem, addr).0 == zend::cached_string(b1, mem, addr).0);
    }
}

// Frames

proof fn lemma_optional(cache: Cache, mem: Memory, more: Memory, addr: u64)
    requires
        remote::extends(more, mem),
    ensures
        asks_anew(zend::optional_string(cache, mem, addr).0, mem),
        zend::pending(zend::optional_string(cache, mem, addr).0) || zend::optional_string(
            cache,
            more,
            addr,
        ) == zend::optional_string(cache, mem, addr),
        same_strings(cache, zend::optional_string(cache, mem, addr).1, more),
{
    lemma_cached(cache, mem, more, addr);
}

proof fn lemma_class(cache: Cache, mem: Memory, more: Memory, scope: u64)
    requires
        remote::extends(more, mem),
    ensures
        asks_anew(zend::class_name(cache, mem, scope).0, mem),
        zend::pending(zend::class_name(cache, mem, scope).0) || zend::class_name(cache, more, scope)
            == zend::class_name(cache, mem, scope),
        same_strings(cache, zend::class_name(cache, mem, scope).1, more),
{
    if let Ok(name) = remote::fetch_u64(mem, scope.wrapping_add(offsets::CE_NAME)) {
        lemma_optional(cache, mem, more, name);
    }
}

proof fn lemma_called(
    cache: Cache,
    mem: Memory,
    more: Memory,
    ex: Seq<u8>,
    func: Seq<u8>,
    layout: VersionLayout,
)
    requires
        remote::extends(more, mem),
    ensures
        asks_anew(zend::called_frame(cache, mem, ex, func, layout).0, mem),
        zend::pending(zend::called_frame(cache, mem, ex, func, layout).0) || zend::called_frame(
            cache,
            more,
            ex,
            func,
            layout,
        ) == zend::called_frame(cache, mem, ex, func, layout),
        same_strings(cache, zend::called_frame(cache, mem, ex, func, layout).1, more),
{
    let name = zend::field64(func, offsets::FUNC_FUNCTION_NAME as int);
    let scope = zend::field64(func, offsets::FUNC_SCOPE as int);
    let file = zend::field64(func, layout.op_array_filename as int);
    lemma_cached(cache, mem, more, name);
    let cache1 = zend::function_name(cache, mem, name).1;
    lemma_class(cache1, mem, more, scope);
    let cache2 = zend::class_name(cache1, mem, scope).1;
    lemma_optional(cache2, mem, more, file);
    let cache3 = zend::file_name(cache2, mem, func, layout).1;
    assert(same_strings(cache, cache1, more));
    assert(same_strings(cache1, cache2, more));
    assert(same_strings(cache2, cache3, more));
}

pub(crate) proof fn lemma_frame(
    cache: Cache,
    mem: Memory,
    more: Memory,
    addr: u64,
    layout: VersionLayout,
)
    requires
        remote::extends(more, mem),
    ensures
        asks_anew(zend::frame_at(cache, mem, addr, layout).0, mem),
        zend::pending(zend::frame_at(cache, mem, addr, layout).0) || zend::frame_at(
            cache,
            more,
            addr,
            layout,
        ) == zend::frame_at(cache, mem, addr, layout),
        same_strings(cache, zend::frame_at(cache, mem, addr, layout).1, more),
{
    if let Ok(ex) = remote::fetch(mem, addr, offsets::EX_BUF) {
        let func_ptr = zend::field64(ex, offsets::EX_FUNC as int);
        if let Ok(func) = remote::fetch(mem, func_ptr, offsets::FUNC_BUF) {
            lemma_called(cache, mem, more, ex, func, layout);
        }
    }
}

/// Caches that give the same strings give the same frame.
proof fn lemma_same_frame(a: Cache, b: Cache, mem: Memory, addr: u64, layout: VersionLayout)
    requires
        same_strings(a, b, mem),
    ensures
        zend::frame_at(a, mem, addr, layout).0 == zend::frame_at(b, mem, addr, layout).0,
{
    if let Ok(ex) = remote::fetch(mem, addr, offsets::EX_BUF) {
        let func_ptr = zend::field64(ex, offsets::EX_FUNC as int);
        if let Ok(func) = remote::fetch(mem, func_ptr, offsets::FUNC_BUF) {
            let name = zend::field64(func, offsets::FUNC_FUNCTION_NAME as int);
            let scope = zend::field64(func, offsets::FUNC_SCOPE as int);
            assert(zend::cached_string(a, mem, name).0 == zend::cached_string(b, mem, name).0);
            lemma_cached(a, mem, mem, name);
            lemma_cached(b, mem, mem, name);
            let a1 = zend::function_name(a, mem, name).1;
            let b1 = zend::function_name(b, mem, name).1;
            lemma_same_after(a, b, a1, b1, mem);
            lemma_class(a1, mem, mem, scope);
            lemma_class(b1, mem, mem, scope);
            let a2 = zend::class_name(a1, mem, scope).1;
            let b2 = zend::class_name(b1, mem, scope).1;
            lemma_same_after(a1, b1, a2, b2, mem);
            if let Ok(class) = remote::fetch_u64(
                mem,
                scope.wrapping_add(offsets::CE_NAME),
            ) {
                assert(zend::cached_string(a1, mem, class).0 == zend::cached_string(
                    b1,
                    mem,
                    class,
                ).0);
            }
            let file = zend::field64(func, layout.op_array_filename as int);
            assert(zend::cached_string(a2, mem, file).0 == zend::cached_string(b2, mem, file).0);
        }
    }
}

// Stacks

proof fn lemma_stack(
    cache: Cache,
    mem: Memory,
    more: Memory,
    ex: u64,
    layout: VersionLayout,
    depth: nat,
)
    requires
        remote::extends(more, mem),
    ensures
        asks_anew(target::stack_from(cache, mem, ex, layout, depth).0, mem),
        zend::pending(target::stack_from(cache, mem, ex, layout, depth).0) || target::stack_from(
            cache,
            more,
            ex,
            layout,
            depth,
        ) == target::stack_from(cache, mem, ex, layout, depth),
        same_strings(cache, target::stack_from(cache, mem, ex, layout, depth).1, more),
    decreases depth,
{
    if ex != 0 && depth > 0 {
        lemma_frame(cache, mem, more, ex, layout);
        let (frame, after) = zend::frame_at(cache, mem, ex, layout);
        if let Ok((f, prev)) = frame {
            lemma_stack(after, mem, more, prev, layout, (depth - 1) as nat);
            let last = target::stack_from(after, mem, prev, layout, (depth - 1) as nat).1;
            assert(same_strings(after, last, more));
            assert(same_strings(cache, last, more));
        }
    }
}

pub(crate) proof fn lemma_same_stack(
    a: Cache,
    b: Cache,
    mem: Memory,
    ex: u64,
    layout: VersionLayout,
    depth: nat,
)
    requires
        same_strings(a, b, mem),
    ensures
        target::stack_from(a, mem, ex, layout, depth).0 == target::stack_from(
            b,
            mem,
            ex,
            layout,
            depth,
        ).0,
    decreases depth,
{
    if ex != 0 && depth > 0 {
        lemma_same_frame(a, b, mem, ex, layout);
        lemma_frame(a, mem, mem, ex, layout);
        lemma_frame(b, mem, mem, ex, layout);
        let a1 = zend::frame_at(a, mem, ex, layout).1;
        let b1 = zend::frame_at(b, mem, ex, layout).1;
        lemma_same_after(a, b, a1, b1, mem);
        if let Ok((f, prev)) = zend::frame_at(a, mem, ex, layout).0 {
            lemma_same_stack(a1, b1, mem, prev, layout, (depth - 1) as nat);
        }
    }
}

/// A stack that has been captured is captured alike with more replies, and a
/// capture that stops asks for a reply that is missing.
pub proof fn lemma_capture_stable(
    cache: Cache,
    mem: Memory,
    more: Memory,
    executor_globals: u64,
    layout: VersionLayout,
    max_depth: nat,
)
    requires
        remote::extends(more, mem),
    ensures
        asks_anew(target::captured(cache, mem, executor_globals, layout, max_depth).0, mem),
        stands(
            target::captured(cache, mem, executor_globals, layout, max_depth).0,
            target::captured(cache, more, executor_globals, layout, max_depth).0,
        ),
{
    if let Ok(ex) = remote::fetch_u64(
        mem,
        executor_globals.wrapping_add(layout.eg_current_execute_data),
    ) {
        lemma_stack(cache, mem, more, ex, layout, max_depth);
    }
}

/// A capture that is resumed with more replies, and with what it remembers of
/// the strings it read before, gives what it gives when it starts with all of
/// those replies.
pub proof fn lemma_capture_resumes(
    cache: Cache,
    mem: Memory,
    more: Memory,
    executor_globals: u64,
    layout: VersionLayout,
    max_depth: nat,
)
    requires
        remote::extends(more, mem),
    ensures
        target::captured(
            target::captured(cache, mem, executor_globals, layout, max_depth).1,
            more,
            executor_globals,
            layout,
            max_depth,
        ).0 == target::captured(cache, more, executor_globals, layout, max_depth).0,
{
    if let Ok(ex) = remote::fetch_u64(
        mem,
        executor_globals.wrapping_add(layout.eg_current_execute_data),
    ) {
        lemma_stack(cache, mem, more, ex, layout, max_depth);
        let after = target::stack_from(cache, mem, ex, layout, max_depth).1;
        lemma_same_stack(cache, after, more, ex, layout, max_depth);
    }
}

/// As long as the strings of the target stay as they were read, remembering
/// them changes nothing of the stacks that are captured.
pub proof fn lemma_remembering_is_transparent(
    cache: Cache,
    mem: Memory,
    executor_globals: u64,
    layout: VersionLayout,
    max_depth: nat,
)
    requires
        agrees(cache, mem),
    ensures
        target::captured(cache, mem, executor_globals, layout, max_depth).0 == target::captured(
            Cache::empty(),
            mem,
            executor_globals,
            layout,
            max_depth,
        ).0,
{
    assert(same_strings(cache, Cache::empty(), mem)) by {
        assert forall|addr: u64| #[trigger]
            zend::cached_string(cache, mem, addr).0 == zend::cached_string(
                Cache::empty(),
                mem,
                addr,
            ).0 by {
            assert(cache.dom().contains(addr) ==> zend::zend_string_at(mem, addr) == Ok::<
                Seq<char>,
                ReadError,
            >(cache[addr]));
        }
    }
    if let Ok(ex) = remote::fetch_u64(
        mem,
        executor_globals.wrapping_add(layout.eg_current_execute_data),
    ) {
        lemma_same_stack(cache, Cache::empty(), mem, ex, layout, max_depth);
    }
}

/// No stack is deeper than it may be, however the frames are linked.
pub proof fn lemma_capture_depth(
    cache: Cache,
    mem: Memory,
    executor_globals: u64,
    layout: VersionLayout,
    max_depth: nat,
)
    ensures
        target::captured(cache, mem, executor_globals, layout, max_depth).0 matches Ok(frames)
            ==> frames.len() <= max_depth,
{
    if let Ok(ex) = remote::fetch_u64(
        mem,
        executor_globals.wrapping_add(layout.eg_current_execute_data),
    ) {
        lemma_stack_depth(cache, mem, ex, layout, max_depth);
    }
}

proof fn lemma_stack_depth(
    cache: Cache,
    mem: Memory,
    ex: u64,
    layout: VersionLayout,
    depth: nat,
)
    ensures
        target::stack_from(cache, mem, ex, layout, depth).0 matches Ok(frames) ==> frames.len()
            <= depth,
    decreases depth,
{
    if ex != 0 && depth > 0 {
        let (frame, after) = zend::frame_at(cache, mem, ex, layout);
        if let Ok((f, prev)) = frame {
            lemma_stack_depth(after, mem, prev, layout, (depth - 1) as nat);
        }
    }
}

/// Whether a cache is no larger than it may be.
pub open spec fn bounded(cache: Cache) -> bool {
    cache.dom().finite() && cache.len() <= zend::CACHE_LIMIT
}

proof fn lemma_frame_bounded(cache: Cache, mem: Memory, addr: u64, layout: VersionLayout)
    requires
        bounded(cache),
    ensures
        bounded(zend::frame_at(cache, mem, addr, layout).1),
{
    if let Ok(ex) = remote::fetch(mem, addr, offsets::EX_BUF) {
        let func_ptr = zend::field64(ex, offsets::EX_FUNC as int);
        if let Ok(func) = remote::fetch(mem, func_ptr, offsets::FUNC_BUF) {
            let name = zend::field64(func, offsets::FUNC_FUNCTION_NAME as int);
            let scope = zend::field64(func, offsets::FUNC_SCOPE as int);
            let cache1 = zend::function_name(cache, mem, name).1;
            assert(bounded(cache1));
            let cache2 = zend::class_name(cache1, mem, scope).1;
            assert(bounded(cache2));
            let cache3 = zend::file_name(cache2, mem, func, layout).1;
            assert(bounded(cache3));
        }
    }
}

proof fn lemma_stack_bounded(
    cache: Cache,
    mem: Memory,
    ex: u64,
    layout: VersionLayout,
    depth: nat,
)
    requires
        bounded(cache),
    ensures
        bounded(target::stack_from(cache, mem, ex, layout, depth).1),
    decreases depth,
{
    if ex != 0 && depth > 0 {
        lemma_frame_bounded(cache, mem, ex, layout);
        let (frame, after) = zend::frame_at(cache, mem, ex, layout);
        if let Ok((f, prev)) = frame {
            lemma_stack_bounded(after, mem, prev, layout, (depth - 1) as nat);
        }
    }
}

/// However long a target is profiled, what is remembered of it stays bounded.
pub proof fn lemma_cache_bounded(
    cache: Cache,
    mem: Memory,
    executor_globals: u64,
    layout: VersionLayout,
    max_depth: nat,
)
    requires
        bounded(cache),
    ensures
        bounded(target::captured(cache, mem, executor_globals, layout, max_depth).1),
        bounded(Cache::empty()),
{
    if let Ok(ex) = remote::fetch_u64(
        mem,
        executor_globals.wrapping_add(layout.eg_current_execute_data),
    ) {
        lemma_stack_bounded(cache, mem, ex, layout, max_depth);
    }
}

/// Two reads, one of the execute data and one of the function, are enough for
/// the frame of a function without a class whose strings are remembered, if it
/// is not at an instruction whose line has to be read.
pub proof fn lemma_two_reads_suffice(
    cache: Cache,
    mem: Memory,
    addr: u64,
    layout: VersionLayout,
    ex: Seq<u8>,
    func: Seq<u8>,
)
    requires
        remote::fetch(mem, addr, offsets::EX_BUF) == Ok::<Seq<u8>, ReadError>(ex),
        zend::field64(ex, offsets::EX_FUNC as int) != 0,
        remote::fetch(
            mem,
            zend::field64(ex, offsets::EX_FUNC as int),
            offsets::FUNC_BUF,
        ) == Ok::<Seq<u8>, ReadError>(func),
        zend::field64(func, offsets::FUNC_SCOPE as int) == 0,
        ({
            let name = zend::field64(func, offsets::FUNC_FUNCTION_NAME as int);
            name == 0 || cache.dom().contains(name)
        }),
        func[0] == offsets::TYPE_USER ==> {
            let file = zend::field64(func, layout.op_array_filename as int);
            (file == 0 || cache.dom().contains(file)) && zend::field64(
                ex,
                offsets::EX_OPLINE as int,
            ) == 0
        },
    ensures
        zend::frame_at(cache, mem, addr, layout).0 is Ok,
        zend::frame_at(cache, mem, addr, layout).1 == cache,
{
}

// Request variables

proof fn lemma_has_key(mem: Memory, more: Memory, bucket: u64, key: Seq<char>)
    requires
        remote::extends(more, mem),
    ensures
        asks_anew(zend::bucket_has_key(mem, bucket, key), mem),
        stands(zend::bucket_has_key(mem, bucket, key), zend::bucket_has_key(more, bucket, key)),
{
    if let Ok(key_ptr) = remote::fetch_u64(mem, bucket.wrapping_add(offsets::BUCKET_KEY)) {
        lemma_string(mem, more, key_ptr);
    }
}

proof fn lemma_value(mem: Memory, more: Memory, zval: u64)
    requires
        remote::extends(more, mem),
    ensures
        asks_anew(zend::string_value(mem, zval), mem),
        stands(zend::string_value(mem, zval), zend::string_value(more, zval)),
{
    if let Ok(s) = remote::fetch_u64(mem, zval.wrapping_add(offsets::ZVAL_VALUE)) {
        lemma_string(mem, more, s);
    }
}

proof fn lemma_referred(mem: Memory, more: Memory, zval: u64)
    requires
        remote::extends(more, mem),
    ensures
        asks_anew(zend::referred_string(mem, zval), mem),
        stands(zend::referred_string(mem, zval), zend::referred_string(more, zval)),
{
    if let Ok(r) = remote::fetch_u64(mem, zval.wrapping_add(offsets::ZVAL_VALUE)) {
        lemma_value(mem, more, r.wrapping_add(offsets::REFERENCE_VAL));
    }
}

proof fn lemma_bucket(mem: Memory, more: Memory, bucket: u64, key: Seq<char>)
    requires
        remote::extends(more, mem),
    ensures
        asks_anew(zend::bucket_string(mem, bucket, key), mem),
        stands(zend::bucket_string(mem, bucket, key), zend::bucket_string(more, bucket, key)),
{
    let zval = bucket.wrapping_add(offsets::BUCKET_VAL);
    lemma_has_key(mem, more, bucket, key);
    lemma_value(mem, more, zval);
    lemma_referred(mem, more, zval);
}

proof fn lemma_buckets(
    mem: Memory,
    more: Memory,
    ar_data: u64,
    i: u64,
    limit: u64,
    key: Seq<char>,
)
    requires
        remote::extends(more, mem),
    ensures
        asks_anew(zend::string_in_buckets(mem, ar_data, i, limit, key), mem),
        stands(
            zend::string_in_buckets(mem, ar_data, i, limit, key),
            zend::string_in_buckets(more, ar_data, i, limit, key),
        ),
    decreases limit - i,
{
    if i < limit {
        lemma_bucket(mem, more, zend::bucket_at(ar_data, i), key);
        lemma_buckets(mem, more, ar_data, (i + 1) as u64, limit, key);
    }
}

proof fn lemma_table(mem: Memory, more: Memory, ht_addr: u64, key: Seq<char>)
    requires
        remote::extends(more, mem),
    ensures
        asks_anew(zend::string_in_table(mem, ht_addr, key), mem),
        stands(zend::string_in_table(mem, ht_addr, key), zend::string_in_table(more, ht_addr, key)),
{
    if let Ok(n_used) = remote::fetch_u32(
        mem,
        ht_addr.wrapping_add(offsets::HT_N_NUM_USED),
    ) {
        if let Ok(ar_data) = remote::fetch_u64(
            mem,
            ht_addr.wrapping_add(offsets::HT_AR_DATA),
        ) {
            lemma_buckets(mem, more, ar_data, 0, zend::bucket_limit(n_used), key);
        }
    }
}

proof fn lemma_server_bucket(mem: Memory, more: Memory, ar_data: u64, i: u64, limit: u64)
    requires
        remote::extends(more, mem),
    ensures
        asks_anew(target::server_bucket(mem, ar_data, i, limit), mem),
        stands(
            target::server_bucket(mem, ar_data, i, limit),
            target::server_bucket(more, ar_data, i, limit),
        ),
    decreases limit - i,
{
    if i < limit {
        lemma_has_key(mem, more, zend::bucket_at(ar_data, i), target::SERVER@);
        lemma_server_bucket(mem, more, ar_data, (i + 1) as u64, limit);
    }
}

/// A request variable that has been found, or found absent, stays so with more
/// replies, and a lookup that stops asks for a reply that is missing.
pub proof fn lemma_request_variable_stable(
    mem: Memory,
    more: Memory,
    executor_globals: u64,
    layout: VersionLayout,
    key: Seq<char>,
)
    requires
        remote::extends(more, mem),
    ensures
        asks_anew(target::request_variable(mem, executor_globals, layout, key), mem),
        stands(
            target::request_variable(mem, executor_globals, layout, key),
            target::request_variable(more, executor_globals, layout, key),
        ),
{
    let globals = executor_globals.wrapping_add(layout.eg_symbol_table);
    if let Ok(n_used) = remote::fetch_u32(
        mem,
        globals.wrapping_add(offsets::HT_N_NUM_USED),
    ) {
        if let Ok(ar_data) = remote::fetch_u64(
            mem,
            globals.wrapping_add(offsets::HT_AR_DATA),
        ) {
            lemma_server_bucket(mem, more, ar_data, 0, zend::bucket_limit(n_used));
        }
    }
    if let Ok(table) = target::server_table(mem, globals) {
        lemma_table(mem, more, table, key);
    }
}

// Attaching

/// Whether attaching waits for a reply.
pub open spec fn attach_pending(r: Result<Attachment, AttachFault>) -> bool {
    ||| r matches Err(AttachFault::Read(ReadError::Pending { .. }))
    ||| r matches Err(AttachFault::Zts(ZtsError::Read(ReadError::Pending { .. })))
}

/// What attaching finds, or fails for, stays so with more replies, and where it
/// stops for a reply it asks for one that is missing.
pub proof fn lemma_attach_stable(
    mem: Memory,
    more: Memory,
    machine: Arch,
    symbols: Symbols,
    literal: Option<Seq<char>>,
    tls_base: Option<u64>,
    given: Option<Seq<char>>,
    overrides: LayoutOverrides,
)
    requires
        remote::extends(more, mem),
    ensures
        attach_pending(
            target::attachment(mem, machine, symbols, literal, tls_base, given, overrides),
        ) || target::attachment(more, machine, symbols, literal, tls_base, given, overrides)
            == target::attachment(mem, machine, symbols, literal, tls_base, given, overrides),
        ({
            let r = target::attachment(mem, machine, symbols, literal, tls_base, given, overrides);
            &&& r matches Err(AttachFault::Read(ReadError::Pending { addr, len }))
                ==> !mem.dom().contains((addr, len))
            &&& r matches Err(AttachFault::Zts(ZtsError::Read(ReadError::Pending { addr, len })))
                ==> !mem.dom().contains((addr, len))
        }),
{
}

} // verus!
