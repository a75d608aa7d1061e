//! What a sample says of the request that is handled, from the hash tables that
//! `$_SERVER` is made of.

use crate::laws::frames;
use crate::laws::memory;
use crate::laws::memory::{fails, holds_string, remembers, unreadable_string, value};
use crate::offsets::VersionLayout;
use crate::output::MetaView;
use crate::remote::{Memory, ReadError};
use crate::sampler;
use crate::target;
use crate::zend;
use crate::zend::{Cache, FrameView};
use vstd::prelude::*;

verus! {

// Buckets

/// The address of a bucket: 32 bytes each, one after the other.
pub open spec fn bucket(ar_data: u64, i: int) -> u64 {
    ar_data.wrapping_add((32 * i) as u64)
}

/// Whether a bucket is of the given key.
pub open spec fn has_key(mem: Memory, b: u64, key: Seq<char>) -> bool {
    value(mem, b.wrapping_add(24), 8) matches Some(at) && at != 0 && holds_string(
        mem,
        at as u64,
        key,
    )
}

/// Whether a bucket is of another key, of none, or of one that cannot be read.
pub open spec fn has_other_key(mem: Memory, b: u64, key: Seq<char>) -> bool {
    ||| fails(mem, b.wrapping_add(24), 8)
    ||| value(mem, b.wrapping_add(24), 8) matches Some(at) && (at == 0 || unreadable_string(
        mem,
        at as u64,
    ) || exists|other: Seq<char>| #[trigger]
        holds_string(mem, at as u64, other) && other != key)
}

proof fn lemma_key(mem: Memory, b: u64, key: Seq<char>)
    ensures
        has_key(mem, b, key) ==> zend::bucket_has_key(mem, b, key) == Ok::<bool, ReadError>(true),
        has_other_key(mem, b, key) ==> zend::bucket_has_key(mem, b, key) == Ok::<bool, ReadError>(
            false,
        ),
{
    memory::lemma_reads_number(mem, b.wrapping_add(24));
    if let Some(at) = value(mem, b.wrapping_add(24), 8) {
        if has_key(mem, b, key) {
            memory::lemma_reads_string(mem, at as u64, key);
        }
        if has_other_key(mem, b, key) && at != 0 {
            if unreadable_string(mem, at as u64) {
                memory::lemma_unreadable_string(mem, at as u64);
            } else {
                let other = choose|other: Seq<char>| #[trigger]
                    holds_string(mem, at as u64, other) && other != key;
                memory::lemma_reads_string(mem, at as u64, other);
            }
        }
    }
}

/// The type tag of the value that lies at an address: the low byte of the word
/// at offset 8.
pub open spec fn tag(mem: Memory, zval: u64) -> Option<int> {
    match value(mem, zval.wrapping_add(8), 4) {
        Some(t) => Some(t % 256),
        None => None,
    }
}

/// Whether the value at an address is a string that says `s`.
pub open spec fn is_string(mem: Memory, zval: u64, s: Seq<char>) -> bool {
    tag(mem, zval) == Some(6int) && (value(mem, zval, 8) matches Some(at) && holds_string(
        mem,
        at as u64,
        s,
    ))
}

/// Whether the value at an address is a string, or refers to one, that says `s`.
pub open spec fn leads_to_string(mem: Memory, zval: u64, s: Seq<char>) -> bool {
    ||| is_string(mem, zval, s)
    ||| tag(mem, zval) == Some(10int) && (value(mem, zval, 8) matches Some(to) && to != 0
        && is_string(mem, (to as u64).wrapping_add(16), s))
}

/// Whether the value at an address is there, but neither is a string nor refers
/// to one.
pub open spec fn leads_to_no_string(mem: Memory, zval: u64) -> bool {
    match tag(mem, zval) {
        None => false,
        Some(t) => if t == 10 {
            value(mem, zval, 8) matches Some(to) && (to == 0 || fails(
                mem,
                (to as u64).wrapping_add(16).wrapping_add(8),
                4,
            ) || (tag(mem, (to as u64).wrapping_add(16)) matches Some(inner) && inner != 6))
        } else {
            t != 0 && t != 6
        },
    }
}

proof fn lemma_is_string(mem: Memory, zval: u64, s: Seq<char>)
    requires
        is_string(mem, zval, s),
    ensures
        zend::string_value(mem, zval) == Ok::<Option<Seq<char>>, ReadError>(Some(s)),
{
    assert(zval.wrapping_add(0) == zval);
    memory::lemma_reads_number(mem, zval);
    memory::lemma_reads_string(mem, value(mem, zval, 8)->0 as u64, s);
}

proof fn lemma_bucket(mem: Memory, b: u64, key: Seq<char>)
    ensures
        forall|s: Seq<char>|
            has_key(mem, b, key) && #[trigger] leads_to_string(mem, b, s)
                ==> zend::bucket_string(mem, b, key) == Ok::<Option<Option<Seq<char>>>, ReadError>(
                Some(Some(s)),
            ),
        has_key(mem, b, key) && leads_to_no_string(mem, b) ==> zend::bucket_string(mem, b, key)
            == Ok::<Option<Option<Seq<char>>>, ReadError>(Some(None)),
        passed_over(mem, b, key) ==> zend::bucket_string(mem, b, key) == Ok::<
            Option<Option<Seq<char>>>,
            ReadError,
        >(None),
{
    lemma_key(mem, b, key);
    assert(b.wrapping_add(0) == b);
    memory::lemma_reads_number(mem, b);
    memory::lemma_reads_number(mem, b.wrapping_add(8));
    if let Some(to) = value(mem, b, 8) {
        memory::lemma_reads_number(mem, (to as u64).wrapping_add(16).wrapping_add(8));
    }
    assert forall|s: Seq<char>|
        has_key(mem, b, key) && #[trigger] leads_to_string(mem, b, s) implies zend::bucket_string(
        mem,
        b,
        key,
    ) == Ok::<Option<Option<Seq<char>>>, ReadError>(Some(Some(s))) by {
        if is_string(mem, b, s) {
            lemma_is_string(mem, b, s);
        } else {
            lemma_is_string(mem, (value(mem, b, 8)->0 as u64).wrapping_add(16), s);
        }
    }
}

/// Whether a bucket says nothing of a key: it is empty, or of another key.
pub open spec fn passed_over(mem: Memory, b: u64, key: Seq<char>) -> bool {
    ||| fails(mem, b.wrapping_add(8), 4)
    ||| tag(mem, b) matches Some(t) && (t == 0 || has_other_key(mem, b, key))
}

// Tables

/// How many buckets of a table are looked at.
pub open spec fn looked_at(n_used: int) -> int {
    if n_used < 4096 {
        n_used
    } else {
        4096
    }
}

/// Whether the table at an address has `n_used` buckets at `ar_data`.
pub open spec fn is_table(mem: Memory, ht: u64, n_used: int, ar_data: u64) -> bool {
    &&& value(mem, ht.wrapping_add(24), 4) == Some(n_used)
    &&& value(mem, ht.wrapping_add(16), 8) == Some(ar_data as int)
}

/// Whether the bucket at an index decides what a table says of a key: it is of
/// the key, and those before it are not.
pub open spec fn decides(
    mem: Memory,
    ht: u64,
    n_used: int,
    ar_data: u64,
    i: int,
    key: Seq<char>,
) -> bool {
    &&& is_table(mem, ht, n_used, ar_data)
    &&& ar_data != 0
    &&& 0 <= i < looked_at(n_used)
    &&& has_key(mem, bucket(ar_data, i), key)
    &&& forall|j: int| 0 <= j < i ==> passed_over(mem, #[trigger] bucket(ar_data, j), key)
}

/// Whether no bucket of a table is of a key.
pub open spec fn lacks(mem: Memory, ht: u64, n_used: int, ar_data: u64, key: Seq<char>) -> bool {
    &&& is_table(mem, ht, n_used, ar_data)
    &&& ar_data == 0 || forall|j: int|
        0 <= j < looked_at(n_used) ==> passed_over(mem, #[trigger] bucket(ar_data, j), key)
}

/// Whether a table says `s` of a key: the string under it, or `None` if the key
/// is not there or has no string.
pub open spec fn says(mem: Memory, ht: u64, key: Seq<char>, s: Option<Seq<char>>) -> bool {
    match s {
        Some(s) => exists|n: int, ar: u64, i: int|
            #![trigger decides(mem, ht, n, ar, i, key)]
            decides(mem, ht, n, ar, i, key) && leads_to_string(mem, bucket(ar, i), s),
        None => (exists|n: int, ar: u64| #[trigger] lacks(mem, ht, n, ar, key)) || (exists|
            n: int,
            ar: u64,
            i: int,
        |
            #![trigger decides(mem, ht, n, ar, i, key)]
            decides(mem, ht, n, ar, i, key) && leads_to_no_string(mem, bucket(ar, i))),
    }
}

proof fn lemma_buckets(
    mem: Memory,
    ar_data: u64,
    from: u64,
    to: u64,
    limit: u64,
    key: Seq<char>,
)
    requires
        from <= to <= limit <= 4096,
        forall|j: int| from <= j < to ==> passed_over(mem, #[trigger] bucket(ar_data, j), key),
    ensures
        zend::string_in_buckets(mem, ar_data, from, limit, key) == zend::string_in_buckets(
            mem,
            ar_data,
            to,
            limit,
            key,
        ),
    decreases to - from,
{
    if from < to {
        assert(passed_over(mem, bucket(ar_data, from as int), key));
        lemma_bucket(mem, bucket(ar_data, from as int), key);
        assert(zend::bucket_at(ar_data, from) == bucket(ar_data, from as int));
        lemma_buckets(mem, ar_data, (from + 1) as u64, to, limit, key);
    }
}

/// Looking a key up gives what the table says of it.
pub proof fn lemma_looks_up(mem: Memory, ht: u64, key: Seq<char>, s: Option<Seq<char>>)
    requires
        says(mem, ht, key, s),
    ensures
        zend::string_in_table(mem, ht, key) == Ok::<Option<Seq<char>>, ReadError>(s),
{
    memory::lemma_reads_number(mem, ht.wrapping_add(24));
    memory::lemma_reads_number(mem, ht.wrapping_add(16));
    if s is None && exists|n: int, ar: u64| #[trigger] lacks(mem, ht, n, ar, key) {
        let (n, ar) = choose|n: int, ar: u64| #[trigger] lacks(mem, ht, n, ar, key);
        let limit = looked_at(n) as u64;
        if ar != 0 {
            lemma_buckets(mem, ar, 0, limit, limit, key);
        }
    } else {
        let (n, ar, i) = if s is Some {
            choose|n: int, ar: u64, i: int|
                #![trigger decides(mem, ht, n, ar, i, key)]
                decides(mem, ht, n, ar, i, key) && leads_to_string(mem, bucket(ar, i), s->0)
        } else {
            choose|n: int, ar: u64, i: int|
                #![trigger decides(mem, ht, n, ar, i, key)]
                decides(mem, ht, n, ar, i, key) && leads_to_no_string(mem, bucket(ar, i))
        };
        let limit = looked_at(n) as u64;
        lemma_buckets(mem, ar, 0, i as u64, limit, key);
        lemma_bucket(mem, bucket(ar, i), key);
        assert(zend::bucket_at(ar, i as u64) == bucket(ar, i));
    }
}

// `$_SERVER`

/// Whether the value at an address is a hash table, or refers to one.
pub open spec fn leads_to_table(mem: Memory, zval: u64, table: u64) -> bool {
    ||| tag(mem, zval) == Some(7int) && value(mem, zval, 8) == Some(table as int)
    ||| tag(mem, zval) == Some(10int) && (value(mem, zval, 8) matches Some(to) && value(
        mem,
        (to as u64).wrapping_add(16),
        8,
    ) == Some(table as int))
}

/// Whether the bucket at an index of the globals is the first of `_SERVER`.
pub open spec fn is_server(
    mem: Memory,
    globals: u64,
    n_used: int,
    ar_data: u64,
    i: int,
) -> bool {
    &&& is_table(mem, globals, n_used, ar_data)
    &&& ar_data != 0
    &&& 0 <= i < looked_at(n_used)
    &&& has_key(mem, bucket(ar_data, i), "_SERVER"@)
    &&& forall|j: int|
        0 <= j < i ==> has_other_key(mem, #[trigger] bucket(ar_data, j), "_SERVER"@)
}

/// Whether the table of `$_SERVER` among the globals at an address is the one at
/// `table`.
pub open spec fn server_at(mem: Memory, globals: u64, table: u64) -> bool {
    exists|n: int, ar: u64, i: int|
        #![trigger is_server(mem, globals, n, ar, i)]
        is_server(mem, globals, n, ar, i) && leads_to_table(mem, bucket(ar, i), table)
}

proof fn lemma_server_bucket(mem: Memory, ar_data: u64, from: u64, to: u64, limit: u64)
    requires
        from <= to < limit <= 4096,
        has_key(mem, bucket(ar_data, to as int), "_SERVER"@),
        forall|j: int|
            from <= j < to ==> has_other_key(mem, #[trigger] bucket(ar_data, j), "_SERVER"@),
    ensures
        target::server_bucket(mem, ar_data, from, limit) == Ok::<Option<u64>, ReadError>(
            Some(bucket(ar_data, to as int)),
        ),
    decreases to - from,
{
    lemma_key(mem, bucket(ar_data, from as int), "_SERVER"@);
    assert(zend::bucket_at(ar_data, from) == bucket(ar_data, from as int));
    if from < to {
        assert(has_other_key(mem, bucket(ar_data, from as int), "_SERVER"@));
        lemma_server_bucket(mem, ar_data, (from + 1) as u64, to, limit);
    }
}

proof fn lemma_table(mem: Memory, b: u64, table: u64)
    requires
        leads_to_table(mem, b, table),
    ensures
        target::table_in_bucket(mem, b) == Ok::<u64, ReadError>(table),
{
    assert(b.wrapping_add(0) == b);
    memory::lemma_reads_number(mem, b);
    memory::lemma_reads_number(mem, b.wrapping_add(8));
    let to = (value(mem, b, 8)->0) as u64;
    assert(to.wrapping_add(16).wrapping_add(0) == to.wrapping_add(16));
    memory::lemma_reads_number(mem, to.wrapping_add(16));
}

/// A request variable is what `$_SERVER` says under its name, in the table that
/// the globals have under `_SERVER`.
pub proof fn lemma_request_variable(
    mem: Memory,
    executor_globals: u64,
    layout: VersionLayout,
    table: u64,
    key: Seq<char>,
    s: Option<Seq<char>>,
)
    requires
        server_at(mem, executor_globals.wrapping_add(layout.eg_symbol_table), table),
        table != 0,
        says(mem, table, key, s),
    ensures
        target::request_variable(mem, executor_globals, layout, key) == Ok::<
            Option<Seq<char>>,
            ReadError,
        >(s),
{
    let globals = executor_globals.wrapping_add(layout.eg_symbol_table);
    let (n, ar, i) = choose|n: int, ar: u64, i: int|
        #![trigger is_server(mem, globals, n, ar, i)]
        is_server(mem, globals, n, ar, i) && leads_to_table(mem, bucket(ar, i), table);
    memory::lemma_reads_number(mem, globals.wrapping_add(24));
    memory::lemma_reads_number(mem, globals.wrapping_add(16));
    lemma_server_bucket(mem, ar, 0, i as u64, looked_at(n) as u64);
    lemma_table(mem, bucket(ar, i), table);
    lemma_looks_up(mem, table, key, s);
}

/// Where the globals cannot be read, there is no request variable.
pub proof fn lemma_no_globals(
    mem: Memory,
    executor_globals: u64,
    layout: VersionLayout,
    key: Seq<char>,
)
    requires
        fails(
            mem,
            executor_globals.wrapping_add(layout.eg_symbol_table).wrapping_add(24),
            4,
        ),
    ensures
        target::request_variable(mem, executor_globals, layout, key) == Ok::<
            Option<Seq<char>>,
            ReadError,
        >(None),
{
    memory::lemma_reads_number(
        mem,
        executor_globals.wrapping_add(layout.eg_symbol_table).wrapping_add(24),
    );
}

/// Where `$_SERVER` cannot be found or read there is no request variable: the
/// globals have no buckets, none of them is of `_SERVER`, the one that is has no
/// table, or a read on the way fails.
pub proof fn lemma_no_server(
    mem: Memory,
    executor_globals: u64,
    layout: VersionLayout,
    key: Seq<char>,
    n: int,
    ar: u64,
    i: int,
)
    requires
        ({
            let globals = executor_globals.wrapping_add(layout.eg_symbol_table);
            ||| value(mem, globals.wrapping_add(24), 4) is Some && fails(
                mem,
                globals.wrapping_add(16),
                8,
            )
            ||| is_table(mem, globals, n, ar) && (ar == 0 || forall|j: int|
                0 <= j < looked_at(n) ==> has_other_key(mem, #[trigger] bucket(ar, j), "_SERVER"@))
            ||| is_server(mem, globals, n, ar, i) && (fails(mem, bucket(ar, i).wrapping_add(8), 4)
                || (tag(mem, bucket(ar, i)) matches Some(t) && t != 7 && t != 10)
                || leads_to_table(mem, bucket(ar, i), 0))
        }),
    ensures
        target::request_variable(mem, executor_globals, layout, key) == Ok::<
            Option<Seq<char>>,
            ReadError,
        >(None),
{
    let globals = executor_globals.wrapping_add(layout.eg_symbol_table);
    memory::lemma_reads_number(mem, globals.wrapping_add(24));
    memory::lemma_reads_number(mem, globals.wrapping_add(16));
    if is_table(mem, globals, n, ar) && (ar == 0 || forall|j: int|
        0 <= j < looked_at(n) ==> has_other_key(mem, #[trigger] bucket(ar, j), "_SERVER"@)) {
        if ar != 0 {
            lemma_no_server_bucket(mem, ar, 0, looked_at(n) as u64);
        }
    } else if is_server(mem, globals, n, ar, i) {
        lemma_server_bucket(mem, ar, 0, i as u64, looked_at(n) as u64);
        let b = bucket(ar, i);
        assert(b.wrapping_add(0) == b);
        memory::lemma_reads_number(mem, b.wrapping_add(8));
        if leads_to_table(mem, b, 0) {
            lemma_table(mem, b, 0);
        }
    }
}

proof fn lemma_no_server_bucket(mem: Memory, ar_data: u64, from: u64, limit: u64)
    requires
        from <= limit <= 4096,
        forall|j: int|
            from <= j < limit ==> has_other_key(mem, #[trigger] bucket(ar_data, j), "_SERVER"@),
    ensures
        target::server_bucket(mem, ar_data, from, limit) == Ok::<Option<u64>, ReadError>(None),
    decreases limit - from,
{
    if from < limit {
        assert(has_other_key(mem, bucket(ar_data, from as int), "_SERVER"@));
        lemma_key(mem, bucket(ar_data, from as int), "_SERVER"@);
        assert(zend::bucket_at(ar_data, from) == bucket(ar_data, from as int));
        lemma_no_server_bucket(mem, ar_data, (from + 1) as u64, limit);
    }
}

// Samples

/// What is known of a request is what `$_SERVER` says under `REQUEST_URI` and under
/// `REQUEST_METHOD`, each whatever it says under the other; nothing is known where
/// it is not wanted.
pub proof fn lemma_request_info(
    mem: Memory,
    executor_globals: u64,
    layout: VersionLayout,
    table: u64,
    uri: Option<Seq<char>>,
    method: Option<Seq<char>>,
)
    requires
        server_at(mem, executor_globals.wrapping_add(layout.eg_symbol_table), table),
        table != 0,
        says(mem, table, "REQUEST_URI"@, uri),
        says(mem, table, "REQUEST_METHOD"@, method),
    ensures
        sampler::request_meta(mem, executor_globals, layout, true) matches Ok(meta)
            && meta.request_uri == uri && meta.request_method == method,
        sampler::request_meta(mem, executor_globals, layout, false) matches Ok(meta)
            && meta.request_uri is None && meta.request_method is None,
{
    lemma_request_variable(mem, executor_globals, layout, table, "REQUEST_URI"@, uri);
    lemma_request_variable(mem, executor_globals, layout, table, "REQUEST_METHOD"@, method);
}

/// A sample has the frames that lie in memory and, where request info is wanted,
/// what `$_SERVER` says under `REQUEST_URI` and under `REQUEST_METHOD`; nothing
/// is said of the request where it is not.
#[verifier::spinoff_prover]
#[verifier::rlimit(40)]
pub proof fn lemma_sample(
    cache: Cache,
    mem: Memory,
    executor_globals: u64,
    layout: VersionLayout,
    addrs: Seq<u64>,
    stack: Seq<FrameView>,
    max_depth: nat,
    table: u64,
    uri: Option<Seq<char>>,
    method: Option<Seq<char>>,
    request_info: bool,
)
    requires
        remembers(cache, mem),
        layout.op_array_filename + 8 <= 192,
        layout.op_array_line_start + 4 <= 192,
        frames::linked(mem, layout, addrs, stack),
        value(mem, executor_globals.wrapping_add(layout.eg_current_execute_data), 8) == Some(
            addrs[0] as int,
        ),
        max_depth <= stack.len() || frames::ends_at(mem, addrs.last()),
        max_depth > 0,
        stack.len() > 0,
        request_info ==> server_at(
            mem,
            executor_globals.wrapping_add(layout.eg_symbol_table),
            table,
        ) && table != 0 && says(mem, table, "REQUEST_URI"@, uri) && says(
            mem,
            table,
            "REQUEST_METHOD"@,
            method,
        ),
    ensures
        sampler::sample_of(cache, mem, executor_globals, layout, request_info, max_depth) == Ok::<
            Option<(Seq<FrameView>, MetaView)>,
            ReadError,
        >(
            Some(
                (
                    frames::innermost(stack, max_depth),
                    if request_info {
                        MetaView { request_uri: uri, request_method: method }
                    } else {
                        MetaView { request_uri: None, request_method: None }
                    },
                ),
            ),
        ),
{
    frames::lemma_captures_stack(
        cache,
        mem,
        executor_globals,
        layout,
        addrs,
        stack,
        max_depth,
    );
    if request_info {
        lemma_request_info(mem, executor_globals, layout, table, uri, method);
    }
}

/// Where no function is running, there is no sample.
pub proof fn lemma_no_sample(
    cache: Cache,
    mem: Memory,
    executor_globals: u64,
    layout: VersionLayout,
    max_depth: nat,
    request_info: bool,
)
    requires
        value(mem, executor_globals.wrapping_add(layout.eg_current_execute_data), 8) == Some(0int),
    ensures
        sampler::sample_of(cache, mem, executor_globals, layout, request_info, max_depth) == Ok::<
            Option<(Seq<FrameView>, MetaView)>,
            ReadError,
        >(None),
{
    memory::lemma_reads_number(
        mem,
        executor_globals.wrapping_add(layout.eg_current_execute_data),
    );
}

} // verus!
