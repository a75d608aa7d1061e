//! What the frames of a call stack say, from the bytes of the structures that
//! they are read from.

use crate::laws::memory;
use crate::laws::memory::{
    fails, gives, holds_string, number_at, remembers, remembers_only, value, whole,
};
use crate::offsets::VersionLayout;
use crate::remote::{Memory, ReadError};
use crate::target;
use crate::zend;
use crate::zend::{Cache, FrameView};
use vstd::prelude::*;

verus! {

// One frame

/// Whether a name is that of a function: what its name pointer leads to, and
/// `{main}` if that is null.
pub open spec fn names_function(mem: Memory, func: Seq<u8>, name: Seq<char>) -> bool {
    let at = number_at(func, 8, 8);
    if at == 0 {
        name == "{main}"@
    } else {
        holds_string(mem, at as u64, name)
    }
}

/// Whether a class is that of a function: none without a class entry, else the
/// one whose name the class entry leads to.
pub open spec fn names_class(mem: Memory, func: Seq<u8>, class: Option<Seq<char>>) -> bool {
    let scope = number_at(func, 16, 8);
    if scope == 0 {
        class is None
    } else {
        match value(mem, (scope as u64).wrapping_add(8), 8) {
            None => false,
            Some(at) => if at == 0 {
                class is None
            } else {
                class matches Some(c) && holds_string(mem, at as u64, c)
            },
        }
    }
}

/// Whether a file is that of a function: of a user function the one that its
/// file pointer leads to, if any; of an internal one `<internal>`.
pub open spec fn names_file(
    mem: Memory,
    func: Seq<u8>,
    layout: VersionLayout,
    file: Option<Seq<char>>,
) -> bool {
    if func[0] == 2 {
        let at = number_at(func, layout.op_array_filename as int, 8);
        if at == 0 {
            file is None
        } else {
            file matches Some(f) && holds_string(mem, at as u64, f)
        }
    } else if func[0] == 1 {
        file == Some("<internal>"@)
    } else {
        file is None
    }
}

/// Whether a running instruction says which line it is of: it is there, its
/// line can be read, and it is not zero.
pub open spec fn runs_line(mem: Memory, opline: u64, line: int) -> bool {
    opline != 0 && line != 0 && value(mem, opline.wrapping_add(24), 4) == Some(line)
}

/// Whether a running instruction says no line: it is not there, or its line is
/// zero or cannot be read.
pub open spec fn runs_no_line(mem: Memory, opline: u64) -> bool {
    ||| opline == 0
    ||| value(mem, opline.wrapping_add(24), 4) == Some(0int)
    ||| fails(mem, opline.wrapping_add(24), 4)
}

/// The line of a frame of a user function is that of its running instruction,
/// wherever the function starts.
pub proof fn lemma_running_line(
    mem: Memory,
    opline: u64,
    func: Seq<u8>,
    layout: VersionLayout,
    line: int,
)
    requires
        func[0] == 2,
        runs_line(mem, opline, line),
    ensures
        zend::line_number(mem, opline, func, layout) == Ok::<u32, ReadError>(line as u32),
{
    memory::lemma_reads_number(mem, opline.wrapping_add(24));
}

/// The line of a frame of a user function is where the function starts only if
/// its running instruction says none; that of any other function is zero.
pub proof fn lemma_starting_line(mem: Memory, opline: u64, func: Seq<u8>, layout: VersionLayout)
    requires
        func.len() == 192,
        layout.op_array_line_start + 4 <= 192,
    ensures
        func[0] == 2 && runs_no_line(mem, opline) ==> zend::line_number(mem, opline, func, layout)
            == Ok::<u32, ReadError>(
            number_at(func, layout.op_array_line_start as int, 4) as u32,
        ),
        func[0] != 2 ==> zend::line_number(mem, opline, func, layout) == Ok::<u32, ReadError>(0),
{
    memory::lemma_reads_number(mem, opline.wrapping_add(24));
    memory::lemma_fields(func, layout.op_array_line_start as int);
}

/// Whether a line is the one that a frame is at.
pub open spec fn is_at_line(
    mem: Memory,
    opline: u64,
    func: Seq<u8>,
    layout: VersionLayout,
    line: u32,
) -> bool {
    if func[0] != 2 {
        line == 0
    } else {
        ||| runs_line(mem, opline, line as int)
        ||| runs_no_line(mem, opline) && line == number_at(
            func,
            layout.op_array_line_start as int,
            4,
        )
    }
}

/// Whether the execute data `ex` at an address, with the function `func`, is a
/// frame that says `f`, with the frame before it at `prev`.
pub open spec fn is_frame(
    mem: Memory,
    layout: VersionLayout,
    addr: u64,
    ex: Seq<u8>,
    func: Seq<u8>,
    f: FrameView,
    prev: u64,
) -> bool {
    &&& gives(mem, addr, 64, ex)
    &&& number_at(ex, 48, 8) == prev
    &&& if number_at(ex, 24, 8) == 0 {
        f == (FrameView { function: "<unknown>"@, class: None, file: None, line: 0 })
    } else {
        &&& gives(mem, number_at(ex, 24, 8) as u64, 192, func)
        &&& names_function(mem, func, f.function)
        &&& names_class(mem, func, f.class)
        &&& names_file(mem, func, layout, f.file)
        &&& is_at_line(mem, number_at(ex, 0, 8) as u64, func, layout, f.line)
    }
}

/// Whether a frame that says `f` lies at an address, with the frame before it at
/// `prev`.
pub open spec fn holds_frame(
    mem: Memory,
    layout: VersionLayout,
    addr: u64,
    f: FrameView,
    prev: u64,
) -> bool {
    exists|ex: Seq<u8>, func: Seq<u8>| #[trigger] is_frame(mem, layout, addr, ex, func, f, prev)
}

proof fn lemma_class(cache: Cache, mem: Memory, func: Seq<u8>, class: Option<Seq<char>>)
    requires
        func.len() == 192,
        remembers(cache, mem),
        names_class(mem, func, class),
    ensures
        ({
            let r = zend::class_name(cache, mem, zend::field64(func, 16));
            r.0 == Ok::<Option<Seq<char>>, ReadError>(class) && remembers(r.1, mem)
        }),
{
    memory::lemma_fields(func, 16);
    let scope = zend::field64(func, 16);
    if scope != 0 {
        memory::lemma_reads_number(mem, scope.wrapping_add(8));
        let at = value(mem, scope.wrapping_add(8), 8)->0;
        memory::lemma_remembered_string(cache, mem, at as u64);
    }
}

proof fn lemma_file(
    cache: Cache,
    mem: Memory,
    func: Seq<u8>,
    layout: VersionLayout,
    file: Option<Seq<char>>,
)
    requires
        func.len() == 192,
        layout.op_array_filename + 8 <= 192,
        remembers(cache, mem),
        names_file(mem, func, layout, file),
    ensures
        ({
            let r = zend::file_name(cache, mem, func, layout);
            r.0 == Ok::<Option<Seq<char>>, ReadError>(file) && remembers(r.1, mem)
        }),
{
    memory::lemma_fields(func, layout.op_array_filename as int);
    memory::lemma_remembered_string(
        cache,
        mem,
        zend::field64(func, layout.op_array_filename as int),
    );
}

/// Reading a frame gives what lies there: the function, the class and the file
/// that its pointers lead to, the line that is running, and the frame before it;
/// whatever strings are remembered, if rightly.
pub proof fn lemma_reads_frame(
    cache: Cache,
    mem: Memory,
    layout: VersionLayout,
    addr: u64,
    f: FrameView,
    prev: u64,
)
    requires
        remembers(cache, mem),
        layout.op_array_filename + 8 <= 192,
        layout.op_array_line_start + 4 <= 192,
        holds_frame(mem, layout, addr, f, prev),
    ensures
        zend::frame_at(cache, mem, addr, layout).0 == Ok::<(FrameView, u64), ReadError>((f, prev)),
        remembers(zend::frame_at(cache, mem, addr, layout).1, mem),
{
    let (ex, func) = choose|ex: Seq<u8>, func: Seq<u8>| #[trigger]
        is_frame(mem, layout, addr, ex, func, f, prev);
    memory::lemma_reads(mem, addr, 64);
    memory::lemma_fields(ex, 0);
    memory::lemma_fields(ex, 24);
    memory::lemma_fields(ex, 48);
    if number_at(ex, 24, 8) != 0 {
        memory::lemma_reads(mem, number_at(ex, 24, 8) as u64, 192);
        memory::lemma_fields(func, 8);
        let name = zend::field64(func, 8);
        memory::lemma_remembered_string(cache, mem, name);
        let cache1 = zend::function_name(cache, mem, name).1;
        lemma_class(cache1, mem, func, f.class);
        let cache2 = zend::class_name(cache1, mem, zend::field64(func, 16)).1;
        lemma_file(cache2, mem, func, layout, f.file);
        let opline = number_at(ex, 0, 8) as u64;
        lemma_starting_line(mem, opline, func, layout);
        if func[0] == 2 && runs_line(mem, opline, f.line as int) {
            lemma_running_line(mem, opline, func, layout, f.line as int);
        }
    }
}

/// A frame whose execute data, or whose function, cannot be read is not read.
pub proof fn lemma_unreadable_frame(
    cache: Cache,
    mem: Memory,
    layout: VersionLayout,
    addr: u64,
    ex: Seq<u8>,
)
    requires
        fails(mem, addr, 64) || (gives(mem, addr, 64, ex) && number_at(ex, 24, 8) != 0 && fails(
            mem,
            number_at(ex, 24, 8) as u64,
            192,
        )),
    ensures
        zend::frame_at(cache, mem, addr, layout).0 matches Err(ReadError::Failed { .. }),
        zend::frame_at(cache, mem, addr, layout).1 == cache,
{
    memory::lemma_reads(mem, addr, 64);
    if !fails(mem, addr, 64) {
        memory::lemma_fields(ex, 24);
        memory::lemma_reads(mem, number_at(ex, 24, 8) as u64, 192);
    }
}

/// A frame that is read lies there: nothing is read that does not, and a frame of
/// which a part cannot be read is not read at all.
pub proof fn lemma_read_frame_lies_there(
    cache: Cache,
    mem: Memory,
    layout: VersionLayout,
    addr: u64,
    f: FrameView,
    prev: u64,
)
    requires
        whole(mem),
        remembers_only(cache, mem),
        layout.op_array_filename + 8 <= 192,
        layout.op_array_line_start + 4 <= 192,
        zend::frame_at(cache, mem, addr, layout).0 == Ok::<(FrameView, u64), ReadError>((f, prev)),
    ensures
        holds_frame(mem, layout, addr, f, prev),
{
    assert(mem.dom().contains((addr, 64usize)));
    let ex = mem[(addr, 64usize)]->0;
    memory::lemma_fields(ex, 0);
    memory::lemma_fields(ex, 24);
    memory::lemma_fields(ex, 48);
    let at = zend::field64(ex, 24);
    if at == 0 {
        assert(is_frame(mem, layout, addr, ex, Seq::empty(), f, prev));
    } else {
        assert(mem.dom().contains((at, 192usize)));
        let func = mem[(at, 192usize)]->0;
        memory::lemma_fields(func, 8);
        memory::lemma_fields(func, 16);
        memory::lemma_fields(func, layout.op_array_filename as int);
        memory::lemma_fields(func, layout.op_array_line_start as int);
        let name = zend::field64(func, 8);
        memory::lemma_remembered_lies_there(cache, mem, name);
        let cache1 = zend::function_name(cache, mem, name).1;
        let scope = zend::field64(func, 16);
        memory::lemma_read_lies_there(mem, scope.wrapping_add(8));
        if scope != 0 {
            let class = value(mem, scope.wrapping_add(8), 8)->0;
            memory::lemma_remembered_lies_there(cache1, mem, class as u64);
        }
        let cache2 = zend::class_name(cache1, mem, scope).1;
        memory::lemma_remembered_lies_there(
            cache2,
            mem,
            zend::field64(func, layout.op_array_filename as int),
        );
        let opline = zend::field64(ex, 0);
        memory::lemma_read_lies_there(mem, opline.wrapping_add(24));
        assert(is_frame(mem, layout, addr, ex, func, f, prev));
    }
}

// Stacks

/// Whether the frame at an index of a list lies at the address of that index,
/// with the frame before it at the next address.
pub open spec fn lies_at(
    mem: Memory,
    layout: VersionLayout,
    addrs: Seq<u64>,
    frames: Seq<FrameView>,
    i: int,
) -> bool {
    addrs[i] != 0 && holds_frame(mem, layout, addrs[i], frames[i], addrs[i + 1])
}

/// Whether frames lie one before the other, from the first address on to the
/// last, where there is none of them any more.
pub open spec fn linked(
    mem: Memory,
    layout: VersionLayout,
    addrs: Seq<u64>,
    frames: Seq<FrameView>,
) -> bool {
    &&& addrs.len() == frames.len() + 1
    &&& forall|i: int|
        0 <= i < frames.len() ==> #[trigger] lies_at(mem, layout, addrs, frames, i)
}

/// Whether a chain of frames ends at an address: it is null, or no frame can be
/// read there.
pub open spec fn ends_at(mem: Memory, addr: u64) -> bool {
    addr == 0 || fails(mem, addr, 64)
}

proof fn lemma_linked_rest(
    mem: Memory,
    layout: VersionLayout,
    addrs: Seq<u64>,
    frames: Seq<FrameView>,
)
    requires
        linked(mem, layout, addrs, frames),
        frames.len() > 0,
    ensures
        linked(mem, layout, addrs.drop_first(), frames.drop_first()),
        addrs[0] != 0,
        holds_frame(mem, layout, addrs[0], frames[0], addrs[1]),
{
    let more = addrs.drop_first();
    let rest = frames.drop_first();
    assert(lies_at(mem, layout, addrs, frames, 0));
    assert forall|i: int| 0 <= i < rest.len() implies #[trigger] lies_at(
        mem,
        layout,
        more,
        rest,
        i,
    ) by {
        assert(lies_at(mem, layout, addrs, frames, i + 1));
        assert(rest[i] == frames[i + 1]);
    }
}

/// A frame that is read comes before those from the one before it on.
proof fn lemma_stack_step(
    cache: Cache,
    mem: Memory,
    layout: VersionLayout,
    addr: u64,
    f: FrameView,
    prev: u64,
    depth: nat,
)
    requires
        addr != 0,
        depth > 0,
        zend::frame_at(cache, mem, addr, layout).0 == Ok::<(FrameView, u64), ReadError>((f, prev)),
    ensures
        target::stack_from(cache, mem, addr, layout, depth) == target::joined(
            seq![f],
            target::stack_from(
                zend::frame_at(cache, mem, addr, layout).1,
                mem,
                prev,
                layout,
                (depth - 1) as nat,
            ),
        ),
{
}

/// The frames that are captured of those that lie in memory.
pub open spec fn innermost(frames: Seq<FrameView>, depth: nat) -> Seq<FrameView> {
    if depth < frames.len() {
        frames.take(depth as int)
    } else {
        frames
    }
}

proof fn lemma_stack(
    cache: Cache,
    mem: Memory,
    layout: VersionLayout,
    addrs: Seq<u64>,
    frames: Seq<FrameView>,
    depth: nat,
)
    requires
        remembers(cache, mem),
        layout.op_array_filename + 8 <= 192,
        layout.op_array_line_start + 4 <= 192,
        linked(mem, layout, addrs, frames),
        depth <= frames.len() || ends_at(mem, addrs.last()),
    ensures
        target::stack_from(cache, mem, addrs[0], layout, depth).0 == Ok::<
            Seq<FrameView>,
            ReadError,
        >(innermost(frames, depth)),
    decreases depth,
{
    if depth == 0 {
        assert(innermost(frames, depth) =~= Seq::<FrameView>::empty());
    } else if frames.len() == 0 {
        assert(frames =~= Seq::<FrameView>::empty());
        if addrs[0] != 0 {
            lemma_unreadable_frame(cache, mem, layout, addrs[0], Seq::empty());
        }
    } else {
        let more = addrs.drop_first();
        let rest = frames.drop_first();
        let less = (depth - 1) as nat;
        lemma_linked_rest(mem, layout, addrs, frames);
        lemma_reads_frame(cache, mem, layout, addrs[0], frames[0], addrs[1]);
        lemma_stack_step(cache, mem, layout, addrs[0], frames[0], addrs[1], depth);
        let after = zend::frame_at(cache, mem, addrs[0], layout).1;
        assert(more.last() == addrs.last());
        lemma_stack(after, mem, layout, more, rest, less);
        assert(seq![frames[0]] + innermost(rest, less) =~= innermost(frames, depth));
    }
}

/// Capturing a stack gives the frames that lie in memory from the running one
/// on, innermost first, none left out and none added: all of them to where the
/// chain ends, or the innermost ones if there are more than are wanted.
pub proof fn lemma_captures_stack(
    cache: Cache,
    mem: Memory,
    executor_globals: u64,
    layout: VersionLayout,
    addrs: Seq<u64>,
    frames: Seq<FrameView>,
    max_depth: nat,
)
    requires
        remembers(cache, mem),
        layout.op_array_filename + 8 <= 192,
        layout.op_array_line_start + 4 <= 192,
        linked(mem, layout, addrs, frames),
        value(mem, executor_globals.wrapping_add(layout.eg_current_execute_data), 8) == Some(
            addrs[0] as int,
        ),
        max_depth <= frames.len() || ends_at(mem, addrs.last()),
    ensures
        target::captured(cache, mem, executor_globals, layout, max_depth).0 == Ok::<
            Seq<FrameView>,
            ReadError,
        >(innermost(frames, max_depth)),
{
    memory::lemma_reads_number(
        mem,
        executor_globals.wrapping_add(layout.eg_current_execute_data),
    );
    lemma_stack(cache, mem, layout, addrs, frames, max_depth);
}

/// A stack whose running frame cannot be found is not captured.
pub proof fn lemma_no_running_frame(
    cache: Cache,
    mem: Memory,
    executor_globals: u64,
    layout: VersionLayout,
    max_depth: nat,
)
    requires
        fails(mem, executor_globals.wrapping_add(layout.eg_current_execute_data), 8),
    ensures
        target::captured(cache, mem, executor_globals, layout, max_depth).0 matches Err(
            ReadError::Failed { .. },
        ),
{
    memory::lemma_reads_number(
        mem,
        executor_globals.wrapping_add(layout.eg_current_execute_data),
    );
}

} // verus!
