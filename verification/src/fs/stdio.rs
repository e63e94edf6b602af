//! The console as a file.

use vstd::prelude::*;
use vstd::utf8::{encode_utf8, valid_utf8};

use crate::easy_fs::layout::text_of;
use crate::mm::frame_allocator::{same_frames, Memory};
use crate::mm::user::{
    bytes_at, in_memory, lemma_cells_index, put_bytes, UserBuffer, UserSegment,
};

verus! {

/// The keyboard.
pub struct Stdin;

/// The screen.
pub struct Stdout;

/// What a read of the keyboard does with what the console gave.
pub enum StdinStep {
    /// No key was pressed: let others run and ask again.
    Wait,
    /// So many bytes were read.
    Done(usize),
}

impl Stdin {
    /// It can be read.
    pub fn readable(&self) -> (r: bool)
        ensures
            r,
    {
        true
    }

    /// It cannot be written.
    pub fn writable(&self) -> (r: bool)
        ensures
            !r,
    {
        false
    }

    /// Takes what the console gave, 0 for no key. A key goes into the buffer, which has room for
    /// one.
    pub fn read(&self, c: u64, buf: &UserBuffer, memory: &mut Memory) -> (r: StdinStep)
        requires
            in_memory(buf.segments@, old(memory)@),
            buf.cells().len() == 1,
        ensures
            c == 0 ==> r == StdinStep::Wait && *final(memory) == *old(memory),
            c != 0 ==> {
                &&& r == StdinStep::Done(1)
                &&& final(memory)@ == put_bytes(old(memory)@, buf.cells(), seq![c as u8], 1)
                &&& same_frames(old(memory), final(memory))
            },
    {
        if c == 0 {
            return StdinStep::Wait;
        }
        proof {
            let segs = buf.segments@;
            assert(segs.len() > 0);
            assert(segs[0].wf());
            lemma_cells_index(segs, 0, segs.len() as int);
            assert(segs.take(segs.len() as int) =~= segs);
            assert(segs.take(0) =~= Seq::empty());
            assert(buf.cells()[0] == segs[0].cells()[0]);
            reveal_with_fuel(put_bytes, 2);
        }
        let first: UserSegment = buf.segments[0];
        let ch: u8 = #[verifier::truncate] (c as u8);
        memory.write_byte(first.ppn, first.start, ch);
        assert(memory@.dom() =~= old(memory)@.dom());
        StdinStep::Done(1)
    }
}

/// The bytes of a run are text.
pub open spec fn run_is_text(mem: Map<int, Seq<u8>>, run: UserSegment) -> bool {
    valid_utf8(bytes_at(mem, run.cells()))
}

impl Stdout {
    /// It cannot be read.
    pub fn readable(&self) -> (r: bool)
        ensures
            !r,
    {
        false
    }

    /// It can be written.
    pub fn writable(&self) -> (r: bool)
        ensures
            r,
    {
        true
    }

    /// What appears on the screen, run by run, and the number of bytes; `None` if a run is no text.
    pub fn write(&self, buf: &UserBuffer, memory: &Memory) -> (r: Option<(Vec<String>, usize)>)
        requires
            memory.wf(),
            in_memory(buf.segments@, memory@),
            buf.cells().len() <= usize::MAX,
        ensures
            r is Some <==> forall|i: int|
                0 <= i < buf.segments@.len() ==> run_is_text(memory@, #[trigger] buf.segments@[i]),
            r matches Some(out) ==> {
                &&& out.1 == buf.cells().len()
                &&& out.0@.len() == buf.segments@.len()
                &&& forall|i: int|
                    0 <= i < buf.segments@.len() ==> encode_utf8(#[trigger] out.0@[i]@) == bytes_at(
                        memory@,
                        buf.segments@[i].cells(),
                    )
            },
    {
        let mut lines: Vec<String> = Vec::new();
        let mut i: usize = 0;
        while i < buf.segments.len()
            invariant
                i <= buf.segments@.len(),
                memory.wf(),
                in_memory(buf.segments@, memory@),
                lines@.len() == i,
                forall|j: int|
                    0 <= j < i ==> run_is_text(memory@, #[trigger] buf.segments@[j]) && encode_utf8(
                        lines@[j]@,
                    ) == bytes_at(memory@, buf.segments@[j].cells()),
            decreases buf.segments@.len() - i,
        {
            let run: UserSegment = buf.segments[i];
            proof {
                memory.lemma_wf();
                assert(buf.segments@[i as int].wf());
            }
            let bytes: Vec<u8> = memory.read_page(run.ppn, run.start, run.end);
            assert(bytes@ =~= bytes_at(memory@, run.cells()));
            match text_of(bytes.as_slice()) {
                Some(text) => {
                    lines.push(text.to_owned());
                },
                None => {
                    assert(!run_is_text(memory@, buf.segments@[i as int]));
                    return None;
                },
            }
            i += 1;
        }
        Some((lines, buf.len()))
    }
}

} // verus!
