//! The lines under which files and events are shown. A line is bytes, as
//! the paths are.

use vstd::prelude::*;
use crate::model::{is_under, relative_to, Event, EventType, File};

verus! {

/// The tag of an event kind, as bytes.
pub open spec fn tag_bytes(kind: EventType) -> Seq<u8> {
    match kind {
        EventType::NEW => seq![78u8, 69u8, 87u8],
        EventType::MOD => seq![77u8, 79u8, 68u8],
        EventType::DEL => seq![68u8, 69u8, 76u8],
    }
}

/// A line: `head` in square brackets, a space, a separator, `tail`, and a line feed.
pub open spec fn line_of(head: Seq<u8>, tail: Seq<u8>) -> Seq<u8> {
    seq![91u8] + head + seq![93u8, 32u8, 47u8] + tail + seq![10u8]
}

/// Appends the bytes of `src` to `out`.
pub fn push_all(out: &mut Vec<u8>, src: &Vec<u8>)
    ensures
        final(out)@ == old(out)@ + src@,
{
    let ghost start = out@;
    let mut i: usize = 0;
    proof {
        assert(start + src@.take(0) =~= start);
    }
    while i < src.len()
        invariant
            i <= src.len(),
            out@ == start + src@.take(i as int),
        decreases src.len() - i,
    {
        out.push(src[i]);
        proof {
            assert(start + src@.take(i + 1) =~= (start + src@.take(i as int)).push(src@[i as int]));
        }
        i += 1;
    }
    proof {
        assert(src@.take(src.len() as int) =~= src@);
    }
}

/// The tag of an event kind.
pub fn tag(kind: EventType) -> (r: Vec<u8>)
    ensures
        r@ == tag_bytes(kind),
{
    let mut out: Vec<u8> = Vec::new();
    match kind {
        EventType::NEW => {
            out.push(78u8);
            out.push(69u8);
            out.push(87u8);
        },
        EventType::MOD => {
            out.push(77u8);
            out.push(79u8);
            out.push(68u8);
        },
        EventType::DEL => {
            out.push(68u8);
            out.push(69u8);
            out.push(76u8);
        },
    }
    proof {
        assert(out@ =~= tag_bytes(kind));
    }
    out
}

/// The line made of `head` and `tail`.
pub fn frame_line(head: &Vec<u8>, tail: &Vec<u8>) -> (r: Vec<u8>)
    ensures
        r@ == line_of(head@, tail@),
{
    let mut out: Vec<u8> = Vec::new();
    out.push(91u8);
    push_all(&mut out, head);
    out.push(93u8);
    out.push(32u8);
    out.push(47u8);
    push_all(&mut out, tail);
    out.push(10u8);
    proof {
        assert(out@ =~= line_of(head@, tail@));
    }
    out
}

/// The line that shows an event: its tag, and the path of its file below `base`.
pub fn event_line(event: &Event, base: &Vec<u8>) -> (r: Vec<u8>)
    requires
        is_under(event@.file.path, base@),
    ensures
        r@ == line_of(tag_bytes(event@.ev_type), relative_to(event@.file.path, base@)),
{
    let head = tag(event.ev_type);
    let tail = event.file.get_relative_path(base);
    frame_line(&head, &tail)
}

/// The line that shows a file of a snapshot: the text of its modification
/// time, as the caller rendered it, and its path below `base`.
pub fn file_line(date: &Vec<u8>, file: &File, base: &Vec<u8>) -> (r: Vec<u8>)
    requires
        is_under(file@.path, base@),
    ensures
        r@ == line_of(date@, relative_to(file@.path, base@)),
{
    let tail = file.get_relative_path(base);
    frame_line(date, &tail)
}

} // verus!
