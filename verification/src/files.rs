//! Where the log keeps its files. A path is the bytes by which the system knows it.

use vstd::prelude::*;
use vstd::slice::slice_subrange;

use crate::text::{ascii, ascii_bytes, decimal, law_parsing_undoes_printing, parse_u32, parsed_u32,
    push_decimal};

verus! {

/// Identifies a segment. The lower the ID, the older the segment.
pub type SegmentID = u32;

/// Log sequence number of an entry.
pub type LSN = u32;

/// Name of the file that holds the latest checkpoint.
pub const CHECKPOINT_FILE_NAME: &'static str = ".checkpoint";

/// What the name of a segment starts with, in front of its ID.
pub const SEGMENT_NAME_PREFIX: &'static str = "segment-";

/// The code of `/`.
pub const SLASH: u8 = 47;

/// The path of the file `name` in the directory `dir`.
pub open spec fn joined(dir: Seq<u8>, name: Seq<u8>) -> Seq<u8> {
    if dir.len() == 0 || dir.last() == SLASH {
        dir + name
    } else {
        dir.push(SLASH) + name
    }
}

/// The name of a segment.
pub open spec fn segment_file_name(segment_id: SegmentID) -> Seq<u8> {
    ascii(SEGMENT_NAME_PREFIX@) + decimal(segment_id as nat)
}

/// The ID of the segment that a file of the given name is, if it is one.
pub open spec fn segment_id_of(name: Seq<u8>) -> Option<SegmentID> {
    let prefix = ascii(SEGMENT_NAME_PREFIX@);
    if prefix.is_prefix_of(name) {
        parsed_u32(name.skip(prefix.len() as int))
    } else {
        None
    }
}

/// The path of a file whose name is relative and not empty.
pub(crate) fn join(dir: &[u8], name: &[u8]) -> (path: Vec<u8>)
    ensures
        path@ == joined(dir@, name@),
{
    let mut path: Vec<u8> = Vec::new();
    path.extend_from_slice(dir);
    if dir.len() > 0 && dir[dir.len() - 1] != SLASH {
        path.push(SLASH);
    }
    path.extend_from_slice(name);
    assert(path@ =~= joined(dir@, name@));
    path
}

/// The path of the segment with the given ID.
pub fn segment_path(dir: &[u8], segment_id: SegmentID) -> (path: Vec<u8>)
    ensures
        path@ == joined(dir@, segment_file_name(segment_id)),
{
    proof {
        reveal_strlit("segment-");
    }
    let mut name: Vec<u8> = Vec::new();
    name.extend_from_slice(ascii_bytes(SEGMENT_NAME_PREFIX));
    push_decimal(&mut name, segment_id);
    assert(name@ =~= segment_file_name(segment_id));
    join(dir, name.as_slice())
}

/// The ID of the segment that a file of the given name is, if it is one.
pub fn parse_segment_name(name: &[u8]) -> (r: Option<SegmentID>)
    ensures
        r == segment_id_of(name@),
{
    proof {
        reveal_strlit("segment-");
    }
    let prefix: &[u8] = ascii_bytes(SEGMENT_NAME_PREFIX);
    if name.len() < prefix.len() {
        return None;
    }
    let mut i: usize = 0;
    while i < prefix.len()
        invariant
            i <= prefix@.len() <= name@.len(),
            prefix@ == ascii(SEGMENT_NAME_PREFIX@),
            forall|j: int| 0 <= j < i ==> prefix@[j] == name@[j],
        decreases prefix@.len() - i,
    {
        if prefix[i] != name[i] {
            return None;
        }
        i = i + 1;
    }
    assert(prefix@ =~= name@.take(prefix@.len() as int));
    assert(name@.skip(prefix@.len() as int) =~= name@.subrange(i as int, name@.len() as int));
    parse_u32(slice_subrange(name, i, name.len()))
}

/// The name of a segment tells its ID.
pub proof fn law_segment_name_tells_id(segment_id: SegmentID)
    ensures
        segment_id_of(segment_file_name(segment_id)) == Some(segment_id),
{
    law_parsing_undoes_printing(segment_id);
    let prefix = ascii(SEGMENT_NAME_PREFIX@);
    let name = segment_file_name(segment_id);
    assert(name.take(prefix.len() as int) =~= prefix);
    assert(name.skip(prefix.len() as int) =~= decimal(segment_id as nat));
}

/// No two segments share a path.
pub proof fn law_segment_paths_differ(dir: Seq<u8>, a: SegmentID, b: SegmentID)
    requires
        a != b,
    ensures
        joined(dir, segment_file_name(a)) != joined(dir, segment_file_name(b)),
{
    law_segment_name_tells_id(a);
    law_segment_name_tells_id(b);
    let n = joined(dir, Seq::empty()).len() as int;
    assert(joined(dir, segment_file_name(a)).skip(n) =~= segment_file_name(a));
    assert(joined(dir, segment_file_name(b)).skip(n) =~= segment_file_name(b));
}

/// A file is in a directory: the path is that of the directory, a slash unless there is one, and the
/// name.
pub proof fn law_path_leads_into_the_directory(dir: Seq<u8>, name: Seq<u8>)
    ensures
        joined(Seq::empty(), name) == name,
        dir.len() > 0 && dir.last() != 47 ==> joined(dir, name) == dir + seq![47u8] + name,
        joined(dir.push(47), name) == dir + seq![47u8] + name,
{
    assert(joined(Seq::empty(), name) =~= name);
    assert(dir.push(47) =~= dir + seq![47u8]);
}

/// The segments are the files whose names are `segment-` and a number, and no others.
pub proof fn law_segments_by_name(segment_id: SegmentID, name: Seq<u8>)
    ensures
        segment_file_name(segment_id) == ascii("segment-"@) + decimal(segment_id as nat),
        ascii("segment-"@).is_prefix_of(name) ==> segment_id_of(name) == parsed_u32(
            name.skip(ascii("segment-"@).len() as int),
        ),
        !ascii("segment-"@).is_prefix_of(name) ==> segment_id_of(name) is None,
{
}

} // verus!
