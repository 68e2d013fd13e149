//! What the name of a scratch file says of it, and how its content is read.
//!
//! The name of a file is made of segments with `_` between them. The first
//! segment is the type of the metrics of the file. In the name of a gauge
//! file the second segment is the multiprocess mode, which starts with `live`
//! where the file may vanish with its process, and the third is the process id
//! with an extension behind it: what follows the last `.` of the segment, and
//! that `.`.

use crate::error::{fails_with, Corruption, MergeError};
use crate::layout::{read_u32, spec_u32, ByteOrder};
use crate::lookup::{first_place, lemma_first_place_found};
use crate::record::{decode_records, decoded_as, spec_decode, Record, RecordView};
use crate::text::str_eq;
use vstd::prelude::*;

verus! {

/// The count of bytes to ask for in the first read of a file.
pub const FIRST_READ_LEN: usize = 4096;

/// What the name of a file says of it.
#[derive(Debug)]
pub struct FileClass {
    /// The type of the metrics of the file.
    pub typ: String,
    /// The multiprocess mode, for a gauge file.
    pub mode: Option<String>,
    /// The process id, for a gauge file whose name has a third segment.
    pub pid: Option<String>,
    /// Whether this is a gauge file of a mode that starts with `live`.
    pub live: bool,
}

/// What a file class holds.
pub struct FileClassView {
    pub typ: Seq<char>,
    pub mode: Option<Seq<char>>,
    pub pid: Option<Seq<char>>,
    pub live: bool,
}

/// The text of a string that may be there.
pub open spec fn option_text(s: Option<String>) -> Option<Seq<char>> {
    match s {
        Some(s) => Some(s@),
        None => None,
    }
}

impl View for FileClass {
    type V = FileClassView;

    open spec fn view(&self) -> FileClassView {
        FileClassView {
            typ: self.typ@,
            mode: option_text(self.mode),
            pid: option_text(self.pid),
            live: self.live,
        }
    }
}

/// The text before the first `_`, or all of it where it has none.
pub open spec fn head(s: Seq<char>) -> Seq<char> {
    match first_place(s, '_') {
        Some(i) => s.take(i),
        None => s,
    }
}

/// The text behind the first `_`, if it has one.
pub open spec fn tail(s: Seq<char>) -> Option<Seq<char>> {
    match first_place(s, '_') {
        Some(i) => Some(s.skip(i + 1)),
        None => None,
    }
}

/// The segment at `n`, if the text has so many.
pub open spec fn segment(s: Seq<char>, n: nat) -> Option<Seq<char>>
    decreases n,
{
    if n == 0 {
        Some(head(s))
    } else {
        match tail(s) {
            Some(rest) => segment(rest, (n - 1) as nat),
            None => None,
        }
    }
}

/// The place of the last `.` of the text, if it has one.
pub open spec fn last_dot(s: Seq<char>) -> Option<int>
    decreases s.len(),
{
    if s.len() == 0 {
        None
    } else if s.last() == '.' {
        Some(s.len() - 1)
    } else {
        last_dot(s.drop_last())
    }
}

/// The text without its extension: what stands before its last `.`, and all
/// of it where it has none.
pub open spec fn without_extension(s: Seq<char>) -> Seq<char> {
    match last_dot(s) {
        Some(i) => s.take(i),
        None => s,
    }
}

/// The process id in a segment: the segment without its extension.
pub open spec fn pid_of(segment: Option<Seq<char>>) -> Option<Seq<char>> {
    match segment {
        Some(s) => Some(without_extension(s)),
        None => None,
    }
}

/// The last `.` of a text is a `.`, and none follows it.
pub proof fn lemma_last_dot(s: Seq<char>)
    ensures
        match last_dot(s) {
            Some(i) => 0 <= i < s.len() && s[i] == '.' && forall|j: int|
                i < j < s.len() ==> s[j] != '.',
            None => forall|j: int| 0 <= j < s.len() ==> s[j] != '.',
        },
    decreases s.len(),
{
    if s.len() > 0 && s.last() != '.' {
        lemma_last_dot(s.drop_last());
        match last_dot(s) {
            Some(i) => {
                assert forall|j: int| i < j < s.len() implies s[j] != '.' by {
                    if j < s.len() - 1 {
                        assert(s.drop_last()[j] == s[j]);
                    }
                }
            },
            None => {
                assert forall|j: int| 0 <= j < s.len() implies s[j] != '.' by {
                    if j < s.len() - 1 {
                        assert(s.drop_last()[j] == s[j]);
                    }
                }
            },
        }
    }
}

/// Whether `part` stands in `whole` at some place, character by character.
pub open spec fn stands_in(part: Seq<char>, whole: Seq<char>) -> bool {
    exists|i: int|
        0 <= i && i + part.len() <= whole.len() && #[trigger] whole.subrange(i, i + part.len())
            == part
}

/// What the name of a file says of it. The name of a gauge file must give the
/// mode.
pub open spec fn spec_classify(name: Seq<char>) -> Result<FileClassView, Corruption> {
    let typ = head(name);
    if typ == "gauge"@ {
        match segment(name, 1) {
            Some(mode) => Ok(
                FileClassView {
                    typ,
                    mode: Some(mode),
                    pid: pid_of(segment(name, 2)),
                    live: "live"@.is_prefix_of(mode),
                },
            ),
            None => Err(Corruption::InvalidFileName),
        }
    } else {
        Ok(FileClassView { typ, mode: None, pid: None, live: false })
    }
}

/// The place of the first `_` of the text.
fn find_underscore(s: &str) -> (r: Option<usize>)
    ensures
        match r {
            Some(i) => first_place(s@, '_') == Some(i as int) && i < s@.len(),
            None => first_place(s@, '_') is None,
        },
{
    let n = s.unicode_len();
    let mut i: usize = 0;
    while i < n
        invariant
            i <= n,
            n == s@.len(),
            forall|j: int| 0 <= j < i ==> s@[j] != '_',
        decreases n - i,
    {
        if s.get_char(i) == '_' {
            proof {
                lemma_first_place_found(s@, '_', i as int);
            }
            return Some(i);
        }
        i += 1;
    }
    None
}

/// The text before the first `_` and the text behind it.
fn split_segment<'a>(s: &'a str) -> (r: (&'a str, Option<&'a str>))
    ensures
        r.0@ == head(s@),
        match r.1 {
            Some(rest) => tail(s@) == Some(rest@),
            None => tail(s@) is None,
        },
{
    match find_underscore(s) {
        Some(i) => {
            let n = s.unicode_len();
            (s.substring_char(0, i), Some(s.substring_char(i + 1, n)))
        },
        None => (s, None),
    }
}

/// The text without its extension.
fn strip_extension<'a>(s: &'a str) -> (r: &'a str)
    ensures
        r@ == without_extension(s@),
{
    let n = s.unicode_len();
    let mut i: usize = n;
    assert(s@.take(n as int) =~= s@);
    while i > 0
        invariant
            i <= n,
            n == s@.len(),
            last_dot(s@) == last_dot(s@.take(i as int)),
        decreases i,
    {
        assert(s@.take(i as int).drop_last() =~= s@.take(i - 1));
        assert(s@.take(i as int).last() == s@[i - 1]);
        if s.get_char(i - 1) == '.' {
            let r = s.substring_char(0, i - 1);
            assert(s@.subrange(0, i - 1) =~= s@.take(i - 1));
            return r;
        }
        i -= 1;
    }
    assert(s@.take(0) =~= Seq::<char>::empty());
    s
}

/// Whether the text starts with `live`.
fn starts_with_live(s: &str) -> (r: bool)
    ensures
        r == "live"@.is_prefix_of(s@),
{
    proof {
        reveal_strlit("live");
    }
    if s.unicode_len() < 4 {
        return false;
    }
    let r = str_eq(s.substring_char(0, 4), "live");
    assert(r ==> "live"@ =~= s@.subrange(0, 4));
    r
}

/// Reads off the name of a file, without the directories before it, what the
/// file holds.
///
/// Fails, on corruption of the kind [`Corruption::InvalidFileName`], for the
/// name of a gauge file that has no second segment, and only there.
pub fn classify_file_name(name: &str) -> (r: Result<FileClass, MergeError>)
    ensures
        match spec_classify(name@) {
            Ok(class) => r is Ok && r->Ok_0@ == class,
            Err(c) => fails_with(r, c),
        },
{
    let (typ, rest) = split_segment(name);
    if !str_eq(typ, "gauge") {
        return Ok(FileClass { typ: typ.to_owned(), mode: None, pid: None, live: false });
    }
    let rest = match rest {
        Some(rest) => rest,
        None => {
            return Err(MergeError::DataCorruption(Corruption::InvalidFileName));
        },
    };
    let (mode, rest) = split_segment(rest);
    assert(segment(name@, 1) == Some(mode@)) by {
        reveal_with_fuel(segment, 2);
    }
    let pid = match rest {
        Some(rest) => {
            let (third, _) = split_segment(rest);
            assert(segment(name@, 2) == Some(third@)) by {
                reveal_with_fuel(segment, 3);
            }
            Some(strip_extension(third).to_owned())
        },
        None => {
            assert(segment(name@, 2) is None) by {
                reveal_with_fuel(segment, 3);
            }
            None
        },
    };
    Ok(FileClass { typ: typ.to_owned(), mode: Some(mode.to_owned()), pid, live: starts_with_live(mode) })
}

/// `std::path::Path::file_name`: the last component of a path, and none where
/// the path has none. What a component is depends on the platform; on each, a
/// component is a part of the path and is not empty.
#[verifier::external_body]
fn path_file_name(path: &str) -> (r: Option<String>)
    ensures
        r matches Some(name) ==> name@.len() > 0 && stands_in(name@, path@),
{
    match std::path::Path::new(path).file_name() {
        Some(name) => match name.to_str() {
            Some(name) => Some(name.to_owned()),
            None => None,
        },
        None => None,
    }
}

/// The name of the file of a path, without the directories before it, as the
/// platform takes paths apart: a part of the path that is not empty, and none
/// where the path has no last component.
pub fn file_name_of(path: &str) -> (r: Option<String>)
    ensures
        r matches Some(name) ==> name@.len() > 0 && stands_in(name@, path@),
{
    path_file_name(path)
}

/// The used length that the first bytes of a file declare.
pub open spec fn declared_used(data: Seq<u8>, order: ByteOrder) -> int
    recommends
        data.len() >= 4,
{
    spec_u32(data.subrange(0, 4), order) as int
}

/// The count of bytes that are still to be read behind what a first read
/// gave: what the declared used length has more than was read.
pub open spec fn spec_still_to_read(first: Seq<u8>, order: ByteOrder) -> Result<int, Corruption> {
    if first.len() < 4 {
        Err(Corruption::ShortHeader)
    } else if declared_used(first, order) > first.len() {
        Ok(declared_used(first, order) - first.len())
    } else {
        Ok(0)
    }
}

/// The records of a file of which `data` could be read.
pub open spec fn spec_load(data: Seq<u8>, order: ByteOrder) -> Result<Seq<RecordView>, Corruption> {
    if data.len() < 4 {
        Err(Corruption::ShortHeader)
    } else {
        spec_decode(data, declared_used(data, order), order)
    }
}

/// Says, from what the first read of a file gave, how many more bytes the
/// second read is to ask for: none where the first read reached the used
/// length.
///
/// Fails, on corruption of the kind [`Corruption::ShortHeader`], where the
/// first read gave fewer than four bytes.
pub fn still_to_read(first: &Vec<u8>, order: ByteOrder) -> (r: Result<usize, MergeError>)
    ensures
        match spec_still_to_read(first@, order) {
            Ok(n) => r is Ok && r->Ok_0 == n,
            Err(c) => fails_with(r, c),
        },
{
    if first.len() < 4 {
        return Err(MergeError::DataCorruption(Corruption::ShortHeader));
    }
    let used: usize = read_u32(first, 0, order) as usize;
    if used > first.len() {
        Ok(used - first.len())
    } else {
        Ok(0)
    }
}

/// Decodes the records of a file from the bytes that were read of it.
///
/// A file that declares no used bytes has no records. A file of fewer than
/// four bytes, a file that declares more used bytes than were read, a record
/// that runs past the used length and a key that is not UTF-8 are reported,
/// each as the kind of corruption it is.
pub fn load_records(data: &Vec<u8>, order: ByteOrder) -> (r: Result<Vec<Record>, MergeError>)
    ensures
        decoded_as(r, spec_load(data@, order)),
        data.len() >= 4 && declared_used(data@, order) == 0 ==> r is Ok && r->Ok_0.len() == 0,
        data.len() >= 4 && declared_used(data@, order) > data.len() ==> fails_with(
            r,
            Corruption::TruncatedFile,
        ),
{
    if data.len() < 4 {
        return Err(MergeError::DataCorruption(Corruption::ShortHeader));
    }
    let used: usize = read_u32(data, 0, order) as usize;
    decode_records(data, used, order)
}

} // verus!
