//! Paths: their segments, and the search of a listing for a name.

use vstd::prelude::*;
use vstd::utf8::encode_utf8;
use vstd::string::StringSliceAdditionalSpecFns;
use crate::bytes::bytes_equal;
use crate::file_system::{info_views, FileInfo, FileInfoView};

verus! {

/// The byte that parts the segments of a path, `/`.
pub const SLASH: u8 = 0x2F;

/// The byte `.`.
pub const DOT: u8 = 0x2E;

/// The segment `.`, which names the directory itself.
pub open spec fn dot() -> Seq<u8> {
    seq![DOT]
}

/// The segment `..`, which names the parent directory.
pub open spec fn dot_dot() -> Seq<u8> {
    seq![DOT, DOT]
}

/// The segment `run`, where it is not empty.
pub open spec fn segment_if_any(run: Seq<u8>) -> Seq<Seq<u8>> {
    if run.len() > 0 {
        seq![run]
    } else {
        Seq::empty()
    }
}

/// The segments of `path`, with `run` the bytes read since the last `/`.
pub open spec fn segments_after(path: Seq<u8>, run: Seq<u8>) -> Seq<Seq<u8>>
    decreases path.len(),
{
    if path.len() == 0 {
        segment_if_any(run)
    } else if path[0] == SLASH {
        segment_if_any(run) + segments_after(path.drop_first(), Seq::empty())
    } else {
        segments_after(path.drop_first(), run.push(path[0]))
    }
}

/// The segments of a path: the runs of bytes between its `/`, without the
/// empty ones.
pub open spec fn path_segments(path: Seq<u8>) -> Seq<Seq<u8>> {
    segments_after(path, Seq::empty())
}

/// Whether a path starts at the root directory.
pub open spec fn is_absolute(path: Seq<u8>) -> bool {
    path.len() > 0 && path[0] == SLASH
}

/// The segments of a list, each as a sequence of bytes.
pub open spec fn segment_views(segments: Seq<Vec<u8>>) -> Seq<Seq<u8>> {
    segments.map_values(|s: Vec<u8>| s@)
}

/// Splits a path into its segments.
pub fn split_path(path: &[u8]) -> (segments: Vec<Vec<u8>>)
    ensures
        segment_views(segments@) == path_segments(path@),
{
    let mut segments: Vec<Vec<u8>> = Vec::new();
    let mut run: Vec<u8> = Vec::new();
    let mut i: usize = 0;
    assert(path@.skip(0) =~= path@);
    assert(segment_views(segments@) =~= Seq::empty());
    while i < path.len()
        invariant
            i <= path@.len(),
            path_segments(path@) == segment_views(segments@) + segments_after(
                path@.skip(i as int),
                run@,
            ),
        decreases path@.len() - i,
    {
        let ghost here = path@.skip(i as int);
        let ghost rest = segments_after(path@.skip(i + 1), Seq::empty());
        let ghost before = segment_views(segments@);
        let ghost done = run@;
        assert(here.drop_first() =~= path@.skip(i + 1));
        assert(here[0] == path@[i as int]);
        if path[i] == SLASH {
            assert(segments_after(here, done) == segment_if_any(done) + rest);
            if run.len() > 0 {
                segments.push(run);
                run = Vec::new();
                assert(segment_views(segments@) =~= before.push(done));
                assert(before + (seq![done] + rest) =~= before.push(done) + rest);
            } else {
                assert(segment_if_any(done) + rest =~= rest);
            }
            assert(run@ =~= Seq::<u8>::empty());
        } else {
            assert(segments_after(here, done) == segments_after(
                path@.skip(i + 1),
                done.push(path@[i as int]),
            ));
            run.push(path[i]);
        }
        i += 1;
    }
    if run.len() > 0 {
        let ghost before = segment_views(segments@);
        let ghost done = run@;
        segments.push(run);
        assert(segment_views(segments@) =~= before.push(done));
        assert(before + seq![done] =~= before.push(done));
    } else {
        assert(segment_views(segments@) + Seq::<Seq<u8>>::empty() =~= segment_views(segments@));
    }
    segments
}

/// The first entry of a listing whose name has the bytes `name`.
pub open spec fn find_entry(files: Seq<FileInfoView>, name: Seq<u8>) -> Option<FileInfoView>
    decreases files.len(),
{
    if files.len() == 0 {
        None
    } else if encode_utf8(files[0].name) == name {
        Some(files[0])
    } else {
        find_entry(files.drop_first(), name)
    }
}

/// Finds the place of the first entry whose name has the bytes `name`.
pub fn find_file(files: &Vec<FileInfo>, name: &[u8]) -> (place: Option<usize>)
    ensures
        match place {
            Some(i) => i < files@.len() && find_entry(info_views(files@), name@) == Some(
                files@[i as int]@,
            ),
            None => find_entry(info_views(files@), name@) is None,
        },
{
    let ghost views = info_views(files@);
    let mut i: usize = 0;
    assert(views.skip(0) =~= views);
    while i < files.len()
        invariant
            i <= files@.len(),
            views == info_views(files@),
            find_entry(views, name@) == find_entry(views.skip(i as int), name@),
        decreases files@.len() - i,
    {
        assert(views.skip(i as int).drop_first() =~= views.skip(i + 1));
        assert(views.skip(i as int)[0] == files@[i as int]@);
        if bytes_equal(files[i].name.as_str().as_bytes(), name) {
            return Some(i);
        }
        i += 1;
    }
    None
}

/// Whether `text` is the string `word`.
pub fn str_is(text: &str, word: &str) -> (same: bool)
    ensures
        same == (text@ == word@),
{
    proof {
        vstd::utf8::encode_utf8_decode_utf8(text@);
        vstd::utf8::encode_utf8_decode_utf8(word@);
    }
    bytes_equal(text.as_bytes(), word.as_bytes())
}

/// Splitting a path at a `/` splits its segments: those of the part before
/// it, then those of the part after it.
pub proof fn lemma_segments_of_joined(head: Seq<u8>, tail: Seq<u8>)
    ensures
        path_segments(head + seq![SLASH] + tail) == path_segments(head) + path_segments(tail),
{
    lemma_segments_after_joined(head, tail, Seq::empty());
}

proof fn lemma_segments_after_joined(head: Seq<u8>, tail: Seq<u8>, run: Seq<u8>)
    ensures
        segments_after(head + seq![SLASH] + tail, run) == segments_after(head, run)
            + path_segments(tail),
    decreases head.len(),
{
    let joined = head + seq![SLASH] + tail;
    if head.len() == 0 {
        assert(joined.drop_first() =~= tail);
    } else {
        assert(joined.drop_first() =~= head.drop_first() + seq![SLASH] + tail);
        assert(joined[0] == head[0]);
        if head[0] == SLASH {
            lemma_segments_after_joined(head.drop_first(), tail, Seq::empty());
            assert(segment_if_any(run) + (segments_after(head.drop_first(), Seq::empty())
                + path_segments(tail)) =~= (segment_if_any(run) + segments_after(
                head.drop_first(),
                Seq::empty(),
            )) + path_segments(tail));
        } else {
            lemma_segments_after_joined(head.drop_first(), tail, run.push(head[0]));
        }
    }
}

} // verus!
