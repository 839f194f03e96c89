//! File name derivation for the split output files.
//!
//! The dual-stream fetch writes one raw document per direction; each lands in
//! a file derived from the configured output path by swapping the file name
//! and keeping the directory and the original extension.

use crate::bytes::{sub_vec, extend_bytes};
use vstd::prelude::*;

verus! {

/// The last position of `c` in `s`, or `-1`.
pub open spec fn last_pos(s: Seq<u8>, c: u8) -> int
    decreases s.len(),
{
    if s.len() == 0 {
        -1
    } else if s.last() == c {
        s.len() - 1
    } else {
        last_pos(s.drop_last(), c)
    }
}

pub proof fn lemma_last_pos_at(s: Seq<u8>, c: u8, i: int)
    requires
        0 <= i < s.len(),
        s[i] == c,
        forall|j: int| i < j < s.len() ==> s[j] != c,
    ensures
        last_pos(s, c) == i,
    decreases s.len(),
{
    if i == s.len() - 1 {
    } else {
        assert(s.last() != c);
        assert(s.drop_last()[i] == c);
        assert(forall|j: int| i < j < s.drop_last().len() ==> s.drop_last()[j] != c);
        lemma_last_pos_at(s.drop_last(), c, i);
    }
}

pub proof fn lemma_last_pos_none(s: Seq<u8>, c: u8)
    requires
        forall|j: int| 0 <= j < s.len() ==> s[j] != c,
    ensures
        last_pos(s, c) == -1,
    decreases s.len(),
{
    if s.len() > 0 {
        assert(forall|j: int| 0 <= j < s.drop_last().len() ==> s.drop_last()[j] != c);
        lemma_last_pos_none(s.drop_last(), c);
    }
}

/// The last position of `c`, if any.
pub fn find_last(s: &Vec<u8>, c: u8) -> (r: Option<usize>)
    ensures
        match r {
            Some(i) => i < s@.len() && last_pos(s@, c) == i,
            None => last_pos(s@, c) == -1,
        },
{
    let mut i = s.len();
    while i > 0
        invariant
            0 <= i <= s@.len(),
            forall|j: int| i <= j < s@.len() ==> s@[j] != c,
        decreases i,
    {
        i = i - 1;
        if s[i] == c {
            proof {
                lemma_last_pos_at(s@, c, i as int);
            }
            return Some(i);
        }
    }
    proof {
        lemma_last_pos_none(s@, c);
    }
    None
}

/// The path with its file name swapped for `name`, directory and original
/// extension kept. A leading dot alone marks no extension, so a hidden file
/// without a second dot keeps nothing.
pub open spec fn spec_change_file_name(path: Seq<u8>, name: Seq<u8>) -> Seq<u8> {
    let sl = last_pos(path, 47);
    let dir = path.subrange(0, sl + 1);
    let file = path.subrange(sl + 1, path.len() as int);
    let dot = last_pos(file, 46);
    if dot > 0 {
        dir + name + seq![46u8] + file.subrange(dot + 1, file.len() as int)
    } else {
        dir + name
    }
}

/// Swap the file name of `path` for `name`, keeping the directory and the
/// original extension.
pub fn change_file_name(path: &Vec<u8>, name: &Vec<u8>) -> (r: Vec<u8>)
    ensures
        r@ == spec_change_file_name(path@, name@),
{
    let n = path.len();
    let dir_end = match find_last(path, 47) {
        Some(i) => {
            proof {
                assert(i < n);
            }
            i + 1
        },
        None => 0,
    };
    let file = sub_vec(path, dir_end, path.len());
    let mut out = sub_vec(path, 0, dir_end);
    extend_bytes(&mut out, name);
    match find_last(&file, 46) {
        Some(d) if d > 0 => {
            out.push(46);
            let ext = sub_vec(&file, d + 1, file.len());
            extend_bytes(&mut out, &ext);
            proof {
                assert(out@ =~= spec_change_file_name(path@, name@));
            }
            out
        },
        _ => {
            proof {
                assert(out@ =~= spec_change_file_name(path@, name@));
            }
            out
        },
    }
}

} // verus!
