//! Helpers on byte vectors and on the layout of pieces.

use vstd::prelude::*;
use rand::rngs::StdRng;
use crate::piece::margins_meet;
use crate::piece::overlaps;
use crate::piece::Piece;
use crate::random::draw_alphanumeric;
use crate::random::is_alphanumeric;
use crate::settings::Settings;

verus! {

/// `a` followed by `b`.
pub fn concat_vec<T>(a: Vec<T>, b: Vec<T>) -> (r: Vec<T>)
    ensures
        r@ == a@ + b@,
{
    let mut r = a;
    let mut rest = b;
    r.append(&mut rest);
    r
}

/// Tells whether `a` and `b` hold the same bytes.
pub fn same_bytes(a: &Vec<u8>, b: &Vec<u8>) -> (same: bool)
    ensures
        same == (a@ == b@),
{
    if a.len() != b.len() {
        return false;
    }
    let mut i: usize = 0;
    while i < a.len()
        invariant
            a@.len() == b@.len(),
            i <= a@.len(),
            forall|j: int| 0 <= j < i ==> a@[j] == b@[j],
        decreases a@.len() - i,
    {
        if a[i] != b[i] {
            return false;
        }
        i += 1;
    }
    assert(a@ =~= b@);
    true
}

/// Tells whether a piece of `content_len` bytes cannot stand at `pos`.
pub fn check_overlap(
    settings: &Settings,
    pos: u32,
    content_len: u32,
    files: &Vec<Piece>,
) -> (b: bool)
    ensures
        b == overlaps(settings.blocksize as int, pos as int, content_len as int, files@),
{
    let end: u64 = pos as u64 + content_len as u64;
    if end + 1 > settings.blocksize as u64 {
        return true;
    }
    let mut i: usize = 0;
    while i < files.len()
        invariant
            i <= files@.len(),
            end == pos + content_len,
            forall|j: int|
                0 <= j < i ==> !margins_meet(
                    pos as int,
                    end as int,
                    (#[trigger] files@[j]).start_pos as int,
                    files@[j].end_pos as int,
                ),
        decreases files@.len() - i,
    {
        if (pos as u64) < files[i].end_pos as u64 + 2 && (files[i].start_pos as u64) < end + 2 {
            return true;
        }
        i += 1;
    }
    false
}

/// Whether `pos` lies behind the first byte and before the end of some piece.
pub open spec fn strictly_inside(pos: int, files: Seq<Piece>) -> bool {
    exists|i: int| 0 <= i < files.len() && (#[trigger] files[i]).start_pos < pos < files[i].end_pos
}

/// Whether `piece` starts at `pos` or later, and inside the block.
pub open spec fn starts_ahead(blocksize: int, pos: int, piece: Piece) -> bool {
    pos <= piece.start_pos < blocksize
}

/// Whether `r` is the distance from `pos` to the next piece: zero where
/// `pos` lies within a piece behind its first byte; else the least distance
/// to the start of a piece that starts at `pos` or later inside the block;
/// `None` where there is no such piece.
pub open spec fn is_next_distance(
    blocksize: int,
    pos: int,
    files: Seq<Piece>,
    r: Option<u32>,
) -> bool {
    if strictly_inside(pos, files) {
        r == Some(0u32)
    } else {
        match r {
            Some(d) => {
                &&& exists|i: int|
                    0 <= i < files.len() && starts_ahead(blocksize, pos, #[trigger] files[i])
                        && files[i].start_pos - pos == d
                &&& forall|j: int|
                    0 <= j < files.len() && starts_ahead(blocksize, pos, #[trigger] files[j])
                        ==> files[j].start_pos - pos >= d
            },
            None => forall|j: int|
                0 <= j < files.len() ==> !starts_ahead(blocksize, pos, #[trigger] files[j]),
        }
    }
}

/// The distance from `pos` to the next piece, if there is one.
pub fn find_file_next_distance(settings: &Settings, pos: u32, files: &Vec<Piece>) -> (r: Option<u32>)
    ensures
        is_next_distance(settings.blocksize as int, pos as int, files@, r),
{
    let mut dist: u32 = 0;
    let mut found: bool = false;
    let ghost mut nearest: int = 0;
    let mut i: usize = 0;
    while i < files.len()
        invariant
            i <= files@.len(),
            forall|j: int|
                0 <= j < i ==> !((#[trigger] files@[j]).start_pos < pos < files@[j].end_pos),
            !found ==> forall|j: int|
                0 <= j < i ==> !starts_ahead(settings.blocksize as int, pos as int, #[trigger] files@[j]),
            found ==> 0 <= nearest < i && starts_ahead(
                settings.blocksize as int,
                pos as int,
                files@[nearest],
            ) && files@[nearest].start_pos - pos == dist,
            found ==> forall|j: int|
                0 <= j < i && starts_ahead(settings.blocksize as int, pos as int, #[trigger] files@[j])
                    ==> files@[j].start_pos - pos >= dist,
        decreases files@.len() - i,
    {
        let start: u32 = files[i].start_pos;
        if pos > start && pos < files[i].end_pos {
            return Some(0u32);
        } else if start >= pos && start < settings.blocksize {
            let spos: u32 = start - pos;
            if !found || spos < dist {
                dist = spos;
                found = true;
                proof {
                    nearest = i as int;
                }
            }
        }
        i += 1;
    }
    if found {
        Some(dist)
    } else {
        None
    }
}

/// Whether `k` is the first piece of `files` that the byte at `pos` belongs to.
pub open spec fn is_first_covering(pos: int, files: Seq<Piece>, k: int) -> bool {
    &&& 0 <= k < files.len()
    &&& files[k].covers(pos)
    &&& forall|j: int| 0 <= j < k ==> !(#[trigger] files[j]).covers(pos)
}

/// A copy of the first piece that the byte at `pos` belongs to.
pub fn find_file(pos: u32, files: &Vec<Piece>) -> (r: Option<Piece>)
    ensures
        match r {
            Some(piece) => exists|k: int|
                is_first_covering(pos as int, files@, k) && piece@ == (#[trigger] files@[k])@,
            None => forall|j: int| 0 <= j < files@.len() ==> !(#[trigger] files@[j]).covers(pos as int),
        },
{
    let mut i: usize = 0;
    while i < files.len()
        invariant
            i <= files@.len(),
            forall|j: int| 0 <= j < i ==> !(#[trigger] files@[j]).covers(pos as int),
        decreases files@.len() - i,
    {
        if pos >= files[i].start_pos && pos < files[i].end_pos {
            let piece = files[i].clone();
            assert(is_first_covering(pos as int, files@, i as int));
            return Some(piece);
        }
        i += 1;
    }
    None
}

/// A password of `len` ASCII letters and digits.
pub fn random_pass(rng: &mut StdRng, len: usize) -> (pass: Vec<u8>)
    ensures
        pass@.len() == len,
        forall|i: int| 0 <= i < len ==> is_alphanumeric(#[trigger] pass@[i]),
{
    let mut pass: Vec<u8> = Vec::new();
    let mut i: usize = 0;
    while i < len
        invariant
            i <= len,
            pass@.len() == i,
            forall|j: int| 0 <= j < i ==> is_alphanumeric(#[trigger] pass@[j]),
        decreases len - i,
    {
        let c = draw_alphanumeric(rng);
        pass.push(c);
        i += 1;
    }
    pass
}

} // verus!
