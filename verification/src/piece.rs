//! One item as it stands in the block: its bytes and the range they take.

use vstd::prelude::*;
use rand::rngs::StdRng;
use crate::error::Error;
use crate::hash::hxor;
use crate::hash::key_material_fits;
use crate::hash::hxor_spec;
use crate::hash::postfix_ident;
use crate::hash::postfix_marker;
use crate::hash::prefix_ident;
use crate::hash::prefix_marker;
use crate::item::Item;
use crate::random::draw_below;
use crate::settings::Settings;
use crate::util::check_overlap;
use crate::util::concat_vec;

verus! {

/// Number of positions that are drawn before placement gives up.
pub const SEARCH_TIMEOUT_ROUNDS: usize = 16;

/// The marked ciphertext of one item and the range `start_pos..end_pos`
/// that it takes in the block.
#[derive(Debug)]
pub struct Piece {
    pub password: Vec<u8>,
    pub content: Vec<u8>,
    pub start_pos: u32,
    pub end_pos: u32,
}

/// A piece with its byte vectors taken as sequences.
pub struct PieceView {
    pub password: Seq<u8>,
    pub content: Seq<u8>,
    pub start_pos: u32,
    pub end_pos: u32,
}

impl View for Piece {
    type V = PieceView;

    open spec fn view(&self) -> PieceView {
        PieceView {
            password: self.password@,
            content: self.content@,
            start_pos: self.start_pos,
            end_pos: self.end_pos,
        }
    }
}

impl Clone for Piece {
    fn clone(&self) -> (copy: Self)
        ensures
            copy@ == self@,
    {
        Piece {
            password: self.password.clone(),
            content: self.content.clone(),
            start_pos: self.start_pos,
            end_pos: self.end_pos,
        }
    }
}

impl Piece {
    /// Builds the piece of `item` and draws a place for it that keeps clear
    /// of the pieces in `files`. The place is the first free draw; a piece
    /// too long for any block of this kind gets none.
    pub fn new(
        settings: &Settings,
        item: &Item,
        files: &Vec<Piece>,
        rng: &mut StdRng,
    ) -> (r: Result<Piece, Error>)
        ensures
            piece_content(*settings, *item) is Ok <==> password_fits(*settings, item.password@),
            match r {
                Ok(piece) => {
                    &&& piece_content(*settings, *item) == Ok::<Seq<u8>, Error>(piece.content@)
                    &&& piece.password@ == item.password@
                    &&& piece.wf()
                    &&& !overlaps(
                        settings.blocksize as int,
                        piece.start_pos as int,
                        piece.content@.len() as int,
                        files@,
                    )
                },
                Err(e) => match piece_content(*settings, *item) {
                    Ok(_) => e == Error::PlacementExhausted,
                    Err(cause) => e == cause,
                },
            },
            match piece_content(*settings, *item) {
                Err(_) => r is Err,
                Ok(content) => if content.len() > u32::MAX {
                    r is Err
                } else {
                    exists|draws: Seq<u32>| #[trigger]
                        is_draw_sequence(
                            settings.blocksize as int,
                            content.len() as int,
                            files@,
                            draws,
                        ) && start_of(r) == placement_of(
                            settings.blocksize as int,
                            content.len() as int,
                            files@,
                            draws,
                        )
                },
            },
    {
        let prefix = match prefix_ident(settings, &item.password) {
            Ok(prefix) => prefix,
            Err(e) => {
                return Err(e);
            },
        };
        let body = match hxor(settings, &item.password, &item.content) {
            Ok(body) => body,
            Err(e) => {
                return Err(e);
            },
        };
        let postfix = match postfix_ident(settings, &item.password) {
            Ok(postfix) => postfix,
            Err(e) => {
                return Err(e);
            },
        };
        let result = concat_vec(concat_vec(prefix, body), postfix);
        if result.len() > u32::MAX as usize {
            return Err(Error::PlacementExhausted);
        }
        let result_len: u32 = result.len() as u32;
        let start_pos: u32 = match find_insert_pos(settings, result_len, files, rng) {
            Ok(start_pos) => start_pos,
            Err(e) => {
                return Err(e);
            },
        };
        let end_pos: u32 = start_pos + result_len;
        Ok(Piece { password: item.password.clone(), content: result, start_pos, end_pos })
    }

    /// The range is as long as the content.
    pub open spec fn wf(&self) -> bool {
        self.end_pos == self.start_pos + self.content@.len()
    }

    /// Whether the byte at `pos` belongs to this piece.
    pub open spec fn covers(&self, pos: int) -> bool {
        self.start_pos <= pos < self.end_pos
    }
}

/// The bytes of the piece of `item`: the prefix marker of its password,
/// its content under the key stream, and the postfix marker.
pub open spec fn piece_content(settings: Settings, item: Item) -> Result<Seq<u8>, Error> {
    match prefix_marker(settings, item.password@) {
        Err(e) => Err(e),
        Ok(prefix) => match hxor_spec(settings, item.password@, item.content@) {
            Err(e) => Err(e),
            Ok(body) => match postfix_marker(settings, item.password@) {
                Err(e) => Err(e),
                Ok(postfix) => Ok(prefix + body + postfix),
            },
        },
    }
}

/// Whether salt and password of every item are short enough.
pub open spec fn all_fit(settings: Settings, items: Seq<Item>) -> bool {
    forall|k: int| 0 <= k < items.len() ==> password_fits(settings, (#[trigger] items[k]).password@)
}

/// Where a piece was placed, or why none was.
pub open spec fn start_of(r: Result<Piece, Error>) -> Result<u32, Error> {
    match r {
        Ok(piece) => Ok(piece.start_pos),
        Err(e) => Err(e),
    }
}

/// Whether salt and password are short enough for the key stream and for
/// both markers.
pub open spec fn password_fits(settings: Settings, password: Seq<u8>) -> bool {
    &&& key_material_fits(settings.salt_prefix@, password)
    &&& key_material_fits(settings.salt@, password)
    &&& key_material_fits(settings.salt_postfix@, password)
}

/// Whether the ranges `s1..e1` and `s2..e2`, each widened by one byte on
/// both sides, have a position in common.
pub open spec fn margins_meet(s1: int, e1: int, s2: int, e2: int) -> bool {
    s1 - 1 < e2 + 1 && s2 - 1 < e1 + 1
}

/// Whether a piece of `len` bytes cannot stand at `pos`: it would reach the
/// last byte of the block, or its widened range meets that of a piece in `files`.
pub open spec fn overlaps(blocksize: int, pos: int, len: int, files: Seq<Piece>) -> bool {
    ||| pos + len > blocksize - 1
    ||| exists|i: int|
        0 <= i < files.len() && margins_meet(
            pos,
            pos + len,
            (#[trigger] files[i]).start_pos as int,
            files[i].end_pos as int,
        )
}

/// Whether the pieces keep clear of each other and of the end of the block:
/// every range is as long as its content and ends before the last byte,
/// and no two widened ranges meet.
pub open spec fn layout_ok(blocksize: int, files: Seq<Piece>) -> bool {
    &&& forall|i: int|
        0 <= i < files.len() ==> (#[trigger] files[i]).wf() && files[i].end_pos <= blocksize - 1
    &&& forall|i: int, j: int|
        0 <= i < j < files.len() ==> !margins_meet(
            (#[trigger] files[i]).start_pos as int,
            files[i].end_pos as int,
            (#[trigger] files[j]).start_pos as int,
            files[j].end_pos as int,
        )
}

/// The first of `draws` at which a piece of `len` bytes can stand.
pub open spec fn first_free(
    blocksize: int,
    len: int,
    files: Seq<Piece>,
    draws: Seq<u32>,
) -> Option<u32>
    decreases draws.len(),
{
    if draws.len() == 0 {
        None
    } else if !overlaps(blocksize, draws[0] as int, len, files) {
        Some(draws[0])
    } else {
        first_free(blocksize, len, files, draws.drop_first())
    }
}

/// What placement answers when it has drawn `draws`: the first free one,
/// or `PlacementExhausted` where none is free.
pub open spec fn placement_of(
    blocksize: int,
    len: int,
    files: Seq<Piece>,
    draws: Seq<u32>,
) -> Result<u32, Error> {
    match first_free(blocksize, len, files, draws) {
        Some(pos) => Ok(pos),
        None => Err(Error::PlacementExhausted),
    }
}

/// Whether `draws` can be what placement draws, one position after the
/// other: every draw lies in the block, no draw follows a free one, and
/// drawing stops short of `SEARCH_TIMEOUT_ROUNDS` draws only at a free one.
/// In a block of no bytes nothing is drawn; in any other at least one
/// position is.
pub open spec fn is_draw_sequence(
    blocksize: int,
    len: int,
    files: Seq<Piece>,
    draws: Seq<u32>,
) -> bool {
    &&& draws.len() <= SEARCH_TIMEOUT_ROUNDS
    &&& draws.len() == 0 <==> blocksize <= 0
    &&& forall|i: int| 0 <= i < draws.len() ==> (#[trigger] draws[i]) < blocksize
    &&& forall|i: int|
        0 <= i < draws.len() - 1 ==> overlaps(blocksize, (#[trigger] draws[i]) as int, len, files)
    &&& 0 < draws.len() < SEARCH_TIMEOUT_ROUNDS ==> !overlaps(
        blocksize,
        draws.last() as int,
        len,
        files,
    )
}

/// What to do after one draw.
#[derive(Clone, Copy, Debug, PartialEq, Eq, Structural)]
pub enum Attempt {
    /// The position drawn is free: the piece goes there.
    Accept(u32),
    /// The position drawn is taken: draw again.
    Retry,
    /// The position drawn is taken, and it was the last draw allowed.
    GiveUp,
}

/// The step after draw number `attempt`, counted from 0, has given `drawn`.
pub open spec fn attempt_of(
    blocksize: int,
    len: int,
    files: Seq<Piece>,
    attempt: int,
    drawn: u32,
) -> Attempt {
    if !overlaps(blocksize, drawn as int, len, files) {
        Attempt::Accept(drawn)
    } else if attempt + 1 < SEARCH_TIMEOUT_ROUNDS {
        Attempt::Retry
    } else {
        Attempt::GiveUp
    }
}

/// Decides what follows draw number `attempt`, counted from 0, which gave `drawn`.
pub fn judge_attempt(
    settings: &Settings,
    result_len: u32,
    files: &Vec<Piece>,
    attempt: usize,
    drawn: u32,
) -> (step: Attempt)
    ensures
        step == attempt_of(
            settings.blocksize as int,
            result_len as int,
            files@,
            attempt as int,
            drawn,
        ),
{
    if !check_overlap(settings, drawn, result_len, files) {
        Attempt::Accept(drawn)
    } else if attempt < SEARCH_TIMEOUT_ROUNDS - 1 {
        Attempt::Retry
    } else {
        Attempt::GiveUp
    }
}

/// Among draws of which all but the last are taken, the last decides.
pub proof fn lemma_first_free_last(blocksize: int, len: int, files: Seq<Piece>, draws: Seq<u32>)
    requires
        draws.len() > 0,
        forall|i: int|
            0 <= i < draws.len() - 1 ==> overlaps(blocksize, (#[trigger] draws[i]) as int, len, files),
    ensures
        first_free(blocksize, len, files, draws) == if overlaps(
            blocksize,
            draws.last() as int,
            len,
            files,
        ) {
            None::<u32>
        } else {
            Some(draws.last())
        },
    decreases draws.len(),
{
    if draws.len() > 1 {
        let rest = draws.drop_first();
        assert forall|i: int| 0 <= i < rest.len() - 1 implies overlaps(
            blocksize,
            (#[trigger] rest[i]) as int,
            len,
            files,
        ) by {
            assert(rest[i] == draws[i + 1]);
        }
        assert(rest.last() == draws.last());
        assert(overlaps(blocksize, draws[0] as int, len, files));
        lemma_first_free_last(blocksize, len, files, rest);
    } else {
        assert(draws[0] == draws.last());
        assert(first_free(blocksize, len, files, draws.drop_first()) == None::<u32>);
    }
}

/// Draws positions until one is free, at most `SEARCH_TIMEOUT_ROUNDS`
/// times, and answers with the first free one.
pub fn find_insert_pos(
    settings: &Settings,
    result_len: u32,
    files: &Vec<Piece>,
    rng: &mut StdRng,
) -> (r: Result<u32, Error>)
    ensures
        match r {
            Ok(pos) => pos < settings.blocksize && !overlaps(
                settings.blocksize as int,
                pos as int,
                result_len as int,
                files@,
            ),
            Err(e) => e == Error::PlacementExhausted,
        },
        exists|draws: Seq<u32>| #[trigger]
            is_draw_sequence(settings.blocksize as int, result_len as int, files@, draws) && r
                == placement_of(settings.blocksize as int, result_len as int, files@, draws),
{
    if settings.blocksize == 0 {
        assert(is_draw_sequence(0, result_len as int, files@, Seq::<u32>::empty()));
        return Err(Error::PlacementExhausted);
    }
    let ghost mut draws: Seq<u32> = Seq::empty();
    let mut counter: usize = 0;
    loop
        invariant
            settings.blocksize > 0,
            counter < SEARCH_TIMEOUT_ROUNDS,
            draws.len() == counter,
            forall|i: int| 0 <= i < draws.len() ==> (#[trigger] draws[i]) < settings.blocksize,
            forall|i: int|
                0 <= i < draws.len() ==> overlaps(
                    settings.blocksize as int,
                    (#[trigger] draws[i]) as int,
                    result_len as int,
                    files@,
                ),
        decreases SEARCH_TIMEOUT_ROUNDS - counter,
    {
        let start_pos: u32 = draw_below(rng, settings.blocksize);
        proof {
            draws = draws.push(start_pos);
            lemma_first_free_last(settings.blocksize as int, result_len as int, files@, draws);
        }
        match judge_attempt(settings, result_len, files, counter, start_pos) {
            Attempt::Accept(pos) => {
                assert(is_draw_sequence(
                    settings.blocksize as int,
                    result_len as int,
                    files@,
                    draws,
                ));
                return Ok(pos);
            },
            Attempt::GiveUp => {
                assert(is_draw_sequence(
                    settings.blocksize as int,
                    result_len as int,
                    files@,
                    draws,
                ));
                return Err(Error::PlacementExhausted);
            },
            Attempt::Retry => {
                counter += 1;
            },
        }
    }
}

} // verus!
