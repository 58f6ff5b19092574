//! The block: building it from items, and finding a message in it again.

use vstd::prelude::*;
use rand::rngs::StdRng;
use crate::error::bytes_result;
use crate::error::Error;
use crate::hash::hxor;
use crate::hash::hxor_spec;
use crate::hash::lemma_cipher_involution;
use crate::hash::postfix_ident;
use crate::hash::postfix_marker;
use crate::hash::prefix_ident;
use crate::hash::prefix_marker;
use crate::item::Item;
use crate::piece::all_fit;
use crate::piece::first_free;
use crate::piece::is_draw_sequence;
use crate::piece::layout_ok;
use crate::piece::margins_meet;
use crate::piece::password_fits;
use crate::piece::piece_content;
use crate::piece::placement_of;
use crate::piece::start_of;
use crate::piece::Piece;
use crate::random::rand_byte;
use crate::settings::Settings;
use crate::util::find_file;
use crate::util::find_file_next_distance;
use crate::util::is_first_covering;
use crate::util::starts_ahead;

verus! {

/// The bytes of a block and, where the block was built here, the pieces
/// that were placed in it.
#[derive(Debug)]
pub struct Block {
    pub files: Vec<Piece>,
    pub content: Vec<u8>,
}

/// Whether `content` holds the bytes of `piece` in the range of `piece`.
pub open spec fn holds_piece(content: Seq<u8>, piece: Piece) -> bool {
    &&& piece.end_pos <= content.len()
    &&& content.subrange(piece.start_pos as int, piece.end_pos as int) == piece.content@
}

/// Whether `content` holds every piece of `files` in its range.
pub open spec fn holds_pieces(content: Seq<u8>, files: Seq<Piece>) -> bool {
    forall|k: int| 0 <= k < files.len() ==> holds_piece(content, #[trigger] files[k])
}

/// Whether `files` are the pieces of `items`, one for each and in the same order.
pub open spec fn pieces_of(settings: Settings, items: Seq<Item>, files: Seq<Piece>) -> bool {
    &&& files.len() == items.len()
    &&& forall|k: int|
        0 <= k < files.len() ==> piece_content(settings, items[k]) == Ok::<Seq<u8>, Error>(
            (#[trigger] files[k]).content@,
        ) && files[k].password@ == items[k].password@
}

/// Whether `content` is a block of `settings` in which `files`, the pieces
/// of `items`, stand clear of each other and of the last byte.
pub open spec fn placed(
    settings: Settings,
    items: Seq<Item>,
    files: Seq<Piece>,
    content: Seq<u8>,
) -> bool {
    &&& content.len() == settings.blocksize
    &&& pieces_of(settings, items, files)
    &&& layout_ok(settings.blocksize as int, files)
    &&& holds_pieces(content, files)
}

/// Whether `piece` stands where placement puts it when `earlier` are the
/// pieces placed before it: at the first free position of a sequence of draws.
pub open spec fn placed_by_draws(blocksize: int, earlier: Seq<Piece>, piece: Piece) -> bool {
    exists|draws: Seq<u32>| #[trigger]
        is_draw_sequence(blocksize, piece.content@.len() as int, earlier, draws) && placement_of(
            blocksize,
            piece.content@.len() as int,
            earlier,
            draws,
        ) == Ok::<u32, Error>(piece.start_pos)
}

/// Whether every piece of `files` was placed by draws against the pieces
/// before it, and against none that follow.
pub open spec fn drawn_in_order(blocksize: int, files: Seq<Piece>) -> bool {
    forall|k: int|
        0 <= k < files.len() ==> #[trigger] placed_by_draws(blocksize, files.take(k), files[k])
}

/// Whether no place can have been drawn for a piece of `len` bytes behind
/// the pieces `before`: it is too long for any block, or every draw that
/// placement makes was refused.
pub open spec fn placement_exhausted(blocksize: int, len: int, before: Seq<Piece>) -> bool {
    len > u32::MAX || exists|draws: Seq<u32>| #[trigger]
        is_draw_sequence(blocksize, len, before, draws) && first_free(
            blocksize,
            len,
            before,
            draws,
        ) is None
}

/// Whether building the pieces of `items` in their order can stop with the
/// error `e` when `before` are the pieces placed so far: either the next
/// piece cannot be computed, for the reason `e`, or no place was drawn for it.
pub open spec fn fails_at(
    settings: Settings,
    items: Seq<Item>,
    before: Seq<Piece>,
    e: Error,
) -> bool {
    &&& before.len() < items.len()
    &&& pieces_of(settings, items.take(before.len() as int), before)
    &&& layout_ok(settings.blocksize as int, before)
    &&& drawn_in_order(settings.blocksize as int, before)
    &&& match piece_content(settings, items[before.len() as int]) {
        Ok(content) => e == Error::PlacementExhausted && placement_exhausted(
            settings.blocksize as int,
            content.len() as int,
            before,
        ),
        Err(cause) => e == cause,
    }
}

/// Whether the byte at `pos` belongs to no piece.
pub open spec fn uncovered(pos: int, files: Seq<Piece>) -> bool {
    forall|q: int| 0 <= q < files.len() ==> !(#[trigger] files[q]).covers(pos)
}

/// Whether every byte of `content` that belongs to no piece is the byte
/// that `padding` holds at the same position.
pub open spec fn takes_padding(content: Seq<u8>, files: Seq<Piece>, padding: Seq<u8>) -> bool {
    forall|k: int| 0 <= k < content.len() && uncovered(k, files) ==> #[trigger] content[k] == padding[k]
}

/// Whether the cursor `pos` stands in no piece behind its first byte.
pub open spec fn between_pieces(pos: int, files: Seq<Piece>) -> bool {
    forall|k: int|
        0 <= k < files.len() ==> pos <= (#[trigger] files[k]).start_pos || files[k].end_pos <= pos
}

/// Whether `content`, filled up to its length, holds every piece that ends there or before.
pub open spec fn holds_pieces_so_far(content: Seq<u8>, files: Seq<Piece>) -> bool {
    forall|k: int|
        0 <= k < files.len() && (#[trigger] files[k]).end_pos <= content.len() ==> holds_piece(
            content,
            files[k],
        )
}

/// Draws `count` random bytes.
fn draw_padding(rng: &mut StdRng, count: usize) -> (padding: Vec<u8>)
    ensures
        padding@.len() == count,
{
    let mut padding: Vec<u8> = Vec::new();
    let mut done: usize = 0;
    while done < count
        invariant
            done <= count,
            padding@.len() == done,
        decreases count - done,
    {
        padding.push(rand_byte(rng));
        done += 1;
    }
    padding
}

/// Appends the next `count` bytes of `padding`: the result grows over the
/// positions at which they stand in `padding`.
fn copy_padding(result: &mut Vec<u8>, padding: &Vec<u8>, count: usize)
    requires
        old(result)@.len() + count <= padding@.len(),
    ensures
        final(result)@.len() == old(result)@.len() + count,
        final(result)@.subrange(0, old(result)@.len() as int) == old(result)@,
        forall|j: int|
            old(result)@.len() <= j < final(result)@.len() ==> #[trigger] final(result)@[j]
                == padding@[j],
{
    let mut done: usize = 0;
    while done < count
        invariant
            done <= count,
            old(result)@.len() + count <= padding@.len(),
            result@.len() == old(result)@.len() + done,
            result@.subrange(0, old(result)@.len() as int) == old(result)@,
            forall|j: int| old(result)@.len() <= j < result@.len() ==> #[trigger] result@[j] == padding@[j],
        decreases count - done,
    {
        let ghost before = result@;
        result.push(padding[result.len()]);
        assert(result@.subrange(0, old(result)@.len() as int) =~= before.subrange(
            0,
            old(result)@.len() as int,
        ));
        done += 1;
    }
}

/// Appends the bytes of `piece`.
fn copy_piece(result: &mut Vec<u8>, piece: &Piece)
    ensures
        final(result)@ == old(result)@ + piece.content@,
{
    let mut m: usize = 0;
    while m < piece.content.len()
        invariant
            m <= piece.content@.len(),
            result@ == old(result)@ + piece.content@.take(m as int),
        decreases piece.content@.len() - m,
    {
        result.push(piece.content[m]);
        assert(piece.content@.take(m + 1) =~= piece.content@.take(m as int).push(
            piece.content@[m as int],
        ));
        assert(result@ =~= old(result)@ + piece.content@.take(m + 1));
        m += 1;
    }
    assert(piece.content@.take(piece.content@.len() as int) =~= piece.content@);
}

/// A block that grows at its end keeps the pieces that it held.
proof fn lemma_growth_keeps_pieces(before: Seq<u8>, after: Seq<u8>, files: Seq<Piece>)
    requires
        before.len() <= after.len(),
        after.subrange(0, before.len() as int) == before,
        holds_pieces_so_far(before, files),
        forall|k: int| 0 <= k < files.len() ==> (#[trigger] files[k]).wf(),
    ensures
        forall|k: int|
            0 <= k < files.len() && (#[trigger] files[k]).end_pos <= before.len() ==> holds_piece(
                after,
                files[k],
            ),
{
    assert forall|k: int|
        0 <= k < files.len() && (#[trigger] files[k]).end_pos <= before.len() implies holds_piece(
        after,
        files[k],
    ) by {
        let piece = files[k];
        assert(holds_piece(before, piece));
        assert(after.subrange(piece.start_pos as int, piece.end_pos as int) =~= before.subrange(
            piece.start_pos as int,
            piece.end_pos as int,
        )) by {
            assert forall|x: int| 0 <= x < before.len() implies after[x] == before[x] by {
                assert(after.subrange(0, before.len() as int)[x] == before[x]);
            }
        }
    }
}

/// A block that grows at its end keeps the padding that it took, if what
/// was added takes its padding too.
proof fn lemma_growth_keeps_padding(
    before: Seq<u8>,
    after: Seq<u8>,
    files: Seq<Piece>,
    padding: Seq<u8>,
)
    requires
        before.len() <= after.len(),
        after.subrange(0, before.len() as int) == before,
        takes_padding(before, files, padding),
        forall|j: int|
            before.len() <= j < after.len() && uncovered(j, files) ==> #[trigger] after[j]
                == padding[j],
    ensures
        takes_padding(after, files, padding),
{
    assert forall|k: int| 0 <= k < after.len() && uncovered(k, files) implies #[trigger] after[k]
        == padding[k] by {
        if k < before.len() {
            assert(after.subrange(0, before.len() as int)[k] == before[k]);
        }
    }
}

/// Fills a block of `settings.blocksize` bytes from left to right: every
/// piece in its range, and everywhere else the byte that `padding` holds
/// at that position.
pub fn assemble(settings: &Settings, files: &Vec<Piece>, padding: &Vec<u8>) -> (result: Vec<u8>)
    requires
        layout_ok(settings.blocksize as int, files@),
        padding@.len() == settings.blocksize,
    ensures
        result@.len() == settings.blocksize,
        holds_pieces(result@, files@),
        forall|k: int|
            0 <= k < result@.len() && uncovered(k, files@) ==> #[trigger] result@[k] == padding@[k],
{
    let mut result: Vec<u8> = Vec::new();
    let blocksize: usize = settings.blocksize as usize;
    let mut i: usize = 0;
    proof {
        assert forall|k: int| 0 <= k < files@.len() && (#[trigger] files@[k]).end_pos <= 0 implies holds_piece(
            result@,
            files@[k],
        ) by {
            assert(files@[k].wf());
            assert(result@.subrange(0, 0) =~= files@[k].content@);
        }
    }
    loop
        invariant_except_break
            i <= blocksize,
            result@.len() == i,
            between_pieces(i as int, files@),
            holds_pieces_so_far(result@, files@),
        invariant
            blocksize == settings.blocksize,
            padding@.len() == settings.blocksize,
            layout_ok(settings.blocksize as int, files@),
            takes_padding(result@, files@, padding@),
        ensures
            result@.len() == settings.blocksize,
            holds_pieces(result@, files@),
        decreases blocksize - i,
    {
        let ghost before = result@;
        let dist = find_file_next_distance(settings, i as u32, files);
        match dist {
            Some(0) => {
                match find_file(i as u32, files) {
                    Some(x) => {
                        let ghost k = choose|k: int|
                            is_first_covering(i as int, files@, k) && x@ == (#[trigger] files@[k])@;
                        assert(files@[k].start_pos == i);
                        copy_piece(&mut result, &x);
                        i += x.content.len();
                        proof {
                            assert(result@.subrange(0, before.len() as int) =~= before);
                            assert forall|j: int|
                                before.len() <= j < result@.len() implies !uncovered(j, files@) by {
                                assert(files@[k].covers(j));
                            }
                            lemma_growth_keeps_padding(before, result@, files@, padding@);
                            lemma_growth_keeps_pieces(before, result@, files@);
                            assert(result@.subrange(
                                files@[k].start_pos as int,
                                files@[k].end_pos as int,
                            ) =~= files@[k].content@);
                            assert forall|q: int| 0 <= q < files@.len() implies (i <= (
                            #[trigger] files@[q]).start_pos || files@[q].end_pos <= i) && (
                            files@[q].end_pos <= i ==> holds_piece(result@, files@[q])) by {
                                if q < k {
                                    assert(!margins_meet(
                                        files@[q].start_pos as int,
                                        files@[q].end_pos as int,
                                        files@[k].start_pos as int,
                                        files@[k].end_pos as int,
                                    ));
                                } else if k < q {
                                    assert(!margins_meet(
                                        files@[k].start_pos as int,
                                        files@[k].end_pos as int,
                                        files@[q].start_pos as int,
                                        files@[q].end_pos as int,
                                    ));
                                }
                            }
                        }
                    },
                    None => {
                        copy_padding(&mut result, padding, 1);
                        i += 1;
                        proof {
                            lemma_growth_keeps_padding(before, result@, files@, padding@);
                            lemma_growth_keeps_pieces(before, result@, files@);
                            assert forall|q: int| 0 <= q < files@.len() implies (i <= (
                            #[trigger] files@[q]).start_pos || files@[q].end_pos <= i) && (
                            files@[q].end_pos <= i ==> holds_piece(result@, files@[q])) by {
                                let piece = files@[q];
                                assert(!piece.covers(i - 1));
                                if piece.end_pos == i {
                                    assert(result@.subrange(
                                        piece.start_pos as int,
                                        piece.end_pos as int,
                                    ) =~= piece.content@);
                                }
                            }
                        }
                    },
                }
            },
            Some(x) => {
                copy_padding(&mut result, padding, x as usize);
                i += x as usize;
                proof {
                    lemma_growth_keeps_padding(before, result@, files@, padding@);
                    lemma_growth_keeps_pieces(before, result@, files@);
                    assert forall|q: int| 0 <= q < files@.len() implies (i <= (
                    #[trigger] files@[q]).start_pos || files@[q].end_pos <= i) && (
                    files@[q].end_pos <= i ==> holds_piece(result@, files@[q])) by {
                        let piece = files@[q];
                        if piece.end_pos > before.len() {
                            assert(starts_ahead(settings.blocksize as int, before.len() as int, piece));
                            if piece.end_pos <= i {
                                assert(result@.subrange(
                                    piece.start_pos as int,
                                    piece.end_pos as int,
                                ) =~= piece.content@);
                            }
                        }
                    }
                }
            },
            None => {
                copy_padding(&mut result, padding, blocksize - i);
                proof {
                    lemma_growth_keeps_padding(before, result@, files@, padding@);
                    lemma_growth_keeps_pieces(before, result@, files@);
                    assert forall|q: int| 0 <= q < files@.len() implies holds_piece(
                        result@,
                        #[trigger] files@[q],
                    ) by {
                        let piece = files@[q];
                        assert(!starts_ahead(settings.blocksize as int, before.len() as int, piece));
                    }
                }
                break;
            },
        }
    }
    result
}

/// Whether `needle` stands in `content` at index `i`.
pub open spec fn occurs_at(content: Seq<u8>, needle: Seq<u8>, i: int) -> bool {
    &&& 0 <= i
    &&& i + needle.len() <= content.len()
    &&& content.subrange(i, i + needle.len()) == needle
}

/// Whether `needle` stands in `content` at `i` and nowhere before.
pub open spec fn is_first_occurrence(content: Seq<u8>, needle: Seq<u8>, i: int) -> bool {
    &&& occurs_at(content, needle, i)
    &&& forall|j: int| 0 <= j < i ==> !occurs_at(content, needle, j)
}

/// The least index at which `needle` stands in `content`, if it stands there at all.
pub open spec fn first_occurrence(content: Seq<u8>, needle: Seq<u8>) -> Option<int> {
    if exists|i: int| is_first_occurrence(content, needle, i) {
        Some(choose|i: int| is_first_occurrence(content, needle, i))
    } else {
        None
    }
}

/// There is at most one first occurrence.
pub proof fn lemma_first_occurrence_is(content: Seq<u8>, needle: Seq<u8>, i: int)
    requires
        is_first_occurrence(content, needle, i),
    ensures
        first_occurrence(content, needle) == Some(i),
{
    let chosen = choose|i: int| is_first_occurrence(content, needle, i);
    if chosen < i {
        assert(!occurs_at(content, needle, chosen));
    } else if i < chosen {
        assert(!occurs_at(content, needle, i));
    }
}

/// The bytes of `bytes` from `from` up to `to`.
fn copy_range(bytes: &Vec<u8>, from: usize, to: usize) -> (r: Vec<u8>)
    requires
        from <= to <= bytes@.len(),
    ensures
        r@ == bytes@.subrange(from as int, to as int),
{
    let mut r: Vec<u8> = Vec::new();
    let mut i: usize = from;
    while i < to
        invariant
            from <= i <= to <= bytes@.len(),
            r@ == bytes@.subrange(from as int, i as int),
        decreases to - i,
    {
        r.push(bytes[i]);
        assert(r@ =~= bytes@.subrange(from as int, i + 1));
        i += 1;
    }
    r
}

/// What `extract` returns: the bytes between the end of the first prefix
/// marker and the start of the first postfix marker, under the key stream.
/// A marker that does not occur, or a postfix marker whose first occurrence
/// starts before the prefix marker has ended, is `MarkerNotFound`.
pub open spec fn extract_spec(
    content: Seq<u8>,
    settings: Settings,
    password: Seq<u8>,
) -> Result<Seq<u8>, Error> {
    match prefix_marker(settings, password) {
        Err(e) => Err(e),
        Ok(prefix) => match postfix_marker(settings, password) {
            Err(e) => Err(e),
            Ok(postfix) => match (
                first_occurrence(content, prefix),
                first_occurrence(content, postfix),
            ) {
                (Some(p), Some(q)) => if p + prefix.len() <= q {
                    hxor_spec(settings, password, content.subrange(p + prefix.len(), q))
                } else {
                    Err(Error::MarkerNotFound)
                },
                _ => Err(Error::MarkerNotFound),
            },
        },
    }
}

/// Whether the two markers of `item` stand nowhere in `content` before
/// the places that they have in `piece`.
pub open spec fn markers_first_in_place(
    settings: Settings,
    item: Item,
    piece: Piece,
    content: Seq<u8>,
) -> bool {
    &&& prefix_marker(settings, item.password@) is Ok
    &&& postfix_marker(settings, item.password@) is Ok
    &&& forall|j: int|
        0 <= j < piece.start_pos ==> !occurs_at(
            content,
            prefix_marker(settings, item.password@).unwrap(),
            j,
        )
    &&& forall|j: int|
        0 <= j < piece.end_pos - postfix_marker(settings, item.password@).unwrap().len()
            ==> !occurs_at(content, postfix_marker(settings, item.password@).unwrap(), j)
}

/// Extraction gives back what was hidden: in a block that holds the pieces
/// of `items`, the password of item `k` extracts the content of item `k`,
/// provided that neither of its markers happens to stand in the block
/// before its own place.
pub proof fn lemma_extract_recovers(
    settings: Settings,
    items: Seq<Item>,
    files: Seq<Piece>,
    content: Seq<u8>,
    k: int,
)
    requires
        placed(settings, items, files, content),
        0 <= k < items.len(),
        markers_first_in_place(settings, items[k], files[k], content),
    ensures
        extract_spec(content, settings, items[k].password@) == Ok::<Seq<u8>, Error>(
            items[k].content@,
        ),
{
    let item = items[k];
    let piece = files[k];
    let password = item.password@;
    let prefix = prefix_marker(settings, password).unwrap();
    let body = hxor_spec(settings, password, item.content@).unwrap();
    let postfix = postfix_marker(settings, password).unwrap();
    let start = piece.start_pos as int;
    let end = piece.end_pos as int;
    assert(holds_piece(content, piece));
    assert(piece.wf());
    assert(piece.content@ == prefix + body + postfix);
    assert(content.subrange(start, start + prefix.len()) =~= prefix) by {
        assert forall|x: int| 0 <= x < prefix.len() implies content[start + x] == prefix[x] by {
            assert(content.subrange(start, end)[x] == piece.content@[x]);
        }
    }
    assert(content.subrange(end - postfix.len(), end) =~= postfix) by {
        assert forall|x: int| 0 <= x < postfix.len() implies content[end - postfix.len() + x]
            == postfix[x] by {
            assert(content.subrange(start, end)[prefix.len() + body.len() + x]
                == piece.content@[prefix.len() + body.len() + x]);
        }
    }
    assert(content.subrange(start + prefix.len(), end - postfix.len()) =~= body) by {
        assert forall|x: int| 0 <= x < body.len() implies content[start + prefix.len() + x]
            == body[x] by {
            assert(content.subrange(start, end)[prefix.len() + x] == piece.content@[prefix.len() + x]);
        }
    }
    lemma_first_occurrence_is(content, prefix, start);
    lemma_first_occurrence_is(content, postfix, end - postfix.len());
    lemma_cipher_involution(settings.salt@, password, item.content@);
}

/// A password whose prefix marker or whose postfix marker stands nowhere
/// in the block extracts nothing: the answer is `MarkerNotFound`, never
/// bytes.
pub proof fn lemma_absent_marker_is_not_found(
    content: Seq<u8>,
    settings: Settings,
    password: Seq<u8>,
)
    requires
        prefix_marker(settings, password) is Ok,
        postfix_marker(settings, password) is Ok,
        (forall|i: int| !occurs_at(content, prefix_marker(settings, password).unwrap(), i)) || (
        forall|i: int| !occurs_at(content, postfix_marker(settings, password).unwrap(), i)),
    ensures
        extract_spec(content, settings, password) == Err::<Seq<u8>, Error>(Error::MarkerNotFound),
{
}

/// No byte of the block belongs to two pieces.
pub proof fn lemma_pieces_disjoint(blocksize: int, files: Seq<Piece>, i: int, j: int, pos: int)
    requires
        layout_ok(blocksize, files),
        0 <= i < files.len(),
        0 <= j < files.len(),
        i != j,
    ensures
        !(files[i].covers(pos) && files[j].covers(pos)),
{
    if i < j {
        assert(!margins_meet(
            files[i].start_pos as int,
            files[i].end_pos as int,
            files[j].start_pos as int,
            files[j].end_pos as int,
        ));
    } else {
        assert(!margins_meet(
            files[j].start_pos as int,
            files[j].end_pos as int,
            files[i].start_pos as int,
            files[i].end_pos as int,
        ));
    }
}

impl Block {
    /// Builds a block from `items`: one piece for each, placed in the order
    /// of the items at the first free position drawn for it, and drawn bytes
    /// everywhere else.
    pub fn new(settings: &Settings, items: &Vec<Item>, rng: &mut StdRng) -> (r: Result<
        Block,
        Error,
    >)
        ensures
            match r {
                Ok(block) => {
                    &&& placed(*settings, items@, block.files@, block.content@)
                    &&& drawn_in_order(settings.blocksize as int, block.files@)
                },
                Err(e) => exists|before: Seq<Piece>| fails_at(*settings, items@, before, e),
            },
            items@.len() == 0 ==> r is Ok,
            all_fit(*settings, items@) && r is Err ==> r.unwrap_err() == Error::PlacementExhausted,
    {
        let mut files: Vec<Piece> = Vec::new();
        let mut i: usize = 0;
        while i < items.len()
            invariant
                i <= items@.len(),
                pieces_of(*settings, items@.take(i as int), files@),
                layout_ok(settings.blocksize as int, files@),
                drawn_in_order(settings.blocksize as int, files@),
            decreases items@.len() - i,
        {
            let ghost before = files@;
            let placed_piece = Piece::new(settings, &items[i], &files, rng);
            assert(items@.take(i + 1)[i as int] == items@[i as int]);
            match placed_piece {
                Ok(piece) => {
                    files.push(piece);
                    proof {
                        assert(start_of(placed_piece) == Ok::<u32, Error>(piece.start_pos));
                        assert forall|k: int| 0 <= k < files@.len() implies #[trigger] placed_by_draws(
                            settings.blocksize as int,
                            files@.take(k),
                            files@[k],
                        ) by {
                            if k < before.len() {
                                assert(files@.take(k) =~= before.take(k));
                                assert(files@[k] == before[k]);
                                assert(placed_by_draws(
                                    settings.blocksize as int,
                                    before.take(k),
                                    before[k],
                                ));
                            } else {
                                assert(files@.take(k) =~= before);
                            }
                        }
                        assert forall|a: int, b: int| 0 <= a < b < files@.len() implies !margins_meet(
                            (#[trigger] files@[a]).start_pos as int,
                            files@[a].end_pos as int,
                            (#[trigger] files@[b]).start_pos as int,
                            files@[b].end_pos as int,
                        ) by {
                            if b == before.len() {
                                assert(files@[a] == before[a]);
                            } else {
                                assert(files@[a] == before[a] && files@[b] == before[b]);
                            }
                        }
                        assert forall|k: int| 0 <= k < files@.len() implies piece_content(
                            *settings,
                            items@.take(i + 1)[k],
                        ) == Ok::<Seq<u8>, Error>((#[trigger] files@[k]).content@) && files@[k].password@
                            == items@.take(i + 1)[k].password@ by {
                            if k < before.len() {
                                assert(files@[k] == before[k]);
                                assert(items@.take(i + 1)[k] == items@.take(i as int)[k]);
                            }
                        }
                    }
                },
                Err(e) => {
                    proof {
                        assert(start_of(placed_piece) == Err::<u32, Error>(e));
                        assert(fails_at(*settings, items@, before, e));
                    }
                    return Err(e);
                },
            }
            i += 1;
        }
        assert(items@.take(items@.len() as int) =~= items@);
        let padding = draw_padding(rng, settings.blocksize as usize);
        let content = assemble(settings, &files, &padding);
        Ok(Block { files, content })
    }

    /// A block read from elsewhere: its bytes, and no pieces.
    pub fn import(content: Vec<u8>) -> (block: Block)
        ensures
            block.content@ == content@,
            block.files@.len() == 0,
    {
        Block { files: Vec::new(), content }
    }

    /// The first index at which `needle` stands in the block.
    pub fn find_needle_pos(&self, needle: &Vec<u8>) -> (r: Option<usize>)
        ensures
            match r {
                Some(i) => first_occurrence(self.content@, needle@) == Some(i as int),
                None => first_occurrence(self.content@, needle@) is None,
            },
    {
        if needle.len() > self.content.len() {
            return None;
        }
        let last: usize = self.content.len() - needle.len();
        let mut i: usize = 0;
        loop
            invariant
                last == self.content@.len() - needle@.len(),
                self.content@.len() <= usize::MAX,
                i <= last,
                forall|j: int| 0 <= j < i ==> !occurs_at(self.content@, needle@, j),
            decreases last - i,
        {
            let mut success: bool = true;
            let mut j: usize = 0;
            while j < needle.len()
                invariant_except_break
                    success,
                invariant
                    i <= last,
                    last == self.content@.len() - needle@.len(),
                    self.content@.len() <= usize::MAX,
                    j <= needle@.len(),
                    forall|m: int| 0 <= m < j ==> self.content@[i + m] == needle@[m],
                ensures
                    success ==> forall|m: int|
                        0 <= m < needle@.len() ==> self.content@[i + m] == needle@[m],
                    !success ==> exists|m: int|
                        0 <= m < needle@.len() && self.content@[i + m] != needle@[m],
                decreases needle@.len() - j,
            {
                if self.content[i + j] != needle[j] {
                    success = false;
                    break;
                }
                j += 1;
            }
            if success {
                proof {
                    assert(self.content@.subrange(i as int, i + needle@.len()) =~= needle@);
                    lemma_first_occurrence_is(self.content@, needle@, i as int);
                }
                return Some(i);
            }
            proof {
                let m = choose|m: int|
                    0 <= m < needle@.len() && self.content@[i + m] != needle@[m];
                assert(self.content@.subrange(i as int, i + needle@.len())[m] == self.content@[i
                    + m]);
            }
            if i == last {
                return None;
            }
            i += 1;
        }
    }

    /// The index just behind the first place at which `needle` stands in the block.
    pub fn find_needle_endpos(&self, needle: &Vec<u8>) -> (r: Option<usize>)
        ensures
            match r {
                Some(end) => first_occurrence(self.content@, needle@) == Some(end - needle@.len()),
                None => first_occurrence(self.content@, needle@) is None,
            },
    {
        let total: usize = self.content.len();
        match self.find_needle_pos(needle) {
            Some(x) => {
                assert(occurs_at(self.content@, needle@, x as int));
                assert(x + needle@.len() <= total);
                Some(x + needle.len())
            },
            None => None,
        }
    }

    /// Finds the message of `password` between its two markers and decrypts it.
    pub fn extract(&self, settings: &Settings, password: &Vec<u8>) -> (r: Result<Vec<u8>, Error>)
        ensures
            bytes_result(r) == extract_spec(self.content@, *settings, password@),
            password_fits(*settings, password@) && r is Err ==> r.unwrap_err()
                == Error::MarkerNotFound,
    {
        let prefix = match prefix_ident(settings, password) {
            Ok(prefix) => prefix,
            Err(e) => {
                return Err(e);
            },
        };
        let range_end = self.find_needle_endpos(&prefix);
        let postfix = match postfix_ident(settings, password) {
            Ok(postfix) => postfix,
            Err(e) => {
                return Err(e);
            },
        };
        let range_begin = self.find_needle_pos(&postfix);
        match range_end {
            Some(begin) => match range_begin {
                Some(end) => {
                    if begin > end {
                        return Err(Error::MarkerNotFound);
                    }
                    assert(occurs_at(self.content@, postfix@, end as int));
                    let msg = copy_range(&self.content, begin, end);
                    hxor(settings, password, &msg)
                },
                None => Err(Error::MarkerNotFound),
            },
            None => Err(Error::MarkerNotFound),
        }
    }
}

} // verus!
