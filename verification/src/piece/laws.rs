//! What holds of every download.
use vstd::prelude::*;

use crate::bitfield;
use crate::peer::BLOCK_SIZE;
use crate::piece::model;
use crate::piece::model::{Blocks, Download};
use crate::piece::BlockRequest;

verus! {

/// A block is not empty, is no longer than a block may be, and ends within its
/// piece.
pub proof fn law_block_fits(len: int, b: int)
    requires
        0 <= b < model::block_count(len),
    ensures
        0 < model::block_len(len, b) <= BLOCK_SIZE,
        0 <= b * BLOCK_SIZE,
        b * BLOCK_SIZE + model::block_len(len, b) <= len,
{
}

/// Every byte of a piece is in one block of it, and in no other.
pub proof fn law_blocks_cover_piece(len: int, pos: int, b: int)
    requires
        0 <= pos < len,
    ensures
        (0 <= b < model::block_count(len) && b * BLOCK_SIZE <= pos < b * BLOCK_SIZE
            + model::block_len(len, b)) <==> b == pos / (BLOCK_SIZE as int),
{
}

/// A request is for a block of a piece that is not complete here and that the
/// peer has. It asks for at least one byte and for no more than a block may
/// hold, and it ends within the piece.
pub proof fn law_request_within_piece(
    d: Download,
    bits: Seq<u8>,
    peer: u32,
    r: BlockRequest,
    after: Download,
)
    requires
        model::piece_len(d, r.piece_index as int) <= u32::MAX,
        model::next_is(d, bits, peer, Some(r), after),
    ensures
        !model::holds(d, r.piece_index as int),
        bitfield::has_bit(bits, r.piece_index),
        0 < r.length <= BLOCK_SIZE,
        r.begin + r.length <= model::piece_len(d, r.piece_index as int),
{
    law_block_fits(
        model::piece_len(d, r.piece_index as int) as int,
        (r.begin / BLOCK_SIZE) as int,
    );
}

/// No block is asked for while it is pending or after it was received; and one
/// that is asked for is pending.
pub proof fn law_request_not_repeated(
    d: Download,
    bits: Seq<u8>,
    peer: u32,
    r: BlockRequest,
    after: Download,
)
    requires
        model::valid(d),
        model::next_is(d, bits, peer, Some(r), after),
    ensures
        !d.blocks[r.piece_index as int].pending.contains_key(r.begin),
        !d.blocks[r.piece_index as int].received.contains(r.begin),
        after.blocks[r.piece_index as int].pending.contains_key(r.begin),
        after.blocks[r.piece_index as int].pending[r.begin] == peer,
{
}

/// At the start a peer is asked for the first block of the first piece that it
/// has, and is asked for something if it has any.
pub proof fn law_first_request(
    piece_length: u64,
    total_length: u64,
    hashes: Seq<Seq<u8>>,
    bits: Seq<u8>,
    peer: u32,
    i: int,
    next: Option<BlockRequest>,
    after: Download,
)
    requires
        0 < piece_length <= u32::MAX,
        0 <= i < model::fresh(piece_length, total_length, hashes).total_pieces,
        bitfield::has_bit(bits, i as u32),
        forall|j: int| 0 <= j < i ==> !#[trigger] bitfield::has_bit(bits, j as u32),
        model::next_is(
            model::fresh(piece_length, total_length, hashes),
            bits,
            peer,
            next,
            after,
        ),
    ensures
        next is Some,
        next->0.piece_index == i,
        next->0.begin == 0,
{
    let d = model::fresh(piece_length, total_length, hashes);
    assert(model::eligible(d, bits, i));
    assert forall|j: int| #[trigger] model::eligible(d, bits, j) implies model::comes_before(
        d,
        i,
        j,
    ) by {
        assert(bitfield::has_bit(bits, j as u32));
    }
    assert(model::chosen(d, bits, i));
    assert(model::open_block(d, i, 0));
    if next is Some {
        let p = next->0.piece_index as int;
        assert(model::comes_before(d, p, i));
        assert(model::comes_before(d, i, p));
    }
}

/// Of every piece that is not complete, the blocks that it is busy with are
/// those that are pending, and none of them was received.
pub open spec fn tidy(d: Download) -> bool {
    &&& model::valid(d)
    &&& forall|i: int|
        #![trigger d.blocks[i]]
        0 <= i < d.total_pieces && !d.have[i] ==> {
            &&& d.blocks[i].active == d.blocks[i].pending.dom()
            &&& d.blocks[i].active.disjoint(d.blocks[i].received)
        }
}

/// A download starts tidy.
pub proof fn law_fresh_tidy(piece_length: u64, total_length: u64, hashes: Seq<Seq<u8>>)
    ensures
        tidy(model::fresh(piece_length, total_length, hashes)),
{
    let d = model::fresh(piece_length, total_length, hashes);
    assert(model::no_blocks().active =~= model::no_blocks().pending.dom());
    assert forall|i: int| #![trigger d.blocks[i]] 0 <= i < d.total_pieces implies d.blocks[i]
        == model::no_blocks() by {}
}

/// Every operation keeps a download tidy.
pub proof fn law_kept_tidy(
    d: Download,
    bits: Seq<u8>,
    peer: u32,
    next: Option<BlockRequest>,
    after: Download,
    i: int,
    begin: u32,
    data: Seq<u8>,
    length: u64,
    reads: Seq<Option<Seq<u8>>>,
)
    requires
        tidy(d),
        0 <= i < d.total_pieces,
    ensures
        model::next_is(d, bits, peer, next, after) ==> tidy(after),
        tidy(model::received(d, i, begin, data).0),
        tidy(model::completed(d, i, length)),
        tidy(model::discarded(d, i)),
        tidy(model::cancelled(d, peer)),
        tidy(model::resumed(d, reads)),
{
    if next is Some && model::next_is(d, bits, peer, next, after) {
        lemma_requested_tidy(d, next->0, peer);
    }
    lemma_received_tidy(d, i, begin, data);
    let done = model::completed(d, i, length);
    assert forall|j: int| #![trigger done.blocks[j]] 0 <= j < d.total_pieces && j != i implies
        done.blocks[j] == d.blocks[j] && done.have[j] == d.have[j] by {}
    assert(model::no_blocks().active =~= model::no_blocks().pending.dom());
    let dropped = model::discarded(d, i);
    assert forall|j: int| #![trigger dropped.blocks[j]] 0 <= j < d.total_pieces && j != i implies
        dropped.blocks[j] == d.blocks[j] by {}
    lemma_cancelled_tidy(d, peer);
    let back = model::resumed(d, reads);
    assert forall|j: int|
        #![trigger back.blocks[j]]
        0 <= j < d.total_pieces && !back.have[j] implies !d.have[j] by {}
}

/// Taking back what a peer was asked for keeps a download tidy.
pub proof fn lemma_cancelled_tidy(d: Download, peer: u32)
    requires
        tidy(d),
    ensures
        tidy(model::cancelled(d, peer)),
{
    let after = model::cancelled(d, peer);
    assert forall|j: int|
        #![trigger after.blocks[j]]
        0 <= j < d.total_pieces && !d.have[j] implies after.blocks[j].active
        == after.blocks[j].pending.dom() && after.blocks[j].active.disjoint(
        after.blocks[j].received,
    ) by {
        let b = d.blocks[j];
        assert(b.active == b.pending.dom());
        assert(model::released(b, peer).active =~= model::released(b, peer).pending.dom());
    }
}

/// What a peer was asked for and has not given can be asked for again once it is
/// taken back. What came in, what others were asked for and what is complete
/// stays as it is.
pub proof fn law_cancelled_requested_again(d: Download, peer: u32, i: int, b: int)
    requires
        model::valid(d),
        0 <= i < d.total_pieces,
        0 <= b < model::block_count(model::piece_len(d, i) as int),
        !d.blocks[i].received.contains(model::block_begin(b)),
        d.blocks[i].pending.contains_key(model::block_begin(b)),
    ensures
        ({
            let after = model::cancelled(d, peer);
            let asked = d.blocks[i].pending[model::block_begin(b)];
            &&& model::valid(after)
            &&& model::open_block(after, i, b) <==> asked == peer
            &&& after.blocks[i].received == d.blocks[i].received
            &&& after.blocks[i].buffer == d.blocks[i].buffer
            &&& after.have == d.have
            &&& after.downloaded == d.downloaded
        }),
{
}

proof fn lemma_requested_tidy(d: Download, r: BlockRequest, peer: u32)
    requires
        tidy(d),
        r.piece_index < d.total_pieces,
        !d.blocks[r.piece_index as int].received.contains(r.begin),
    ensures
        tidy(model::requested(d, r, peer)),
{
    let after = model::requested(d, r, peer);
    let i = r.piece_index as int;
    let b = d.blocks[i];
    assert(b.pending.insert(r.begin, peer).dom() =~= b.pending.dom().insert(r.begin));
    assert forall|j: int| #![trigger after.blocks[j]] 0 <= j < d.total_pieces && j != i implies
        after.blocks[j] == d.blocks[j] by {}
}

proof fn lemma_received_tidy(d: Download, i: int, begin: u32, data: Seq<u8>)
    requires
        tidy(d),
        0 <= i < d.total_pieces,
    ensures
        tidy(model::received(d, i, begin, data).0),
{
    let after = model::received(d, i, begin, data).0;
    let b = d.blocks[i];
    assert(b.pending.remove(begin).dom() =~= b.pending.dom().remove(begin));
    assert forall|j: int| #![trigger after.blocks[j]] 0 <= j < d.total_pieces && j != i implies
        after.blocks[j] == d.blocks[j] by {}
}

/// A piece that is complete is asked for no more, whatever a peer has.
pub proof fn law_completed_not_requested(d: Download, i: int, length: u64, bits: Seq<u8>)
    requires
        model::valid(d),
        0 <= i < d.total_pieces,
    ensures
        model::valid(model::completed(d, i, length)),
        model::holds(model::completed(d, i, length), i),
        !model::eligible(model::completed(d, i, length), bits, i),
{
}

/// A piece whose content is dropped can be asked for again from its first
/// block to its last.
pub proof fn law_discarded_requested_again(d: Download, i: int, b: int)
    requires
        model::valid(d),
        0 <= i < d.total_pieces,
        0 <= b < model::block_count(model::piece_len(d, i) as int),
    ensures
        model::valid(model::discarded(d, i)),
        model::open_block(model::discarded(d, i), i, b),
        model::discarded(d, i).blocks[i].active.len() == 0,
        model::discarded(d, i).have == d.have,
{
}

/// All pieces are complete when as many are complete as there are.
pub proof fn law_all_complete(d: Download)
    ensures
        model::count_held(d.have) <= d.have.len(),
        model::count_held(d.have) == d.have.len() <==> model::complete(d),
{
    lemma_count_held(d.have);
}

/// Where every piece is complete, no peer has one that is not.
pub proof fn law_complete_needs_nothing(d: Download, bits: Seq<u8>)
    requires
        model::valid(d),
        model::complete(d),
    ensures
        !model::needs(d, bits),
        forall|i: int| !#[trigger] model::eligible(d, bits, i),
{
    assert forall|i: u32| i < d.total_pieces implies #[trigger] bitfield::has_bit(bits, i)
        ==> model::holds(d, i as int) by {
        assert(d.have[i as int]);
    }
    assert forall|i: int| !#[trigger] model::eligible(d, bits, i) by {
        if 0 <= i < d.total_pieces {
            assert(d.have[i]);
        }
    }
}

proof fn lemma_count_held(have: Seq<bool>)
    ensures
        model::count_held(have) <= have.len(),
        model::count_held(have) == have.len() <==> forall|i: int|
            0 <= i < have.len() ==> #[trigger] have[i],
    decreases have.len(),
{
    if have.len() > 0 {
        let front = have.drop_last();
        lemma_count_held(front);
        if forall|i: int| 0 <= i < have.len() ==> #[trigger] have[i] {
            assert forall|i: int| 0 <= i < front.len() implies #[trigger] front[i] by {
                assert(have[i]);
            }
        }
        if forall|i: int| 0 <= i < front.len() ==> #[trigger] front[i] {
            assert forall|i: int| 0 <= i < have.len() && (i < have.len() - 1 || have.last())
                implies #[trigger] have[i] by {
                if i < front.len() {
                    assert(front[i]);
                }
            }
        }
    }
}

/// The length of the first pieces that are complete.
pub open spec fn held_length(d: Download, n: int) -> int
    decreases n,
{
    if n <= 0 {
        0
    } else {
        held_length(d, n - 1) + if d.have[n - 1] {
            model::piece_len(d, n - 1) as int
        } else {
            0
        }
    }
}

/// Whether as much counts as downloaded as the complete pieces are long.
pub open spec fn accounted(d: Download) -> bool {
    d.downloaded == held_length(d, d.total_pieces as int)
}

/// The length is the same for another download with the same pieces.
proof fn lemma_held_length_same(d: Download, e: Download, n: int)
    requires
        n <= d.total_pieces,
        e.total_pieces == d.total_pieces,
        e.piece_length == d.piece_length,
        e.last_piece_length == d.last_piece_length,
        e.total_length == d.total_length,
        forall|i: int| 0 <= i < n ==> #[trigger] e.have[i] == d.have[i],
    ensures
        held_length(e, n) == held_length(d, n),
    decreases n,
{
    if n > 0 {
        lemma_held_length_same(d, e, n - 1);
        assert(e.have[n - 1] == d.have[n - 1]);
    }
}

/// One more complete piece adds its length.
proof fn lemma_held_length_more(d: Download, i: int, n: int)
    requires
        model::valid(d),
        0 <= i < d.total_pieces,
        !d.have[i],
        n <= d.total_pieces,
    ensures
        held_length(Download { have: d.have.update(i, true), ..d }, n) == held_length(d, n) + if i
            < n {
            model::piece_len(d, i) as int
        } else {
            0
        },
    decreases n,
{
    if n > 0 {
        lemma_held_length_more(d, i, n - 1);
    }
}

/// A download starts with nothing downloaded.
pub proof fn law_fresh_accounted(piece_length: u64, total_length: u64, hashes: Seq<Seq<u8>>)
    ensures
        accounted(model::fresh(piece_length, total_length, hashes)),
{
    let d = model::fresh(piece_length, total_length, hashes);
    lemma_nothing_held(d, d.total_pieces as int);
}

proof fn lemma_nothing_held(d: Download, n: int)
    requires
        n <= d.have.len(),
        forall|i: int| 0 <= i < d.have.len() ==> !#[trigger] d.have[i],
    ensures
        held_length(d, n) == 0,
    decreases n,
{
    if n > 0 {
        lemma_nothing_held(d, n - 1);
        assert(!d.have[n - 1]);
    }
}

/// As much counts as downloaded as the complete pieces are long: requests, blocks
/// and dropped pieces change neither, and a piece that was not complete adds its
/// length when it is counted as complete or read from disk.
pub proof fn law_kept_accounted(
    d: Download,
    bits: Seq<u8>,
    peer: u32,
    next: Option<BlockRequest>,
    after: Download,
    i: int,
    begin: u32,
    data: Seq<u8>,
    read: Option<Seq<u8>>,
)
    requires
        model::valid(d),
        accounted(d),
        0 <= i < d.total_pieces,
    ensures
        model::next_is(d, bits, peer, next, after) ==> accounted(after),
        accounted(model::received(d, i, begin, data).0),
        accounted(model::discarded(d, i)),
        accounted(model::cancelled(d, peer)),
        d.downloaded + model::piece_len(d, i) <= u64::MAX ==> {
            &&& !d.have[i] ==> accounted(model::completed(d, i, model::piece_len(d, i)))
            &&& accounted(model::restored(d, i, read))
        },
{
    let n = d.total_pieces as int;
    if model::next_is(d, bits, peer, next, after) {
        lemma_held_length_same(d, after, n);
    }
    lemma_held_length_same(d, model::received(d, i, begin, data).0, n);
    lemma_held_length_same(d, model::discarded(d, i), n);
    lemma_held_length_same(d, model::cancelled(d, peer), n);
    if !d.have[i] {
        let more = Download { have: d.have.update(i, true), ..d };
        lemma_held_length_more(d, i, n);
        lemma_held_length_same(more, model::completed(d, i, model::piece_len(d, i)), n);
        if model::restorable(d, i, read) {
            lemma_held_length_same(more, model::restored(d, i, read), n);
        }
    }
}

/// Taking up a download counts as downloaded what the pieces that are found are
/// long.
pub proof fn law_resumed_accounted(d: Download, reads: Seq<Option<Seq<u8>>>)
    requires
        model::valid(d),
        accounted(d),
        reads.len() <= d.total_pieces,
        d.downloaded + model::restored_length(d, reads) <= u64::MAX,
    ensures
        accounted(model::resumed(d, reads)),
{
    lemma_resumed_length(d, reads, d.total_pieces as int);
    lemma_restored_length_nonnegative(d, reads);
}

/// Lengths add up to no less than nothing.
pub proof fn lemma_restored_length_nonnegative(d: Download, reads: Seq<Option<Seq<u8>>>)
    ensures
        0 <= model::restored_length(d, reads),
    decreases reads.len(),
{
    if reads.len() > 0 {
        lemma_restored_length_nonnegative(d, reads.drop_last());
    }
}

proof fn lemma_resumed_length(d: Download, reads: Seq<Option<Seq<u8>>>, n: int)
    requires
        model::valid(d),
        0 <= n <= d.total_pieces,
        reads.len() <= d.total_pieces,
    ensures
        held_length(model::resumed(d, reads), n) == held_length(d, n) + model::restored_length(
            d,
            if n < reads.len() {
                reads.take(n)
            } else {
                reads
            },
        ),
    decreases n,
{
    if n == 0 {
        assert(reads.take(0) =~= Seq::empty());
        if reads.len() == 0 {
            assert(reads =~= Seq::empty());
        }
    } else {
        lemma_resumed_length(d, reads, n - 1);
        if n <= reads.len() {
            assert(reads.take(n).drop_last() =~= reads.take(n - 1));
            assert(reads.take(n).last() == reads[n - 1]);
            if n == reads.len() {
                assert(reads.take(n) =~= reads);
            }
        }
    }
}

/// When all pieces are complete, and they fill the content, all of the content is
/// downloaded.
pub proof fn law_complete_is_whole(
    piece_length: u64,
    total_length: u64,
    hashes: Seq<Seq<u8>>,
    d: Download,
)
    requires
        piece_length > 0,
        total_length > 0,
        0 < hashes.len() < 0x1_0000_0000,
        (hashes.len() - 1) * piece_length < total_length <= hashes.len() * piece_length,
        d.total_pieces == model::fresh(piece_length, total_length, hashes).total_pieces,
        d.piece_length == piece_length,
        d.last_piece_length == model::fresh(
            piece_length,
            total_length,
            hashes,
        ).last_piece_length,
        d.total_length == total_length,
        model::valid(d),
        model::complete(d),
        accounted(d),
    ensures
        d.downloaded == total_length,
{
    let f = model::fresh(piece_length, total_length, hashes);
    let n = hashes.len() as int;
    law_pieces_fill_content(piece_length, total_length, hashes);
    assert forall|i: int| 0 <= i < n - 1 implies #[trigger] model::piece_len(d, i)
        == piece_length by {
        assert(model::piece_len(f, i) == piece_length);
    }
    lemma_all_held(d, n - 1);
    assert(d.have[n - 1]);
    assert(model::piece_len(d, n - 1) == model::piece_len(f, n - 1));
}

proof fn lemma_all_held(d: Download, n: int)
    requires
        0 <= n <= d.have.len(),
        model::complete(d),
        forall|i: int| 0 <= i < n ==> #[trigger] model::piece_len(d, i) == d.piece_length,
    ensures
        held_length(d, n) == n * d.piece_length,
    decreases n,
{
    if n > 0 {
        lemma_all_held(d, n - 1);
        assert(d.have[n - 1]);
        assert(model::piece_len(d, n - 1) == d.piece_length);
        assert(n * d.piece_length == (n - 1) * d.piece_length + d.piece_length)
            by (nonlinear_arith);
    } else {
        assert(n * d.piece_length == 0) by (nonlinear_arith)
            requires
                n == 0,
        ;
    }
}

/// The pieces fill the content: all have the same length but for the last one,
/// which ends where the content does.
pub proof fn law_pieces_fill_content(piece_length: u64, total_length: u64, hashes: Seq<Seq<u8>>)
    requires
        piece_length > 0,
        total_length > 0,
        0 < hashes.len() < 0x1_0000_0000,
        (hashes.len() - 1) * piece_length < total_length <= hashes.len() * piece_length,
    ensures
        ({
            let d = model::fresh(piece_length, total_length, hashes);
            let n = hashes.len() as int;
            &&& d.total_pieces == n
            &&& forall|i: int| 0 <= i < n - 1 ==> #[trigger] model::piece_len(d, i) == piece_length
            &&& (n - 1) * piece_length + model::piece_len(d, n - 1) == total_length
        }),
{
    let n = hashes.len() as int;
    let d = model::fresh(piece_length, total_length, hashes);
    let rest = total_length - (n - 1) * piece_length;
    assert(n * piece_length == (n - 1) * piece_length + piece_length) by (nonlinear_arith);
    assert(0 < rest <= piece_length);
    if rest == piece_length {
        vstd::arithmetic::div_mod::lemma_fundamental_div_mod_converse(
            total_length as int,
            piece_length as int,
            n,
            0,
        );
    } else {
        vstd::arithmetic::div_mod::lemma_fundamental_div_mod_converse(
            total_length as int,
            piece_length as int,
            n - 1,
            rest,
        );
    }
}

/// The bytes of the block numbered `b` of a piece.
pub open spec fn block_of(content: Seq<u8>, b: int) -> Seq<u8> {
    content.subrange(
        b * BLOCK_SIZE,
        b * BLOCK_SIZE + model::block_len(content.len() as int, b),
    )
}

/// After the blocks with the numbers in `order` came in, one after the other.
pub open spec fn after_blocks(d: Download, i: int, content: Seq<u8>, order: Seq<int>) -> Download
    decreases order.len(),
{
    if order.len() == 0 {
        d
    } else {
        let b = order.last();
        model::received(
            after_blocks(d, i, content, order.drop_last()),
            i,
            model::block_begin(b),
            block_of(content, b),
        ).0
    }
}

/// Blocks that come in change nothing but the blocks of their piece.
pub proof fn law_blocks_keep_rest(d: Download, i: int, content: Seq<u8>, order: Seq<int>)
    requires
        model::valid(d),
        0 <= i < d.total_pieces,
    ensures
        ({
            let after = after_blocks(d, i, content, order);
            after == model::with_blocks(d, i, after.blocks[i])
        }),
    decreases order.len(),
{
    if order.len() > 0 {
        law_blocks_keep_rest(d, i, content, order.drop_last());
    }
    assert(after_blocks(d, i, content, order) =~= model::with_blocks(
        d,
        i,
        after_blocks(d, i, content, order).blocks[i],
    ));
}

/// Whether `order` holds numbers of blocks of a piece of `len` bytes, each at
/// most once.
pub open spec fn block_order(len: int, order: Seq<int>) -> bool {
    &&& order.no_duplicates()
    &&& forall|k: int| 0 <= k < order.len() ==> 0 <= #[trigger] order[k] < model::block_count(len)
}

/// A piece is put together whatever the order is in which its blocks come in:
/// nothing comes back until the last one is there, and then all of the piece.
pub proof fn law_blocks_reassemble(d: Download, i: int, content: Seq<u8>, order: Seq<int>)
    requires
        model::valid(d),
        0 <= i < d.total_pieces,
        !d.have[i],
        d.blocks[i].received == Set::<u32>::empty(),
        d.blocks[i].buffer == Seq::<u8>::empty(),
        content.len() == model::piece_len(d, i),
        content.len() <= u32::MAX,
        order.len() > 0,
        block_order(content.len() as int, order),
    ensures
        model::received(
            after_blocks(d, i, content, order.drop_last()),
            i,
            model::block_begin(order.last()),
            block_of(content, order.last()),
        ).1 == if order.len() == model::block_count(content.len() as int) {
            Some(content)
        } else {
            None
        },
{
    let front = order.drop_last();
    let len = content.len() as int;
    assert forall|k: int| 0 <= k < front.len() implies 0 <= #[trigger] front[k]
        < model::block_count(len) by {
        assert(order[k] == front[k]);
    }
    lemma_order_bounded(len, order);
    lemma_partly_placed(d, i, content, front);
    let before = after_blocks(d, i, content, front);
    lemma_one_more(d, before, i, content, front, order.last());
    assert(front.push(order.last()) =~= order);
    if order.len() == model::block_count(len) {
        let buffer = model::placed(
            before.blocks[i].buffer,
            model::block_begin(order.last()) as int,
            block_of(content, order.last()),
        );
        assert forall|pos: int| 0 <= pos < len implies pos < buffer.len() && #[trigger] buffer[pos]
            == content[pos] by {
            let b = pos / (BLOCK_SIZE as int);
            law_blocks_cover_piece(len, pos, b);
            lemma_order_full(len, order, b);
            let k = choose|k: int| 0 <= k < order.len() && order[k] == b;
            let again = front.push(order.last());
            assert(again[k] == b);
            assert(buffer_holds(buffer, content, again));
            assert(in_block(len, again[k], pos));
        }
        if len > 0 {
            assert(buffer[len - 1] == content[len - 1]);
        }
        assert(buffer =~= content);
    }
}

/// What is known of a piece after some of its blocks came in.
spec fn partly_placed(d: Download, now: Download, i: int, content: Seq<u8>, order: Seq<int>) -> bool {
    &&& now.have == d.have
    &&& now.total_pieces == d.total_pieces
    &&& now.piece_length == d.piece_length
    &&& now.last_piece_length == d.last_piece_length
    &&& now.total_length == d.total_length
    &&& now.blocks.len() == d.blocks.len()
    &&& holds_blocks(now.blocks[i], content, order)
}

spec fn holds_blocks(b: Blocks, content: Seq<u8>, order: Seq<int>) -> bool {
    &&& b.received.finite()
    &&& b.received.len() == order.len()
    &&& forall|c: u32| #[trigger]
        b.received.contains(c) ==> exists|k: int|
            0 <= k < order.len() && model::block_begin(#[trigger] order[k]) == c
    &&& buffer_holds(b.buffer, content, order)
}

/// Whether a byte of a piece is in the block numbered `b`.
spec fn in_block(len: int, b: int, pos: int) -> bool {
    0 <= pos && b * BLOCK_SIZE <= pos < b * BLOCK_SIZE + model::block_len(len, b)
}

spec fn buffer_holds(buffer: Seq<u8>, content: Seq<u8>, order: Seq<int>) -> bool {
    &&& buffer.len() <= content.len()
    &&& forall|k: int, pos: int|
        0 <= k < order.len() && #[trigger] in_block(content.len() as int, order[k], pos) ==> pos
            < buffer.len() && buffer[pos] == content[pos]
}

proof fn lemma_placed_holds(buffer: Seq<u8>, content: Seq<u8>, order: Seq<int>, b: int)
    requires
        content.len() <= u32::MAX,
        buffer_holds(buffer, content, order),
        0 <= b < model::block_count(content.len() as int),
    ensures
        buffer_holds(
            model::placed(buffer, model::block_begin(b) as int, block_of(content, b)),
            content,
            order.push(b),
        ),
{
    let len = content.len() as int;
    let begin = b * BLOCK_SIZE;
    law_block_fits(len, b);
    assert(model::block_begin(b) == begin);
    let data = block_of(content, b);
    let next = model::placed(buffer, begin, data);
    let more = order.push(b);
    assert forall|k: int, pos: int|
        0 <= k < more.len() && #[trigger] in_block(len, more[k], pos) implies pos < next.len()
        && next[pos] == content[pos] by {
        if begin <= pos < begin + data.len() {
            assert(next[pos] == data[pos - begin]);
        } else {
            assert(k < order.len());
            assert(in_block(len, order[k], pos));
            assert(next[pos] == buffer[pos]);
        }
    }
}

proof fn lemma_one_more(
    d: Download,
    now: Download,
    i: int,
    content: Seq<u8>,
    order: Seq<int>,
    b: int,
)
    requires
        0 <= i < d.total_pieces,
        model::valid(d),
        !d.have[i],
        content.len() == model::piece_len(d, i),
        content.len() <= u32::MAX,
        partly_placed(d, now, i, content, order),
        block_order(content.len() as int, order.push(b)),
    ensures
        now.blocks[i].received.insert(model::block_begin(b)).len() == order.len() + 1,
        buffer_holds(
            model::placed(
                now.blocks[i].buffer,
                model::block_begin(b) as int,
                block_of(content, b),
            ),
            content,
            order.push(b),
        ),
        order.len() + 1 < model::block_count(content.len() as int) ==> partly_placed(
            d,
            model::received(now, i, model::block_begin(b), block_of(content, b)).0,
            i,
            content,
            order.push(b),
        ),
{
    broadcast use vstd::set::group_set_axioms;

    let len = content.len() as int;
    let more = order.push(b);
    assert(more[order.len() as int] == b);
    let r = now.blocks[i].received;
    let begin = model::block_begin(b);
    law_block_fits(len, b);
    if r.contains(begin) {
        let k = choose|k: int|
            0 <= k < order.len() && model::block_begin(#[trigger] order[k]) == begin;
        assert(more[k] == order[k]);
        law_block_fits(len, more[k]);
        assert(more[k] * BLOCK_SIZE == b * BLOCK_SIZE);
        assert(more[k] == more[order.len() as int]);
    }
    lemma_placed_holds(now.blocks[i].buffer, content, order, b);
    assert forall|c: u32| #[trigger] r.insert(begin).contains(c) implies exists|k: int|
        0 <= k < more.len() && model::block_begin(#[trigger] more[k]) == c by {
        if c != begin {
            let k = choose|k: int|
                0 <= k < order.len() && model::block_begin(#[trigger] order[k]) == c;
            assert(model::block_begin(more[k]) == c);
        } else {
            assert(model::block_begin(more[order.len() as int]) == c);
        }
    }
}

proof fn lemma_partly_placed(d: Download, i: int, content: Seq<u8>, order: Seq<int>)
    requires
        model::valid(d),
        0 <= i < d.total_pieces,
        !d.have[i],
        d.blocks[i].received == Set::<u32>::empty(),
        d.blocks[i].buffer == Seq::<u8>::empty(),
        content.len() == model::piece_len(d, i),
        content.len() <= u32::MAX,
        block_order(content.len() as int, order),
        order.len() < model::block_count(content.len() as int),
    ensures
        partly_placed(d, after_blocks(d, i, content, order), i, content, order),
    decreases order.len(),
{
    broadcast use vstd::set::group_set_axioms;

    if order.len() > 0 {
        let front = order.drop_last();
        assert forall|k: int| 0 <= k < front.len() implies 0 <= #[trigger] front[k]
            < model::block_count(content.len() as int) by {
            assert(order[k] == front[k]);
        }
        lemma_partly_placed(d, i, content, front);
        assert(front.push(order.last()) =~= order);
        lemma_one_more(
            d,
            after_blocks(d, i, content, front),
            i,
            content,
            front,
            order.last(),
        );
    }
}

proof fn lemma_order_bounded(len: int, order: Seq<int>)
    requires
        0 <= len,
        block_order(len, order),
    ensures
        order.len() <= model::block_count(len),
{
    let all = vstd::set_lib::set_int_range(0, model::block_count(len));
    vstd::set_lib::lemma_int_range(0, model::block_count(len));
    order.unique_seq_to_set();
    assert(order.to_set().subset_of(all));
    vstd::set_lib::lemma_len_subset(order.to_set(), all);
}

proof fn lemma_order_full(len: int, order: Seq<int>, b: int)
    requires
        block_order(len, order),
        order.len() == model::block_count(len),
        0 <= b < model::block_count(len),
    ensures
        order.contains(b),
{
    let all = vstd::set_lib::set_int_range(0, model::block_count(len));
    vstd::set_lib::lemma_int_range(0, model::block_count(len));
    order.unique_seq_to_set();
    assert(order.to_set().subset_of(all));
    vstd::seq_lib::seq_to_set_is_finite(order);
    vstd::set_lib::lemma_subset_equality(order.to_set(), all);
    assert(all.contains(b));
}

} // verus!
