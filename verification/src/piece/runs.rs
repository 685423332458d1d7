//! What holds over any sequence of operations on a download.
use vstd::prelude::*;

use crate::bitfield;
use crate::peer::BLOCK_SIZE;
use crate::piece::laws;
use crate::piece::model;
use crate::piece::model::Download;
use crate::piece::BlockRequest;

verus! {

/// An operation on a download, with what it was given and what came back.
pub enum Operation {
    Next { bits: Seq<u8>, peer: u32, next: Option<BlockRequest> },
    Receive { index: int, begin: u32, data: Seq<u8> },
    Complete { index: int, length: u64 },
    Discard { index: int },
    Cancel { peer: u32 },
    Restore { index: int, data: Option<Seq<u8>> },
    Resume { reads: Seq<Option<Seq<u8>>> },
}

/// Whether an operation turns `d` into `after`.
pub open spec fn turns(d: Download, op: Operation, after: Download) -> bool {
    match op {
        Operation::Next { bits, peer, next } => model::next_is(d, bits, peer, next, after),
        Operation::Receive { index, begin, data } => 0 <= index < d.total_pieces && after
            == model::received(d, index, begin, data).0,
        Operation::Complete { index, length } => 0 <= index < d.total_pieces && after
            == model::completed(d, index, length),
        Operation::Discard { index } => 0 <= index && after == model::discarded(d, index),
        Operation::Cancel { peer } => after == model::cancelled(d, peer),
        Operation::Restore { index, data } => 0 <= index < d.total_pieces && after
            == model::restored(d, index, data),
        Operation::Resume { reads } => after == model::resumed(d, reads),
    }
}

/// Whether the operations turn each state into the next one.
pub open spec fn run(states: Seq<Download>, ops: Seq<Operation>) -> bool {
    &&& states.len() == ops.len() + 1
    &&& model::valid(states[0])
    &&& forall|k: int|
        0 <= k < ops.len() ==> turns(states[k], #[trigger] ops[k], states[k + 1])
}

/// Whether the block that begins at `begin` is not to be asked for: it was asked
/// for, it came in, or its piece is complete.
pub open spec fn taken(d: Download, i: int, begin: u32) -> bool {
    ||| d.have[i]
    ||| d.blocks[i].pending.contains_key(begin)
    ||| d.blocks[i].received.contains(begin)
}

/// Whether the block is not to be asked for, and not because another peer than
/// `peer` was asked for it.
pub open spec fn taken_by(d: Download, i: int, begin: u32, peer: u32) -> bool {
    ||| d.have[i]
    ||| d.blocks[i].pending.contains_key(begin) && d.blocks[i].pending[begin] == peer
    ||| d.blocks[i].received.contains(begin)
}

/// Whether an operation drops the piece, or takes back what `peer` was asked for.
pub open spec fn frees(op: Operation, i: int, peer: u32) -> bool {
    op == (Operation::Discard { index: i }) || op == (Operation::Cancel { peer })
}

/// A block that is not to be asked for stays so under every operation but dropping
/// its piece and taking back what the peer was asked for that was asked for it.
pub proof fn law_block_stays_taken(
    d: Download,
    op: Operation,
    after: Download,
    i: int,
    begin: u32,
    peer: u32,
)
    requires
        model::valid(d),
        turns(d, op, after),
        0 <= i < d.total_pieces,
        taken_by(d, i, begin, peer),
        !frees(op, i, peer),
    ensures
        model::valid(after),
        after.total_pieces == d.total_pieces,
        taken_by(after, i, begin, peer),
        taken(after, i, begin),
{
}

/// What is asked for was not taken, and then is.
pub proof fn law_request_takes_block(
    d: Download,
    bits: Seq<u8>,
    peer: u32,
    r: BlockRequest,
    after: Download,
)
    requires
        model::valid(d),
        model::next_is(d, bits, peer, Some(r), after),
    ensures
        model::valid(after),
        after.total_pieces == d.total_pieces,
        r.piece_index < d.total_pieces,
        !taken(d, r.piece_index as int, r.begin),
        taken_by(after, r.piece_index as int, r.begin, peer),
{
}

/// Whether an operation asked for a block.
pub open spec fn hands_out(op: Operation, r: BlockRequest) -> bool {
    op matches Operation::Next { next: Some(q), .. } && q == r
}

/// A block is handed out once: between two requests for it, whatever else was
/// done, its piece was dropped, or what the first peer was asked for was taken
/// back.
pub proof fn law_block_handed_out_once(
    states: Seq<Download>,
    ops: Seq<Operation>,
    first: int,
    second: int,
    r: BlockRequest,
    q: BlockRequest,
)
    requires
        run(states, ops),
        0 <= first < second < ops.len(),
        hands_out(ops[first], r),
        hands_out(ops[second], q),
        forall|k: int|
            first < k < second ==> !frees(
                #[trigger] ops[k],
                r.piece_index as int,
                ops[first]->Next_peer,
            ),
    ensures
        (q.piece_index, q.begin) != (r.piece_index, r.begin),
{
    lemma_states_valid(states, ops, first);
    assert(turns(states[first], ops[first], states[first + 1]));
    let (bits, peer) = (ops[first]->Next_bits, ops[first]->Next_peer);
    law_request_takes_block(states[first], bits, peer, r, states[first + 1]);
    lemma_stays_taken(states, ops, first, second, r, peer);
    assert(turns(states[second], ops[second], states[second + 1]));
    law_request_takes_block(
        states[second],
        ops[second]->Next_bits,
        ops[second]->Next_peer,
        q,
        states[second + 1],
    );
}

proof fn lemma_states_valid(states: Seq<Download>, ops: Seq<Operation>, n: int)
    requires
        run(states, ops),
        0 <= n <= ops.len(),
    ensures
        model::valid(states[n]),
    decreases n,
{
    if n > 0 {
        lemma_states_valid(states, ops, n - 1);
        assert(turns(states[n - 1], ops[n - 1], states[n]));
    }
}

proof fn lemma_stays_taken(
    states: Seq<Download>,
    ops: Seq<Operation>,
    first: int,
    n: int,
    r: BlockRequest,
    peer: u32,
)
    requires
        run(states, ops),
        0 <= first < n < ops.len(),
        model::valid(states[first + 1]),
        r.piece_index < states[first + 1].total_pieces,
        taken_by(states[first + 1], r.piece_index as int, r.begin, peer),
        forall|k: int|
            first < k < n ==> !frees(#[trigger] ops[k], r.piece_index as int, peer),
    ensures
        model::valid(states[n]),
        r.piece_index < states[n].total_pieces,
        taken_by(states[n], r.piece_index as int, r.begin, peer),
    decreases n,
{
    if n > first + 1 {
        lemma_stays_taken(states, ops, first, n - 1, r, peer);
        assert(turns(states[n - 1], ops[n - 1], states[n]));
        law_block_stays_taken(
            states[n - 1],
            ops[n - 1],
            states[n],
            r.piece_index as int,
            r.begin,
            peer,
        );
    }
}

/// The sum of the values for the first numbers.
pub open spec fn sum(f: spec_fn(int) -> int, n: int) -> int
    decreases n,
{
    if n <= 0 {
        0
    } else {
        sum(f, n - 1) + f(n - 1)
    }
}

proof fn lemma_sum_same(f: spec_fn(int) -> int, g: spec_fn(int) -> int, n: int)
    requires
        forall|i: int| 0 <= i < n ==> #[trigger] f(i) == g(i),
    ensures
        sum(f, n) == sum(g, n),
    decreases n,
{
    if n > 0 {
        lemma_sum_same(f, g, n - 1);
        assert(f(n - 1) == g(n - 1));
    }
}

proof fn lemma_sum_one_more(
    f: spec_fn(int) -> int,
    g: spec_fn(int) -> int,
    n: int,
    j: int,
    more: int,
)
    requires
        0 <= j < n,
        forall|i: int| 0 <= i < n && i != j ==> #[trigger] f(i) == g(i),
        g(j) == f(j) + more,
    ensures
        sum(g, n) == sum(f, n) + more,
    decreases n,
{
    if j == n - 1 {
        lemma_sum_same(f, g, n - 1);
    } else {
        lemma_sum_one_more(f, g, n - 1, j, more);
        assert(f(n - 1) == g(n - 1));
    }
}

/// The number of blocks of the piece numbered `i`.
pub open spec fn blocks_of(d: Download, i: int) -> int {
    model::block_count(model::piece_len(d, i) as int)
}

/// The number of blocks of the piece numbered `i` that are asked for.
spec fn begun(d: Download, i: int) -> int {
    d.blocks[i].active.len() as int
}

/// The numbers of blocks of the pieces.
pub open spec fn block_counts(d: Download) -> spec_fn(int) -> int {
    |i: int| blocks_of(d, i)
}

/// The lengths of the pieces.
pub open spec fn piece_lengths(d: Download) -> spec_fn(int) -> int {
    |i: int| model::piece_len(d, i) as int
}

/// The lengths of the requests.
pub open spec fn request_lengths(requests: Seq<BlockRequest>) -> spec_fn(int) -> int {
    |k: int| requests[k].length as int
}

/// The numbers of blocks of the pieces that are asked for.
spec fn counts(d: Download) -> spec_fn(int) -> int {
    |i: int| begun(d, i)
}

/// How much of the pieces is asked for.
spec fn reaches(d: Download) -> spec_fn(int) -> int {
    |i: int| reach(d, i)
}

/// How much of the piece numbered `i` is asked for.
spec fn reach(d: Download, i: int) -> int {
    let len = model::piece_len(d, i) as int;
    if begun(d, i) * BLOCK_SIZE < len {
        begun(d, i) * BLOCK_SIZE
    } else {
        len
    }
}

/// Whether the blocks of the piece numbered `i` that are asked for are its first
/// ones, and none came in.
spec fn in_order(d: Download, i: int) -> bool {
    &&& !d.have[i]
    &&& d.blocks[i].received == Set::<u32>::empty()
    &&& d.blocks[i].active.finite()
    &&& d.blocks[i].active == d.blocks[i].pending.dom()
    &&& begun(d, i) <= blocks_of(d, i)
    &&& forall|b: int|
        0 <= b < blocks_of(d, i) ==> (#[trigger] d.blocks[i].active.contains(
            model::block_begin(b),
        ) <==> b < begun(d, i))
}

/// Whether a download has the pieces of another, all of them asked for in order.
spec fn asked_in_order(f: Download, d: Download) -> bool {
    &&& model::valid(d)
    &&& d.total_pieces == f.total_pieces
    &&& d.piece_length == f.piece_length
    &&& d.last_piece_length == f.last_piece_length
    &&& d.total_length == f.total_length
    &&& forall|i: int| 0 <= i < d.total_pieces ==> #[trigger] in_order(d, i)
    &&& forall|i: int| 0 <= i < d.total_pieces ==> #[trigger] model::piece_len(d, i) <= u32::MAX
}

/// A request is for the next block of its piece.
proof fn lemma_next_in_order(
    f: Download,
    d: Download,
    bits: Seq<u8>,
    peer: u32,
    r: BlockRequest,
    after: Download,
)
    requires
        asked_in_order(f, d),
        model::next_is(d, bits, peer, Some(r), after),
    ensures
        r.piece_index < d.total_pieces,
        begun(d, r.piece_index as int) < blocks_of(d, r.piece_index as int),
        r == model::block_request(d, r.piece_index as int, begun(d, r.piece_index as int)),
        asked_in_order(f, after),
        forall|i: int|
            0 <= i < d.total_pieces ==> #[trigger] begun(after, i) == begun(d, i) + if i
                == r.piece_index {
                1int
            } else {
                0
            },
{
    broadcast use vstd::set::group_set_axioms;

    let i = r.piece_index as int;
    let b = (r.begin / BLOCK_SIZE) as int;
    let c = begun(d, i);
    assert(in_order(d, i));
    assert(model::open_block(d, i, b));
    assert(!d.blocks[i].active.contains(model::block_begin(b)));
    assert(b >= c);
    if b > c {
        assert(!model::open_block(d, i, c));
        assert(!d.blocks[i].active.contains(model::block_begin(c)));
    }
    assert(b == c);
    let was = d.blocks[i];
    let now = after.blocks[i];
    assert(now.active == was.active.insert(r.begin));
    assert(now.pending.dom() =~= was.pending.dom().insert(r.begin));
    assert(begun(after, i) == c + 1);
    assert forall|e: int| 0 <= e < blocks_of(after, i) implies (
    #[trigger] now.active.contains(model::block_begin(e)) <==> e < begun(after, i)) by {
        assert(model::block_begin(e) == e * BLOCK_SIZE);
        assert(model::block_begin(c) == c * BLOCK_SIZE);
        assert(was.active.contains(model::block_begin(e)) <==> e < c);
    }
    assert(in_order(after, i));
    assert forall|j: int| 0 <= j < after.total_pieces implies #[trigger] in_order(after, j) by {
        if j != i {
            assert(in_order(d, j));
            assert(after.blocks[j] == d.blocks[j]);
        }
    }
    assert forall|j: int| 0 <= j < after.total_pieces implies #[trigger] model::piece_len(after, j)
        <= u32::MAX by {
        assert(model::piece_len(d, j) <= u32::MAX);
    }
}

/// Where a piece may be asked for, one of them is the one to ask for.
proof fn lemma_some_chosen(d: Download, bits: Seq<u8>, i: int, n: int) -> (p: int)
    requires
        model::eligible(d, bits, i),
        0 <= n <= d.total_pieces,
    ensures
        model::eligible(d, bits, p),
        forall|j: int|
            j < n && #[trigger] model::eligible(d, bits, j) ==> model::comes_before(d, p, j),
    decreases n,
{
    if n == 0 {
        i
    } else {
        let p = lemma_some_chosen(d, bits, i, n - 1);
        if model::eligible(d, bits, n - 1) && !model::comes_before(d, p, n - 1) {
            n - 1
        } else {
            p
        }
    }
}

/// Where nothing is asked for any more of a peer that has everything, every block
/// is asked for.
proof fn lemma_none_left(f: Download, d: Download, bits: Seq<u8>, peer: u32, after: Download, i: int)
    requires
        asked_in_order(f, d),
        model::next_is(d, bits, peer, None, after),
        forall|j: int|
            0 <= j < d.total_pieces ==> #[trigger] bitfield::has_bit(bits, j as u32),
        0 <= i < d.total_pieces,
    ensures
        begun(d, i) == blocks_of(d, i),
{
    assert(in_order(d, i));
    if begun(d, i) < blocks_of(d, i) {
        assert(bitfield::has_bit(bits, i as u32));
        assert(model::eligible(d, bits, i));
        let p = lemma_some_chosen(d, bits, i, d.total_pieces as int);
        assert(model::chosen(d, bits, p));
        assert(in_order(d, p));
        let b = begun(d, p);
        assert(!d.blocks[p].active.contains(model::block_begin(b)));
        assert(model::open_block(d, p, b));
    }
}

/// Whether there is a byte at `pos` of the piece numbered `i`.
pub open spec fn in_piece(d: Download, i: int, pos: int) -> bool {
    0 <= i < d.total_pieces && 0 <= pos < model::piece_len(d, i)
}

/// Whether a request asks for a byte of a piece.
pub open spec fn covers(r: BlockRequest, i: int, pos: int) -> bool {
    r.piece_index == i && r.begin <= pos < r.begin + r.length
}

/// Whether a download was asked what to ask for next until there was nothing,
/// every time for a peer that has all pieces: `requests` came back, and then
/// nothing more.
pub open spec fn drained(
    states: Seq<Download>,
    bits: Seq<Seq<u8>>,
    peers: Seq<u32>,
    requests: Seq<BlockRequest>,
    after: Download,
) -> bool {
    let n = requests.len() as int;
    &&& states.len() == n + 1
    &&& forall|k: int, j: int|
        #![trigger bitfield::has_bit(bits[k], j as u32)]
        0 <= k <= n && 0 <= j < states[0].total_pieces ==> bitfield::has_bit(bits[k], j as u32)
    &&& forall|k: int|
        0 <= k < n ==> model::next_is(
            #[trigger] states[k],
            bits[k],
            peers[k],
            Some(requests[k]),
            states[k + 1],
        )
    &&& model::next_is(states[n], bits[n], peers[n], None, after)
}

/// Whether the first `n` requests are those that the state after them stands for.
spec fn accounted_for(
    f: Download,
    states: Seq<Download>,
    requests: Seq<BlockRequest>,
    n: int,
) -> bool {
    let d = states[n];
    let total = f.total_pieces as int;
    &&& asked_in_order(f, d)
    &&& n == sum(counts(d), total)
    &&& sum(request_lengths(requests), n) == sum(reaches(d), total)
    &&& forall|k: int|
        0 <= k < n ==> {
            let r = #[trigger] requests[k];
            &&& r.piece_index < total
            &&& 0 <= r.begin / BLOCK_SIZE < begun(d, r.piece_index as int)
            &&& r == model::block_request(f, r.piece_index as int, (r.begin / BLOCK_SIZE) as int)
        }
    &&& forall|i: int, b: int|
        #![trigger model::block_request(f, i, b)]
        0 <= i < total && 0 <= b < begun(d, i) ==> exists|k: int|
            0 <= k < n && #[trigger] requests[k] == model::block_request(f, i, b)
    &&& forall|k: int, l: int|
        0 <= k < l < n ==> {
            let (r, q) = (#[trigger] requests[k], #[trigger] requests[l]);
            (r.piece_index, r.begin) != (q.piece_index, q.begin)
        }
}

proof fn lemma_accounted_for(
    f: Download,
    states: Seq<Download>,
    bits: Seq<Seq<u8>>,
    peers: Seq<u32>,
    requests: Seq<BlockRequest>,
    after: Download,
    n: int,
)
    requires
        drained(states, bits, peers, requests, after),
        states[0] == f,
        asked_in_order(f, f),
        forall|i: int| 0 <= i < f.total_pieces ==> #[trigger] begun(f, i) == 0,
        0 <= n <= requests.len(),
    ensures
        accounted_for(f, states, requests, n),
    decreases n,
{
    let total = f.total_pieces as int;
    if n == 0 {
        lemma_sum_zero(counts(f), total);
        assert forall|i: int| 0 <= i < total implies #[trigger] reaches(f)(i) == 0 by {
            assert(begun(f, i) == 0);
        }
        lemma_sum_zero(reaches(f), total);
        assert(accounted_for(f, states, requests, 0));
    } else {
        lemma_accounted_for(f, states, bits, peers, requests, after, n - 1);
        let d = states[n - 1];
        let e = states[n];
        let r = requests[n - 1];
        let p = r.piece_index as int;
        assert(model::next_is(d, bits[n - 1], peers[n - 1], Some(requests[n - 1]), e));
        lemma_next_in_order(f, d, bits[n - 1], peers[n - 1], r, e);
        lemma_one_more_accounted(f, states, requests, n);
    }
}

proof fn lemma_sum_zero(f: spec_fn(int) -> int, n: int)
    requires
        forall|i: int| 0 <= i < n ==> #[trigger] f(i) == 0,
    ensures
        sum(f, n) == 0,
    decreases n,
{
    if n > 0 {
        lemma_sum_zero(f, n - 1);
        assert(f(n - 1) == 0);
    }
}

proof fn lemma_one_more_accounted(
    f: Download,
    states: Seq<Download>,
    requests: Seq<BlockRequest>,
    n: int,
)
    requires
        0 < n <= requests.len(),
        accounted_for(f, states, requests, n - 1),
        asked_in_order(f, states[n]),
        ({
            let d = states[n - 1];
            let r = requests[n - 1];
            let p = r.piece_index as int;
            &&& p < d.total_pieces
            &&& begun(d, p) < blocks_of(d, p)
            &&& r == model::block_request(d, p, begun(d, p))
            &&& forall|i: int|
                0 <= i < d.total_pieces ==> #[trigger] begun(states[n], i) == begun(d, i) + if i
                    == p {
                    1int
                } else {
                    0
                }
        }),
    ensures
        accounted_for(f, states, requests, n),
{
    let d = states[n - 1];
    let e = states[n];
    let r = requests[n - 1];
    let p = r.piece_index as int;
    let total = f.total_pieces as int;
    let b = begun(d, p);
    let len = model::piece_len(d, p) as int;
    laws::law_block_fits(len, b);
    assert(model::piece_len(d, p) <= u32::MAX);
    assert(r.begin == b * BLOCK_SIZE);
    assert(r.begin / BLOCK_SIZE == b);
    assert(begun(e, p) == b + 1);
    lemma_sum_one_more(counts(d), counts(e), total, p, 1);
    assert(reach(e, p) == reach(d, p) + r.length);
    assert forall|i: int| 0 <= i < total && i != p implies #[trigger] reaches(d)(i)
        == reaches(e)(i) by {
        assert(begun(e, i) == begun(d, i));
    }
    lemma_sum_one_more(
        reaches(d),
        reaches(e),
        total,
        p,
        r.length as int,
    );
    assert forall|i: int, c: int|
        #![trigger model::block_request(f, i, c)]
        0 <= i < total && 0 <= c < begun(e, i) implies exists|k: int|
        0 <= k < n && #[trigger] requests[k] == model::block_request(f, i, c) by {
        if i == p && c == b {
            assert(requests[n - 1] == model::block_request(f, i, c));
        } else {
            assert(c < begun(d, i)) by {
                assert(begun(e, i) == begun(d, i) + if i == p {
                    1int
                } else {
                    0
                });
            }
            let k = choose|k: int|
                0 <= k < n - 1 && #[trigger] requests[k] == model::block_request(f, i, c);
            assert(requests[k] == model::block_request(f, i, c));
        }
    }
    assert forall|k: int| 0 <= k < n implies {
        let q = #[trigger] requests[k];
        &&& q.piece_index < total
        &&& 0 <= q.begin / BLOCK_SIZE < begun(e, q.piece_index as int)
        &&& q == model::block_request(f, q.piece_index as int, (q.begin / BLOCK_SIZE) as int)
    } by {
        if k < n - 1 {
            let q = requests[k];
            assert(begun(e, q.piece_index as int) >= begun(d, q.piece_index as int));
        }
    }
}

/// All lengths of pieces together.
pub open spec fn all_lengths(d: Download) -> int {
    sum(piece_lengths(d), d.total_pieces as int)
}

proof fn lemma_equal_lengths(d: Download, n: int)
    requires
        0 <= n,
        forall|i: int| 0 <= i < n ==> #[trigger] model::piece_len(d, i) == d.piece_length,
    ensures
        sum(piece_lengths(d), n) == n * d.piece_length,
    decreases n,
{
    if n > 0 {
        lemma_equal_lengths(d, n - 1);
        assert(model::piece_len(d, n - 1) == d.piece_length);
        assert(n * d.piece_length == (n - 1) * d.piece_length + d.piece_length)
            by (nonlinear_arith);
    } else {
        assert(n * d.piece_length == 0) by (nonlinear_arith)
            requires
                n == 0,
        ;
    }
}

/// The lengths of the pieces add up to that of the content.
pub proof fn law_lengths_add_up(piece_length: u64, total_length: u64, hashes: Seq<Seq<u8>>)
    requires
        piece_length > 0,
        hashes.len() < 0x1_0000_0000,
        hashes.len() == (total_length + piece_length - 1) / (piece_length as int),
    ensures
        model::fresh(piece_length, total_length, hashes).total_pieces == hashes.len(),
        all_lengths(model::fresh(piece_length, total_length, hashes)) == total_length,
{
    let n = hashes.len() as int;
    let f = model::fresh(piece_length, total_length, hashes);
    let (t, p) = (total_length as int, piece_length as int);
    vstd::arithmetic::div_mod::lemma_fundamental_div_mod(t + p - 1, p);
    assert(p * n == n * p) by (nonlinear_arith);
    assert(0 <= (t + p - 1) % p < p) by (nonlinear_arith)
        requires
            p > 0,
    ;
    assert((n - 1) * p == n * p - p) by (nonlinear_arith);
    if n == 0 {
        assert(0 * p == 0);
        assert(t == 0);
    } else {
        assert(t > 0) by {
            if t == 0 {
                vstd::arithmetic::div_mod::lemma_basic_div(p - 1, p);
            }
        }
        laws::law_pieces_fill_content(piece_length, total_length, hashes);
        lemma_equal_lengths(f, n - 1);
    }
}

/// Asking until nothing comes back asks for every byte of the content once: the
/// requests of each piece are disjoint and cover it, there is one for each block,
/// and together they are as long as the content.
pub proof fn law_requests_tile_content(
    piece_length: u64,
    total_length: u64,
    hashes: Seq<Seq<u8>>,
    states: Seq<Download>,
    bits: Seq<Seq<u8>>,
    peers: Seq<u32>,
    requests: Seq<BlockRequest>,
    after: Download,
)
    requires
        0 < piece_length <= u32::MAX,
        hashes.len() < 0x1_0000_0000,
        hashes.len() == (total_length + piece_length - 1) / (piece_length as int),
        states.len() > 0,
        states[0] == model::fresh(piece_length, total_length, hashes),
        drained(states, bits, peers, requests, after),
    ensures
        ({
            let f = model::fresh(piece_length, total_length, hashes);
            &&& requests.len() == sum(block_counts(f), f.total_pieces as int)
            &&& sum(request_lengths(requests), requests.len() as int) == total_length
            &&& forall|i: int, pos: int| #[trigger]
                in_piece(f, i, pos) ==> exists|k: int|
                    0 <= k < requests.len() && #[trigger] covers(requests[k], i, pos)
            &&& forall|k: int, l: int, i: int, pos: int|
                0 <= k < l < requests.len() && #[trigger] covers(requests[k], i, pos)
                    ==> !#[trigger] covers(requests[l], i, pos)
        }),
{
    let f = model::fresh(piece_length, total_length, hashes);
    let n = requests.len() as int;
    let total = f.total_pieces as int;
    law_lengths_add_up(piece_length, total_length, hashes);
    lemma_fresh_in_order(piece_length, total_length, hashes);
    lemma_accounted_for(f, states, bits, peers, requests, after, n);
    let d = states[n];
    assert forall|i: int| 0 <= i < total implies #[trigger] begun(d, i) == blocks_of(f, i)
        && reach(d, i) == model::piece_len(f, i) by {
        assert forall|j: int| 0 <= j < d.total_pieces implies #[trigger] bitfield::has_bit(
            bits[n],
            j as u32,
        ) by {}
        lemma_none_left(f, d, bits[n], peers[n], after, i);
    }
    lemma_sum_same(counts(d), block_counts(f), total);
    assert forall|i: int| 0 <= i < total implies #[trigger] reaches(d)(i)
        == piece_lengths(f)(i) by {
        assert(begun(d, i) == blocks_of(f, i));
    }
    lemma_sum_same(reaches(d), piece_lengths(f), total);
    assert forall|i: int, pos: int| #[trigger] in_piece(f, i, pos) implies exists|k: int|
        0 <= k < requests.len() && #[trigger] covers(requests[k], i, pos) by {
        let len = model::piece_len(f, i) as int;
        let b = pos / (BLOCK_SIZE as int);
        laws::law_blocks_cover_piece(len, pos, b);
        assert(model::piece_len(f, i) <= u32::MAX);
        assert(begun(d, i) == blocks_of(f, i));
        let r = model::block_request(f, i, b);
        let k = choose|k: int| 0 <= k < n && #[trigger] requests[k] == r;
        assert(covers(requests[k], i, pos));
    }
    assert forall|k: int, l: int, i: int, pos: int|
        0 <= k < l < requests.len() && #[trigger] covers(
            requests[k],
            i,
            pos,
        ) implies !#[trigger] covers(requests[l], i, pos) by {
        let (r, q) = (requests[k], requests[l]);
        if covers(q, i, pos) {
            let len = model::piece_len(f, i) as int;
            let (a, b) = ((r.begin / BLOCK_SIZE) as int, (q.begin / BLOCK_SIZE) as int);
            assert(model::piece_len(f, i) <= u32::MAX);
            assert(begun(d, i) == blocks_of(f, i));
            laws::law_block_fits(len, a);
            laws::law_block_fits(len, b);
            laws::law_blocks_cover_piece(len, pos, a);
            laws::law_blocks_cover_piece(len, pos, b);
        }
    }
}

proof fn lemma_fresh_in_order(piece_length: u64, total_length: u64, hashes: Seq<Seq<u8>>)
    requires
        0 < piece_length <= u32::MAX,
    ensures
        ({
            let f = model::fresh(piece_length, total_length, hashes);
            &&& asked_in_order(f, f)
            &&& forall|i: int| 0 <= i < f.total_pieces ==> #[trigger] begun(f, i) == 0
        }),
{
    let f = model::fresh(piece_length, total_length, hashes);
    assert(model::no_blocks().active =~= model::no_blocks().pending.dom());
    assert forall|i: int| 0 <= i < f.total_pieces implies #[trigger] model::piece_len(f, i)
        <= u32::MAX by {
        assert(total_length % piece_length < piece_length);
    }
    assert forall|i: int| 0 <= i < f.total_pieces implies #[trigger] in_order(f, i) by {
        assert(f.blocks[i] == model::no_blocks());
        assert(model::piece_len(f, i) <= u32::MAX);
    }
}

} // verus!
