//! How the helper's records are laid out, and what is made of them.

use vstd::prelude::*;

use crate::text;

use super::egl;
use super::protocol;
use super::protocol::{
    ByteOrder, KmsDmaBuf, KmsRequest, KmsResponse, KmsResponseItem, ReceiveError,
};
use super::{ConnectorEntry, RenderEntry};

verus! {

/// The value of the first `n` bytes from an offset on, the first being the lowest.
pub open spec fn rising(bytes: Seq<u8>, at: int, n: nat) -> int
    decreases n,
{
    if n == 0 {
        0
    } else {
        bytes[at] + 0x100 * rising(bytes, at + 1, (n - 1) as nat)
    }
}

/// The value of the first `n` bytes from an offset on, the first being the highest.
pub open spec fn falling(bytes: Seq<u8>, at: int, n: nat) -> int
    decreases n,
{
    if n == 0 {
        0
    } else {
        0x100 * falling(bytes, at, (n - 1) as nat) + bytes[at + n - 1]
    }
}

/// Words and double words are read by the place of their bytes: every byte counts 256 times as
/// much as the one below it, and the lowest is the first or the last.
pub proof fn numbers_are_read_by_place(bytes: Seq<u8>, at: int)
    requires
        0 <= at,
    ensures
        at + 4 <= bytes.len() ==> protocol::word_at(ByteOrder::Little, bytes, at) == rising(
            bytes,
            at,
            4,
        ),
        at + 4 <= bytes.len() ==> protocol::word_at(ByteOrder::Big, bytes, at) == falling(
            bytes,
            at,
            4,
        ),
        at + 8 <= bytes.len() ==> protocol::long_at(ByteOrder::Little, bytes, at) == rising(
            bytes,
            at,
            8,
        ),
        at + 8 <= bytes.len() ==> protocol::long_at(ByteOrder::Big, bytes, at) == falling(
            bytes,
            at,
            8,
        ),
{
    reveal_with_fuel(rising, 9);
    reveal_with_fuel(falling, 9);
}

/// Words are written by place too.
pub proof fn words_are_written_by_place(n: u32)
    ensures
        protocol::word_bytes(ByteOrder::Little, n).len() == 4,
        rising(protocol::word_bytes(ByteOrder::Little, n), 0, 4) == n,
        protocol::word_bytes(ByteOrder::Big, n).len() == 4,
        falling(protocol::word_bytes(ByteOrder::Big, n), 0, 4) == n,
{
    reveal_with_fuel(rising, 5);
    reveal_with_fuel(falling, 5);
}

/// What was not received counts as zero.
pub proof fn missing_bytes_are_zero(bytes: Seq<u8>, at: int)
    requires
        at >= bytes.len(),
    ensures
        protocol::byte_at(bytes, at) == 0,
        protocol::word_at(ByteOrder::Little, bytes, at) == 0,
        protocol::word_at(ByteOrder::Big, bytes, at) == 0,
{
}

/// A request is its version, its type and its descriptor, a word each.
pub proof fn requests_hold_three_words(order: ByteOrder, r: KmsRequest)
    ensures
        ({
            let bytes = protocol::request_bytes(order, r);
            &&& bytes.len() == 12
            &&& protocol::word_at(order, bytes, 0) == r.version
            &&& protocol::word_at(order, bytes, 4) == r.type_ as u32
            &&& protocol::word_at(order, bytes, 8) == r.new_connection_fd as u32
        }),
{
    let bytes = protocol::request_bytes(order, r);
    let a = protocol::word_bytes(order, r.version);
    let b = protocol::word_bytes(order, r.type_ as u32);
    let c = protocol::word_bytes(order, r.new_connection_fd as u32);
    let none = Seq::<u8>::empty();
    protocol::words_read_back(order, none, r.version, b + c);
    protocol::words_read_back(order, a, r.type_ as u32, c);
    protocol::words_read_back(order, a + b, r.new_connection_fd as u32, none);
    assert(bytes =~= none + a + (b + c));
    assert(bytes =~= a + b + c);
    assert(bytes =~= (a + b) + c + none);
}

/// The words of a sequence, one after the other.
pub open spec fn words(order: ByteOrder, ns: Seq<u32>) -> Seq<u8>
    decreases ns.len(),
{
    if ns.len() == 0 {
        Seq::empty()
    } else {
        words(order, ns.drop_last()) + protocol::word_bytes(order, ns.last())
    }
}

/// The words of a sequence are read back one after the other.
proof fn lemma_words(order: ByteOrder, before: Seq<u8>, ns: Seq<u32>, after: Seq<u8>, i: int)
    requires
        0 <= i < ns.len(),
    ensures
        words(order, ns).len() == 4 * ns.len(),
        protocol::word_at(order, before + words(order, ns) + after, before.len() + 4 * i) == ns[i],
    decreases ns.len(),
{
    let rest = ns.drop_last();
    let last = protocol::word_bytes(order, ns.last());
    let all = before + words(order, ns) + after;
    assert(words(order, ns) =~= words(order, rest) + last);
    if rest.len() > 0 {
        lemma_words(order, before, rest, last + after, if i < rest.len() { i } else { 0 });
        assert(all =~= before + words(order, rest) + (last + after));
    }
    if i == rest.len() {
        protocol::words_read_back(order, before + words(order, rest), ns.last(), after);
        assert(all =~= (before + words(order, rest)) + last + after);
    }
}

/// A double word as two words, in the byte order's own order.
pub open spec fn halves(order: ByteOrder, n: u64) -> Seq<u32> {
    let low = (n % 0x1_0000_0000) as u32;
    let high = (n / 0x1_0000_0000) as u32;
    match order {
        ByteOrder::Little => seq![low, high],
        ByteOrder::Big => seq![high, low],
    }
}

/// A dma-buf's words: its descriptor, the bytes of a row, and its offset.
pub open spec fn dma_buf_words(d: KmsDmaBuf) -> Seq<u32> {
    seq![d.fd as u32, d.pitch, d.offset]
}

/// The words of a plane that stand before its flags.
#[verifier::opaque]
pub open spec fn head_words(order: ByteOrder, it: KmsResponseItem) -> Seq<u32> {
    dma_buf_words(it.dma_buf@[0]) + dma_buf_words(it.dma_buf@[1]) + dma_buf_words(it.dma_buf@[2])
        + dma_buf_words(it.dma_buf@[3]) + seq![
        it.num_dma_bufs as u32,
        it.width,
        it.height,
        it.pixel_format,
    ] + halves(order, it.modifier) + seq![it.connector_id]
}

/// The words of a plane that stand behind its flags.
#[verifier::opaque]
pub open spec fn tail_words(it: KmsResponseItem) -> Seq<u32> {
    seq![it.rotation as u32, it.x as u32, it.y as u32, it.src_w as u32, it.src_h as u32]
}

/// A plane in C layout: its four dma-bufs, how many of them count, its size, format, modifier and
/// connector, two flags and two bytes of padding, its rotation, place and source size, the HDR
/// metadata, and padding up to a multiple of eight.
#[verifier::opaque]
pub open spec fn item_bytes(
    order: ByteOrder,
    it: KmsResponseItem,
    gap: Seq<u8>,
    end: Seq<u8>,
) -> Seq<u8> {
    words(order, head_words(order, it)) + seq![it.is_cursor, it.has_hdr_metadata] + gap + words(
        order,
        tail_words(it),
    ) + it.hdr_metadata@ + end
}

/// A signed word keeps its sign on the way through its bytes.
proof fn lemma_signed(x: i32)
    ensures
        (x as u32) as i32 == x,
{
    assert((x as u32) as i32 == x) by (bit_vector);
}

proof fn lemma_lengths(order: ByteOrder, it: KmsResponseItem)
    ensures
        head_words(order, it).len() == 19,
        tail_words(it).len() == 5,
        words(order, head_words(order, it)).len() == 76,
        words(order, tail_words(it)).len() == 20,
{
    reveal(head_words);
    reveal(tail_words);
    lemma_words(order, Seq::empty(), head_words(order, it), Seq::empty(), 0);
    lemma_words(order, Seq::empty(), tail_words(it), Seq::empty(), 0);
}

#[verifier::rlimit(40)]
proof fn lemma_layout_head(
    order: ByteOrder,
    it: KmsResponseItem,
    gap: Seq<u8>,
    end: Seq<u8>,
    before: Seq<u8>,
    after: Seq<u8>,
)
    requires
        gap.len() == 2,
        end.len() == 4,
    ensures
        item_bytes(order, it, gap, end).len() == 136,
        ({
            let all = before + item_bytes(order, it, gap, end) + after;
            forall|i: int|
                0 <= i < 19 ==> protocol::word_at(order, all, before.len() + 4 * i)
                    == #[trigger] head_words(order, it)[i]
        }),
{
    let head = words(order, head_words(order, it));
    let all = before + item_bytes(order, it, gap, end) + after;
    let rest = seq![it.is_cursor, it.has_hdr_metadata] + gap + words(order, tail_words(it))
        + it.hdr_metadata@ + end + after;
    lemma_lengths(order, it);
    reveal(item_bytes);
    assert(all =~= before + head + rest);
    assert forall|i: int| 0 <= i < 19 implies protocol::word_at(order, all, before.len() + 4 * i)
        == #[trigger] head_words(order, it)[i] by {
        lemma_words(order, before, head_words(order, it), rest, i);
    }
}

#[verifier::rlimit(40)]
proof fn lemma_layout_tail(
    order: ByteOrder,
    it: KmsResponseItem,
    gap: Seq<u8>,
    end: Seq<u8>,
    before: Seq<u8>,
    after: Seq<u8>,
)
    requires
        gap.len() == 2,
        end.len() == 4,
    ensures
        ({
            let all = before + item_bytes(order, it, gap, end) + after;
            forall|i: int|
                0 <= i < 5 ==> protocol::word_at(order, all, before.len() + 80 + 4 * i)
                    == #[trigger] tail_words(it)[i]
        }),
{
    let head = words(order, head_words(order, it));
    let tail = words(order, tail_words(it));
    let all = before + item_bytes(order, it, gap, end) + after;
    let front = before + head + seq![it.is_cursor, it.has_hdr_metadata] + gap;
    let back = it.hdr_metadata@ + end + after;
    lemma_lengths(order, it);
    reveal(item_bytes);
    assert(all =~= front + tail + back);
    assert forall|i: int| 0 <= i < 5 implies protocol::word_at(
        order,
        all,
        before.len() + 80 + 4 * i,
    ) == #[trigger] tail_words(it)[i] by {
        lemma_words(order, front, tail_words(it), back, i);
    }
}

#[verifier::rlimit(40)]
proof fn lemma_layout_bytes(
    order: ByteOrder,
    it: KmsResponseItem,
    gap: Seq<u8>,
    end: Seq<u8>,
    before: Seq<u8>,
    after: Seq<u8>,
)
    requires
        gap.len() == 2,
        end.len() == 4,
    ensures
        ({
            let all = before + item_bytes(order, it, gap, end) + after;
            let at = before.len() as int;
            &&& it.is_cursor == protocol::byte_at(all, at + 76)
            &&& it.has_hdr_metadata == protocol::byte_at(all, at + 77)
            &&& forall|k: int|
                0 <= k < 32 ==> #[trigger] it.hdr_metadata@[k] == protocol::byte_at(
                    all,
                    at + 100 + k,
                )
        }),
{
    let all = before + item_bytes(order, it, gap, end) + after;
    let at = before.len() as int;
    lemma_lengths(order, it);
    reveal(item_bytes);
    assert(all[at + 76] == it.is_cursor);
    assert(all[at + 77] == it.has_hdr_metadata);
    assert forall|k: int| 0 <= k < 32 implies #[trigger] it.hdr_metadata@[k] == protocol::byte_at(
        all,
        at + 100 + k,
    ) by {
        assert(all[at + 100 + k] == it.hdr_metadata@[k]);
    }
}

/// A plane in C layout is read back as it was.
#[verifier::rlimit(40)]
pub proof fn planes_are_read_in_c_layout(
    order: ByteOrder,
    it: KmsResponseItem,
    gap: Seq<u8>,
    end: Seq<u8>,
    before: Seq<u8>,
    after: Seq<u8>,
)
    requires
        gap.len() == 2,
        end.len() == 4,
    ensures
        item_bytes(order, it, gap, end).len() == 136,
        protocol::is_item(
            order,
            it,
            before + item_bytes(order, it, gap, end) + after,
            before.len() as int,
        ),
{
    let all = before + item_bytes(order, it, gap, end) + after;
    lemma_layout_head(order, it, gap, end, before, after);
    lemma_layout_tail(order, it, gap, end, before, after);
    lemma_layout_bytes(order, it, gap, end, before, after);
    lemma_fields(order, it, all, before.len() as int);
}

/// The fields of a plane, from its words.
#[verifier::rlimit(40)]
proof fn lemma_fields(order: ByteOrder, it: KmsResponseItem, all: Seq<u8>, at: int)
    requires
        0 <= at,
        at + 136 <= all.len(),
        forall|i: int|
            0 <= i < 19 ==> protocol::word_at(order, all, at + 4 * i) == #[trigger] head_words(
                order,
                it,
            )[i],
        forall|i: int|
            0 <= i < 5 ==> protocol::word_at(order, all, at + 80 + 4 * i) == #[trigger] tail_words(
                it,
            )[i],
    ensures
        forall|k: int|
            0 <= k < 4 ==> protocol::is_dma_buf(order, #[trigger] it.dma_buf@[k], all, at + 12 * k),
        it.num_dma_bufs == protocol::word_at(order, all, at + 48) as i32,
        it.width == protocol::word_at(order, all, at + 52),
        it.height == protocol::word_at(order, all, at + 56),
        it.pixel_format == protocol::word_at(order, all, at + 60),
        it.modifier == protocol::long_at(order, all, at + 64),
        it.connector_id == protocol::word_at(order, all, at + 72),
        it.rotation == protocol::word_at(order, all, at + 80) as i32,
        it.x == protocol::word_at(order, all, at + 84) as i32,
        it.y == protocol::word_at(order, all, at + 88) as i32,
        it.src_w == protocol::word_at(order, all, at + 92) as i32,
        it.src_h == protocol::word_at(order, all, at + 96) as i32,
{
    let h = head_words(order, it);
    let t = tail_words(it);
    reveal(head_words);
    reveal(tail_words);
    assert forall|k: int| 0 <= k < 4 implies protocol::is_dma_buf(
        order,
        #[trigger] it.dma_buf@[k],
        all,
        at + 12 * k,
    ) by {
        lemma_signed(it.dma_buf@[k].fd);
        assert(h[3 * k] == it.dma_buf@[k].fd as u32);
        assert(h[3 * k + 1] == it.dma_buf@[k].pitch);
        assert(h[3 * k + 2] == it.dma_buf@[k].offset);
    }
    lemma_signed(it.num_dma_bufs);
    assert(h[12] == it.num_dma_bufs as u32);
    assert(h[13] == it.width);
    assert(h[14] == it.height);
    assert(h[15] == it.pixel_format);
    assert(h[16] == halves(order, it.modifier)[0]);
    assert(h[17] == halves(order, it.modifier)[1]);
    assert(h[18] == it.connector_id);
    lemma_signed(it.rotation);
    lemma_signed(it.x);
    lemma_signed(it.y);
    lemma_signed(it.src_w);
    lemma_signed(it.src_h);
    assert(t[0] == it.rotation as u32);
    assert(t[1] == it.x as u32);
    assert(t[2] == it.y as u32);
    assert(t[3] == it.src_w as u32);
    assert(t[4] == it.src_h as u32);
}

/// The planes of an answer, one after the other.
pub open spec fn items_bytes(order: ByteOrder, items: Seq<KmsResponseItem>, gap: Seq<u8>, end: Seq<
    u8,
>) -> Seq<u8>
    decreases items.len(),
{
    if items.len() == 0 {
        Seq::empty()
    } else {
        items_bytes(order, items.drop_last(), gap, end) + item_bytes(order, items.last(), gap, end)
    }
}

/// A plane that is read back as it was.
#[verifier::opaque]
spec fn reads(order: ByteOrder, it: KmsResponseItem, bytes: Seq<u8>, at: int) -> bool {
    protocol::is_item(order, it, bytes, at)
}

proof fn lemma_reads(
    order: ByteOrder,
    it: KmsResponseItem,
    gap: Seq<u8>,
    end: Seq<u8>,
    before: Seq<u8>,
    after: Seq<u8>,
)
    requires
        gap.len() == 2,
        end.len() == 4,
    ensures
        item_bytes(order, it, gap, end).len() == 136,
        reads(order, it, before + item_bytes(order, it, gap, end) + after, before.len() as int),
{
    reveal(reads);
    planes_are_read_in_c_layout(order, it, gap, end, before, after);
}

#[verifier::rlimit(40)]
proof fn lemma_items(
    order: ByteOrder,
    items: Seq<KmsResponseItem>,
    gap: Seq<u8>,
    end: Seq<u8>,
    before: Seq<u8>,
    after: Seq<u8>,
    k: int,
)
    requires
        gap.len() == 2,
        end.len() == 4,
        0 <= k < items.len(),
    ensures
        items_bytes(order, items, gap, end).len() == 136 * items.len(),
        reads(
            order,
            items[k],
            before + items_bytes(order, items, gap, end) + after,
            before.len() + 136 * k,
        ),
    decreases items.len(),
{
    let rest = items.drop_last();
    let first = items_bytes(order, rest, gap, end);
    let last = item_bytes(order, items.last(), gap, end);
    let all = before + items_bytes(order, items, gap, end) + after;
    assert(items_bytes(order, items, gap, end) =~= first + last);
    lemma_reads(order, items.last(), gap, end, before + first, after);
    if rest.len() > 0 {
        lemma_items(
            order,
            rest,
            gap,
            end,
            before,
            last + after,
            if k < rest.len() {
                k
            } else {
                0
            },
        );
        assert(all =~= before + first + (last + after));
    }
    assert(all =~= (before + first) + last + after);
}

/// An answer in C layout: its version and result, 128 bytes of message, eight planes, how many of
/// them count, and padding.
pub open spec fn answer_bytes(order: ByteOrder, r: KmsResponse, gap: Seq<u8>, end: Seq<u8>) -> Seq<
    u8,
> {
    words(order, seq![r.version, r.result as u32]) + r.err_msg@ + items_bytes(
        order,
        r.items@,
        gap,
        end,
    ) + words(order, seq![r.num_items as u32]) + end
}

proof fn lemma_answer_words(order: ByteOrder, r: KmsResponse, planes: Seq<u8>, end: Seq<u8>)
    requires
        planes.len() == 1088,
        end.len() == 4,
    ensures
        ({
            let first = words(order, seq![r.version, r.result as u32]);
            let count = words(order, seq![r.num_items as u32]);
            let bytes = first + r.err_msg@ + planes + count + end;
            &&& first.len() == 8
            &&& count.len() == 4
            &&& bytes.len() == 1232
            &&& r.version == protocol::word_at(order, bytes, 0)
            &&& r.result == protocol::word_at(order, bytes, 4) as i32
            &&& r.num_items == protocol::word_at(order, bytes, 1224) as i32
            &&& forall|k: int|
                0 <= k < 128 ==> #[trigger] r.err_msg@[k] == protocol::byte_at(bytes, 8 + k)
        }),
{
    let first = words(order, seq![r.version, r.result as u32]);
    let count = words(order, seq![r.num_items as u32]);
    let bytes = first + r.err_msg@ + planes + count + end;
    let none = Seq::<u8>::empty();
    let rest = r.err_msg@ + planes + count + end;
    lemma_words(order, none, seq![r.version, r.result as u32], rest, 0);
    lemma_words(order, none, seq![r.version, r.result as u32], rest, 1);
    assert(bytes =~= none + first + rest);
    lemma_signed(r.result);
    lemma_signed(r.num_items);
    let front = first + r.err_msg@ + planes;
    lemma_words(order, front, seq![r.num_items as u32], end, 0);
    assert forall|k: int| 0 <= k < 128 implies #[trigger] r.err_msg@[k] == protocol::byte_at(
        bytes,
        8 + k,
    ) by {
        assert(bytes[8 + k] == r.err_msg@[k]);
    }
}

proof fn lemma_answer_plane(
    order: ByteOrder,
    r: KmsResponse,
    gap: Seq<u8>,
    end: Seq<u8>,
    k: int,
)
    requires
        gap.len() == 2,
        end.len() == 4,
        0 <= k < 8,
    ensures
        items_bytes(order, r.items@, gap, end).len() == 1088,
        reads(order, r.items@[k], answer_bytes(order, r, gap, end), 136 + 136 * k),
{
    let planes = items_bytes(order, r.items@, gap, end);
    let first = words(order, seq![r.version, r.result as u32]);
    let count = words(order, seq![r.num_items as u32]);
    let before = first + r.err_msg@;
    lemma_items(order, r.items@, gap, end, before, count + end, k);
    lemma_words(order, Seq::empty(), seq![r.version, r.result as u32], Seq::empty(), 0);
    assert(answer_bytes(order, r, gap, end) =~= before + planes + (count + end));
}

/// An answer in C layout is read back as it was.
pub proof fn answers_are_read_in_c_layout(
    order: ByteOrder,
    r: KmsResponse,
    gap: Seq<u8>,
    end: Seq<u8>,
)
    requires
        gap.len() == 2,
        end.len() == 4,
    ensures
        answer_bytes(order, r, gap, end).len() == 1232,
        protocol::is_response(order, r, answer_bytes(order, r, gap, end)),
{
    let bytes = answer_bytes(order, r, gap, end);
    lemma_answer_plane(order, r, gap, end, 0);
    lemma_answer_words(order, r, items_bytes(order, r.items@, gap, end), end);
    assert forall|k: int| 0 <= k < 8 implies protocol::is_item(
        order,
        #[trigger] r.items@[k],
        bytes,
        136 + 136 * k,
    ) by {
        lemma_answer_plane(order, r, gap, end, k);
        reveal(reads);
    }
}

/// Counts that make no sense are cut to what there is room for: none below zero, and no more than
/// eight planes or four dma-bufs.
pub proof fn counts_are_cut_to_the_room(r: KmsResponse, it: KmsResponseItem)
    ensures
        0 <= r.num_items <= 8 ==> r.planes() == r.num_items,
        r.num_items < 0 ==> r.planes() == 0,
        r.num_items > 8 ==> r.planes() == 8,
        0 <= it.num_dma_bufs <= 4 ==> it.bufs() == it.num_dma_bufs,
        it.num_dma_bufs < 0 ==> it.bufs() == 0,
        it.num_dma_bufs > 4 ==> it.bufs() == 4,
{
}

/// Every descriptor of a counted dma-buf of a counted plane is among those to be closed, and only
/// such are.
pub proof fn open_descriptors_are_all_there(
    items: Seq<KmsResponseItem>,
    n: int,
    fd: i32,
)
    requires
        0 <= n,
    ensures
        protocol::open_fds(items, n, 0).contains(fd) <==> fd >= 0 && exists|i: int, k: int|
            #![trigger items[i].dma_buf@[k]]
            0 <= i < n && 0 <= k < items[i].bufs() && items[i].dma_buf@[k].fd == fd,
{
    lemma_open(items, n, 0, fd);
}

proof fn lemma_open(items: Seq<KmsResponseItem>, n: int, m: int, fd: i32)
    requires
        0 <= n,
        0 <= m,
    ensures
        protocol::open_fds(items, n, m).contains(fd) <==> fd >= 0 && exists|i: int, k: int|
            #![trigger items[i].dma_buf@[k]]
            (0 <= i < n && 0 <= k < items[i].bufs() || i == n && 0 <= k < m)
                && items[i].dma_buf@[k].fd == fd,
    decreases n, m,
{
    let all = protocol::open_fds(items, n, m);
    if m > 0 {
        lemma_open(items, n, m - 1, fd);
        let before = protocol::open_fds(items, n, m - 1);
        let own = items[n].dma_buf@[m - 1].fd;
        if own >= 0 {
            assert(all == before.push(own));
            if before.contains(fd) {
                let j = choose|j: int| 0 <= j < before.len() && before[j] == fd;
                assert(all[j] == fd);
            }
            assert(all[all.len() - 1] == own);
            if all.contains(fd) && fd != own {
                let j = choose|j: int| 0 <= j < all.len() && all[j] == fd;
                assert(before[j] == fd);
            }
        }
    } else if n > 0 {
        lemma_open(items, n - 1, items[n - 1].bufs(), fd);
    } else {
        assert(!all.contains(fd));
    }
}

/// Descriptors are handed out one after the other: a plane's first dma-buf gets the one after the
/// last of the planes before it.
pub proof fn descriptors_are_handed_out_in_turn(items: Seq<KmsResponseItem>, i: int)
    requires
        0 <= i,
    ensures
        protocol::bufs_before(items, 0) == 0,
        protocol::bufs_before(items, i + 1) == protocol::bufs_before(items, i) + items[i].bufs(),
{
}

/// A name and its value in a list in which they take turns.
pub open spec fn entry(attribs: Seq<i64>, i: int) -> (int, int) {
    (attribs[2 * i] as int, attribs[2 * i + 1] as int)
}

/// Whether a list of names and values gives a name a value.
pub open spec fn gives(attribs: Seq<i64>, name: int, value: int) -> bool {
    exists|i: int|
        0 <= i && 2 * i + 1 < attribs.len() && #[trigger] entry(attribs, i) == (name, value)
}

/// The image that the GPU is asked for has the plane's size and format, and the descriptor, offset,
/// row length and modifier of its first dma-buf, the modifier in two halves; the list ends with
/// its mark.
pub proof fn images_are_asked_for_by_their_attributes(plane: KmsResponseItem)
    ensures
        ({
            let a = egl::image_attribs(plane);
            let buf = plane.dma_buf@[0];
            &&& gives(a, 0x3057, plane.width as int)
            &&& gives(a, 0x3056, plane.height as int)
            &&& gives(a, 0x3271, plane.pixel_format as int)
            &&& gives(a, 0x3272, buf.fd as int)
            &&& gives(a, 0x3273, buf.offset as int)
            &&& gives(a, 0x3274, buf.pitch as int)
            &&& exists|low: int, high: int|
                #![trigger gives(a, 0x3443, low), gives(a, 0x3444, high)]
                {
                    &&& gives(a, 0x3443, low)
                    &&& gives(a, 0x3444, high)
                    &&& 0 <= low < 0x1_0000_0000
                    &&& plane.modifier == low + 0x1_0000_0000 * high
                }
            &&& a.len() == 17
            &&& a.last() == 0x3038
        }),
{
    let a = egl::image_attribs(plane);
    assert(entry(a, 0).0 == 0x3057);
    assert(entry(a, 1).0 == 0x3056);
    assert(entry(a, 2).0 == 0x3271);
    assert(entry(a, 3).0 == 0x3272);
    assert(entry(a, 4).0 == 0x3273);
    assert(entry(a, 5).0 == 0x3274);
    assert(entry(a, 6).0 == 0x3443);
    assert(entry(a, 7).0 == 0x3444);
    let low = plane.modifier as int % 0x1_0000_0000;
    let high = plane.modifier as int / 0x1_0000_0000;
    assert(gives(a, 0x3443, low));
    assert(gives(a, 0x3444, high));
}

/// A plane of up to 640 pixels across is read back as it is; a wider one at 640 across.
pub proof fn small_planes_are_read_as_they_are(sw: u32, sh: u32)
    ensures
        sw <= 640 ==> egl::small_size(sw, sh) == (sw as int, sh as int),
        sw > 640 ==> egl::small_size(sw, sh).0 == 640,
{
}

/// A connector belongs to the card that its name begins with, up to the first dash; what follows
/// does not matter, but something must.
pub proof fn connectors_belong_to_their_card(number: Seq<char>, output: Seq<char>)
    requires
        forall|i: int| 0 <= i < number.len() ==> #[trigger] number[i] != '-',
        output.len() > 0,
    ensures
        super::card_of("card"@ + number + "-"@ + output) == Some("card"@ + number),
        super::card_of("card"@ + number) is None,
        super::card_of("card"@ + number + "-"@) is None,
{
    reveal_strlit("card");
    reveal_strlit("-");
    let card = "card"@ + number;
    let n = card.len() as int;
    let entry = card + "-"@ + output;
    let cut = card + "-"@;
    assert(super::first_dash(entry, n));
    assert forall|i: int| super::first_dash(entry, i) implies i == n by {
        if i < n {
            assert(entry[i] == card[i]);
        } else if i > n {
            assert(entry[n] == '-');
        }
    }
    assert(entry.take(n) =~= card);
    assert(card.take(4) =~= "card"@);
    assert(super::first_dash(cut, n));
    assert forall|i: int| super::first_dash(cut, i) implies i == n by {
        if i < n {
            assert(cut[i] == card[i]);
        }
    }
    assert forall|i: int| !super::first_dash(card, i) by {
        if 4 <= i < n {
            assert(card[i] == number[i - 4]);
        }
    }
}

/// An entry whose name does not begin with the word for a card belongs to none.
pub proof fn other_entries_belong_to_no_card(entry: Seq<char>)
    requires
        !super::starts_with(entry, "card"@),
    ensures
        super::card_of(entry) is None,
{
    reveal_strlit("card");
    if exists|i: int| super::first_dash(entry, i) {
        let i = choose|i: int| super::first_dash(entry, i);
        if super::starts_with(entry.take(i), "card"@) {
            assert(entry.take(i).take(4) =~= entry.take(4));
        }
    }
}

/// The plane that is sampled is no cursor, has a dma-buf and is of the wanted connector, and no
/// other such plane is larger; of equally large ones it is the last.
pub proof fn largest_picture_is_sampled(
    items: Seq<KmsResponseItem>,
    n: int,
    connector: Option<u32>,
    i: int,
    j: int,
)
    requires
        protocol::is_primary(items, n, connector, i),
        0 <= j < n,
    ensures
        0 <= i < n,
        items[i].is_cursor == 0,
        items[i].num_dma_bufs > 0,
        connector is Some ==> items[i].connector_id == connector->0 && connector->0 != 0,
        items[j].is_cursor == 0 && items[j].num_dma_bufs > 0 && (connector is None
            || items[j].connector_id == connector->0) ==> items[j].width * items[j].height
            <= items[i].width * items[i].height,
        items[j].is_cursor == 0 && items[j].num_dma_bufs > 0 && (connector is None
            || items[j].connector_id == connector->0) && items[j].width * items[j].height
            == items[i].width * items[i].height ==> j <= i,
{
    assert(protocol::usable(items[j], connector) || !protocol::usable(items[j], connector));
}

/// A message ends before its first zero; bytes without one are no message.
pub proof fn messages_end_at_the_first_zero(said: Seq<u8>, after: Seq<u8>)
    requires
        forall|i: int| 0 <= i < said.len() ==> #[trigger] said[i] != 0,
    ensures
        protocol::c_string(said.push(0) + after) == said,
        protocol::c_string(said) == Seq::<u8>::empty(),
{
    let all = said.push(0) + after;
    let n = said.len() as int;
    assert forall|j: int| 0 <= j < n implies #[trigger] all[j] != 0 by {
        assert(all[j] == said[j]);
    }
    assert(all[n] == 0);
    assert(protocol::first_zero(all, n));
    assert forall|i: int| protocol::first_zero(all, i) implies i == n by {
        if i < n {
            assert(all[i] != 0);
        } else if i > n {
            assert(all[n] != 0);
        }
    }
    assert(all.take(n) =~= said);
    assert forall|i: int| !protocol::first_zero(said, i) by {
        if 0 <= i < n {
            assert(said[i] != 0);
        }
    }
}

/// Every counted dma-buf gets the next descriptor and keeps the rest of itself; the others, and
/// the rest of the plane, stay as they are.
pub proof fn counted_buffers_get_their_descriptors(
    it: KmsResponseItem,
    out: KmsResponseItem,
    fds: Seq<i32>,
    at: int,
    k: int,
)
    requires
        protocol::with_fds(it, out, fds, at),
        0 <= k < 4,
    ensures
        k < it.num_dma_bufs ==> out.dma_buf@[k].fd == fds[at + k],
        k >= it.num_dma_bufs ==> out.dma_buf@[k].fd == it.dma_buf@[k].fd,
        out.dma_buf@[k].pitch == it.dma_buf@[k].pitch,
        out.dma_buf@[k].offset == it.dma_buf@[k].offset,
        out.num_dma_bufs == it.num_dma_bufs,
        out.width == it.width && out.height == it.height,
        out.pixel_format == it.pixel_format && out.modifier == it.modifier,
        out.connector_id == it.connector_id && out.is_cursor == it.is_cursor,
{
    let d = out.dma_buf@[k];
}

/// A record counts as the end of the connection exactly where it is empty, and as short of
/// descriptors exactly where fewer came than its counted dma-bufs need.
pub proof fn records_are_refused_for_a_reason(
    order: ByteOrder,
    r: Result<KmsResponse, ReceiveError>,
    raw: KmsResponse,
    bytes: Seq<u8>,
    fds: Seq<i32>,
)
    requires
        protocol::is_received(order, r, bytes, fds),
        protocol::is_response(order, raw, bytes),
    ensures
        r == Err::<KmsResponse, ReceiveError>(ReceiveError::Closed) <==> bytes.len() == 0,
        r is Ok <==> bytes.len() > 0 && protocol::bufs_before(raw.items@, raw.planes())
            <= fds.len(),
        r matches Ok(response) ==> response.version == raw.version && response.result == raw.result
            && response.num_items == raw.num_items,
{
    assert forall|other: KmsResponse| #[trigger]
        protocol::is_response(order, other, bytes) implies protocol::bufs_before(
        other.items@,
        other.planes(),
    ) == protocol::bufs_before(raw.items@, raw.planes()) by {
        assert(other.num_items == raw.num_items);
        lemma_same_counts(order, other, raw, bytes, raw.planes());
    }
}

proof fn lemma_same_counts(
    order: ByteOrder,
    a: KmsResponse,
    b: KmsResponse,
    bytes: Seq<u8>,
    n: int,
)
    requires
        protocol::is_response(order, a, bytes),
        protocol::is_response(order, b, bytes),
        0 <= n <= 8,
    ensures
        protocol::bufs_before(a.items@, n) == protocol::bufs_before(b.items@, n),
    decreases n,
{
    if n > 0 {
        lemma_same_counts(order, a, b, bytes, n - 1);
        let x = a.items@[n - 1];
        let y = b.items@[n - 1];
        assert(protocol::is_item(order, x, bytes, 136 + 136 * (n - 1)));
        assert(protocol::is_item(order, y, bytes, 136 + 136 * (n - 1)));
        assert(x.num_dma_bufs == y.num_dma_bufs);
    }
}

/// A connector counts where its status is "connected", white space aside, and then for its card.
pub proof fn only_connected_displays_count(e: ConnectorEntry)
    ensures
        text::is_trimmed(e.status@, "connected"@) ==> super::connected_card(e) == super::card_of(
            e.name@,
        ),
        !text::is_trimmed(e.status@, "connected"@) ==> super::connected_card(e) is None,
{
}

/// The card that is captured has a connected display, and none that has one comes before it.
pub proof fn lowest_card_is_captured(
    entries: Seq<ConnectorEntry>,
    n: int,
    card: Seq<char>,
    other: Seq<char>,
    j: int,
)
    requires
        super::is_lowest(entries, n, card),
        0 <= j < n,
        super::connected_card(entries[j]) == Some(other),
    ensures
        exists|i: int| 0 <= i < n && #[trigger] super::connected_card(entries[i]) == Some(card),
        !text::comes_before(other, card),
{
}

/// A render node belongs to a card whose device is its own, and to no other.
pub proof fn render_nodes_go_by_their_device(e: RenderEntry, d: Vec<u8>, device: Seq<u8>)
    requires
        e.device == Some(d),
    ensures
        super::renders_on(e, device) <==> d@ == device && super::starts_with(e.name@, "renderD"@),
{
}

} // verus!
