//! The wire format of the KMS helper, protocol version 5.
//!
//! The helper answers with one fixed-size record in C layout and passes the dma-buf file
//! descriptors beside it. Helper and agent share a machine, so words stand in that machine's byte
//! order. One version is pinned: a record of another version is refused rather than misread.

use vstd::prelude::*;
use vstd::utf8::*;

verus! {

/// The protocol version that is spoken.
pub const GSR_KMS_PROTOCOL_VERSION: u32 = 5;

/// The most planes in an answer.
pub const GSR_KMS_MAX_ITEMS: usize = 8;

/// The most dma-bufs of a plane.
pub const GSR_KMS_MAX_DMA_BUFS: usize = 4;

/// The request to move the connection to the passed socket.
pub const KMS_REQUEST_TYPE_REPLACE_CONNECTION: i32 = 0;

/// The request for the current planes.
pub const KMS_REQUEST_TYPE_GET_KMS: i32 = 1;

/// The result of a request that was granted.
pub const KMS_RESULT_OK: i32 = 0;

/// The bytes of a request.
pub const REQUEST_SIZE: usize = 12;

/// The bytes of an answer.
pub const RESPONSE_SIZE: usize = 1232;

/// A request to the helper.
#[derive(Clone, Copy, Debug, PartialEq, Eq, Structural)]
pub struct KmsRequest {
    pub version: u32,
    pub type_: i32,
    pub new_connection_fd: i32,
}

/// The order in which the bytes of a word stand.
#[derive(Clone, Copy, Debug, PartialEq, Eq, Structural)]
pub enum ByteOrder {
    /// The lowest byte first.
    Little,
    /// The highest byte first.
    Big,
}

/// The four bytes of a word.
pub open spec fn word_bytes(order: ByteOrder, n: u32) -> Seq<u8> {
    let lowest = (n % 0x100) as u8;
    let low = (n / 0x100 % 0x100) as u8;
    let high = (n / 0x1_0000 % 0x100) as u8;
    let highest = (n / 0x100_0000) as u8;
    match order {
        ByteOrder::Little => seq![lowest, low, high, highest],
        ByteOrder::Big => seq![highest, high, low, lowest],
    }
}

/// A byte of a record; what was not received is zero.
pub open spec fn byte_at(bytes: Seq<u8>, at: int) -> u8 {
    if 0 <= at < bytes.len() {
        bytes[at]
    } else {
        0
    }
}

/// The word of four bytes, the lowest first.
pub open spec fn word_of(lowest: u8, low: u8, high: u8, highest: u8) -> u32 {
    (lowest + 0x100 * low + 0x1_0000 * high + 0x100_0000 * highest) as u32
}

/// The word at an offset of a record.
pub open spec fn word_at(order: ByteOrder, bytes: Seq<u8>, at: int) -> u32 {
    let first = byte_at(bytes, at);
    let second = byte_at(bytes, at + 1);
    let third = byte_at(bytes, at + 2);
    let fourth = byte_at(bytes, at + 3);
    match order {
        ByteOrder::Little => word_of(first, second, third, fourth),
        ByteOrder::Big => word_of(fourth, third, second, first),
    }
}

/// The double word at an offset of a record.
pub open spec fn long_at(order: ByteOrder, bytes: Seq<u8>, at: int) -> u64 {
    let first = word_at(order, bytes, at);
    let second = word_at(order, bytes, at + 4);
    match order {
        ByteOrder::Little => (first + 0x1_0000_0000 * second) as u64,
        ByteOrder::Big => (second + 0x1_0000_0000 * first) as u64,
    }
}

/// Calls `u32::to_ne_bytes`.
///
/// Believed of it: the bytes are those of the word, in one of the two orders. Which of the two
/// rests with the machine and is left unsaid.
#[verifier::external_body]
fn native_bytes(n: u32) -> (b: [u8; 4])
    ensures
        b@ == word_bytes(ByteOrder::Little, n) || b@ == word_bytes(ByteOrder::Big, n),
{
    n.to_ne_bytes()
}

/// The order that the bytes of the number 1 are in.
pub fn order_of_one(b: [u8; 4]) -> (order: ByteOrder)
    requires
        b@ == word_bytes(ByteOrder::Little, 1) || b@ == word_bytes(ByteOrder::Big, 1),
    ensures
        b@ == word_bytes(order, 1),
{
    if b[0] == 1 {
        ByteOrder::Little
    } else {
        ByteOrder::Big
    }
}

/// The byte order of the machine.
fn native_order() -> ByteOrder {
    order_of_one(native_bytes(1))
}

fn push_word(out: &mut Vec<u8>, order: ByteOrder, n: u32)
    ensures
        final(out)@ == old(out)@ + word_bytes(order, n),
{
    let lowest: u8 = (n % 0x100) as u8;
    let low: u8 = (n / 0x100 % 0x100) as u8;
    let high: u8 = (n / 0x1_0000 % 0x100) as u8;
    let highest: u8 = (n / 0x100_0000) as u8;
    match order {
        ByteOrder::Little => {
            out.push(lowest);
            out.push(low);
            out.push(high);
            out.push(highest);
        },
        ByteOrder::Big => {
            out.push(highest);
            out.push(high);
            out.push(low);
            out.push(lowest);
        },
    }
    assert(out@ =~= old(out)@ + word_bytes(order, n));
}

fn read_byte(bytes: &[u8], at: usize) -> (b: u8)
    ensures
        b == byte_at(bytes@, at as int),
{
    if at < bytes.len() {
        bytes[at]
    } else {
        0
    }
}

fn word(lowest: u8, low: u8, high: u8, highest: u8) -> (n: u32)
    ensures
        n == word_of(lowest, low, high, highest),
{
    lowest as u32 + 0x100 * low as u32 + 0x1_0000 * high as u32 + 0x100_0000 * highest as u32
}

fn read_word(order: ByteOrder, bytes: &[u8], at: usize) -> (n: u32)
    requires
        at <= RESPONSE_SIZE,
    ensures
        n == word_at(order, bytes@, at as int),
{
    let first: u8 = read_byte(bytes, at);
    let second: u8 = read_byte(bytes, at + 1);
    let third: u8 = read_byte(bytes, at + 2);
    let fourth: u8 = read_byte(bytes, at + 3);
    match order {
        ByteOrder::Little => word(first, second, third, fourth),
        ByteOrder::Big => word(fourth, third, second, first),
    }
}

fn read_long(order: ByteOrder, bytes: &[u8], at: usize) -> (n: u64)
    requires
        at <= RESPONSE_SIZE - 4,
    ensures
        n == long_at(order, bytes@, at as int),
{
    let first: u64 = read_word(order, bytes, at) as u64;
    let second: u64 = read_word(order, bytes, at + 4) as u64;
    match order {
        ByteOrder::Little => first + 0x1_0000_0000 * second,
        ByteOrder::Big => second + 0x1_0000_0000 * first,
    }
}

/// The bytes of a request.
pub open spec fn request_bytes(order: ByteOrder, r: KmsRequest) -> Seq<u8> {
    word_bytes(order, r.version) + word_bytes(order, r.type_ as u32) + word_bytes(
        order,
        r.new_connection_fd as u32,
    )
}

impl KmsRequest {
    /// A request of the version that is spoken.
    pub fn new(type_: i32, new_connection_fd: i32) -> (r: KmsRequest)
        ensures
            r == (KmsRequest { version: GSR_KMS_PROTOCOL_VERSION, type_, new_connection_fd }),
    {
        KmsRequest { version: GSR_KMS_PROTOCOL_VERSION, type_, new_connection_fd }
    }

    /// The request's bytes, in the machine's byte order.
    pub fn as_bytes(&self) -> (out: Vec<u8>)
        ensures
            exists|order: ByteOrder| out@ == #[trigger] request_bytes(order, *self),
            out@.len() == REQUEST_SIZE,
    {
        self.as_bytes_in(native_order())
    }

    /// The request's bytes, in a byte order.
    pub fn as_bytes_in(&self, order: ByteOrder) -> (out: Vec<u8>)
        ensures
            out@ == request_bytes(order, *self),
            out@.len() == REQUEST_SIZE,
    {
        let mut out: Vec<u8> = Vec::new();
        push_word(&mut out, order, self.version);
        push_word(&mut out, order, self.type_ as u32);
        push_word(&mut out, order, self.new_connection_fd as u32);
        assert(out@ =~= request_bytes(order, *self));
        out
    }
}

/// What was written as a word is read back as that word, in the same byte order.
pub proof fn words_read_back(order: ByteOrder, before: Seq<u8>, n: u32, after: Seq<u8>)
    ensures
        word_at(order, before + word_bytes(order, n) + after, before.len() as int) == n,
{
    let all = before + word_bytes(order, n) + after;
    let at = before.len() as int;
    assert(all[at] == word_bytes(order, n)[0]);
    assert(all[at + 1] == word_bytes(order, n)[1]);
    assert(all[at + 2] == word_bytes(order, n)[2]);
    assert(all[at + 3] == word_bytes(order, n)[3]);
}

/// The two byte orders are each other's reverse.
pub proof fn byte_orders_mirror_each_other(n: u32)
    ensures
        word_bytes(ByteOrder::Big, n) == word_bytes(ByteOrder::Little, n).reverse(),
{
    assert(word_bytes(ByteOrder::Big, n) =~= word_bytes(ByteOrder::Little, n).reverse());
}

/// A plane's dma-buf.
#[derive(Clone, Copy, Debug, PartialEq, Eq, Structural)]
pub struct KmsDmaBuf {
    pub fd: i32,
    pub pitch: u32,
    pub offset: u32,
}

/// A plane that is being scanned out.
#[derive(Clone, Copy, Debug)]
pub struct KmsResponseItem {
    pub dma_buf: [KmsDmaBuf; 4],
    pub num_dma_bufs: i32,
    pub width: u32,
    pub height: u32,
    pub pixel_format: u32,
    pub modifier: u64,
    pub connector_id: u32,
    /// Not zero for a cursor.
    pub is_cursor: u8,
    pub has_hdr_metadata: u8,
    pub rotation: i32,
    pub x: i32,
    pub y: i32,
    pub src_w: i32,
    pub src_h: i32,
    pub hdr_metadata: [u8; 32],
}

/// The helper's answer.
#[derive(Clone, Copy, Debug)]
pub struct KmsResponse {
    pub version: u32,
    pub result: i32,
    pub err_msg: [u8; 128],
    pub items: [KmsResponseItem; 8],
    pub num_items: i32,
}

/// Whether a dma-buf is what stands at an offset of a record.
pub open spec fn is_dma_buf(order: ByteOrder, d: KmsDmaBuf, bytes: Seq<u8>, at: int) -> bool {
    &&& d.fd == word_at(order, bytes, at) as i32
    &&& d.pitch == word_at(order, bytes, at + 4)
    &&& d.offset == word_at(order, bytes, at + 8)
}

/// Whether a plane is what stands at an offset of a record.
pub open spec fn is_item(order: ByteOrder, it: KmsResponseItem, bytes: Seq<u8>, at: int) -> bool {
    &&& forall|k: int| 0 <= k < 4 ==> is_dma_buf(order, #[trigger] it.dma_buf@[k], bytes, at + 12 * k)
    &&& it.num_dma_bufs == word_at(order, bytes, at + 48) as i32
    &&& it.width == word_at(order, bytes, at + 52)
    &&& it.height == word_at(order, bytes, at + 56)
    &&& it.pixel_format == word_at(order, bytes, at + 60)
    &&& it.modifier == long_at(order, bytes, at + 64)
    &&& it.connector_id == word_at(order, bytes, at + 72)
    &&& it.is_cursor == byte_at(bytes, at + 76)
    &&& it.has_hdr_metadata == byte_at(bytes, at + 77)
    &&& it.rotation == word_at(order, bytes, at + 80) as i32
    &&& it.x == word_at(order, bytes, at + 84) as i32
    &&& it.y == word_at(order, bytes, at + 88) as i32
    &&& it.src_w == word_at(order, bytes, at + 92) as i32
    &&& it.src_h == word_at(order, bytes, at + 96) as i32
    &&& forall|k: int| 0 <= k < 32 ==> #[trigger] it.hdr_metadata@[k] == byte_at(bytes, at + 100 + k)
}

/// Whether an answer is what a record holds.
pub open spec fn is_response(order: ByteOrder, r: KmsResponse, bytes: Seq<u8>) -> bool {
    &&& r.version == word_at(order, bytes, 0)
    &&& r.result == word_at(order, bytes, 4) as i32
    &&& forall|k: int| 0 <= k < 128 ==> #[trigger] r.err_msg@[k] == byte_at(bytes, 8 + k)
    &&& forall|k: int| 0 <= k < 8 ==> is_item(order, #[trigger] r.items@[k], bytes, 136 + 136 * k)
    &&& r.num_items == word_at(order, bytes, 1224) as i32
}

fn read_dma_buf(order: ByteOrder, bytes: &[u8], at: usize) -> (d: KmsDmaBuf)
    requires
        at <= RESPONSE_SIZE - 12,
    ensures
        is_dma_buf(order, d, bytes@, at as int),
{
    KmsDmaBuf {
        fd: read_word(order, bytes, at) as i32,
        pitch: read_word(order, bytes, at + 4),
        offset: read_word(order, bytes, at + 8),
    }
}

fn read_item(order: ByteOrder, bytes: &[u8], at: usize) -> (it: KmsResponseItem)
    requires
        at <= RESPONSE_SIZE - 136,
    ensures
        is_item(order, it, bytes@, at as int),
{
    let dma_buf: [KmsDmaBuf; 4] = [
        read_dma_buf(order, bytes, at),
        read_dma_buf(order, bytes, at + 12),
        read_dma_buf(order, bytes, at + 24),
        read_dma_buf(order, bytes, at + 36),
    ];
    let mut hdr_metadata: [u8; 32] = [0u8;32];
    let mut k: usize = 0;
    while k < 32
        invariant
            k <= 32,
            at <= RESPONSE_SIZE - 136,
            forall|j: int|
                0 <= j < k ==> #[trigger] hdr_metadata@[j] == byte_at(bytes@, at + 100 + j),
        decreases 32 - k,
    {
        hdr_metadata[k] = read_byte(bytes, at + 100 + k);
        k += 1;
    }
    KmsResponseItem {
        dma_buf,
        num_dma_bufs: read_word(order, bytes, at + 48) as i32,
        width: read_word(order, bytes, at + 52),
        height: read_word(order, bytes, at + 56),
        pixel_format: read_word(order, bytes, at + 60),
        modifier: read_long(order, bytes, at + 64),
        connector_id: read_word(order, bytes, at + 72),
        is_cursor: read_byte(bytes, at + 76),
        has_hdr_metadata: read_byte(bytes, at + 77),
        rotation: read_word(order, bytes, at + 80) as i32,
        x: read_word(order, bytes, at + 84) as i32,
        y: read_word(order, bytes, at + 88) as i32,
        src_w: read_word(order, bytes, at + 92) as i32,
        src_h: read_word(order, bytes, at + 96) as i32,
        hdr_metadata,
    }
}

/// What a text decoder that replaces what is not UTF-8 makes of bytes.
pub uninterp spec fn lossy_text(bytes: Seq<u8>) -> Seq<char>;

/// Calls `String::from_utf8_lossy`.
///
/// Believed of it: the text depends on the bytes alone, and bytes that are UTF-8 are decoded as
/// such. What takes the place of other bytes is left to the decoder.
#[verifier::external_body]
fn decode_lossy(bytes: &[u8]) -> (r: String)
    ensures
        r@ == lossy_text(bytes@),
        valid_utf8(bytes@) ==> r@ == decode_utf8(bytes@),
{
    String::from_utf8_lossy(bytes).into_owned()
}

/// The bytes before the first zero; none where there is no zero.
pub open spec fn c_string(bytes: Seq<u8>) -> Seq<u8> {
    if exists|i: int| first_zero(bytes, i) {
        bytes.take(choose|i: int| first_zero(bytes, i))
    } else {
        Seq::empty()
    }
}

/// Whether the first zero is at `i`.
pub open spec fn first_zero(bytes: Seq<u8>, i: int) -> bool {
    &&& 0 <= i < bytes.len()
    &&& bytes[i] == 0
    &&& forall|j: int| 0 <= j < i ==> #[trigger] bytes[j] != 0
}

/// The bytes before the first zero; none where there is no zero.
pub fn until_zero(bytes: &[u8]) -> (out: Vec<u8>)
    ensures
        out@ == c_string(bytes@),
{
    let mut out: Vec<u8> = Vec::new();
    let mut i: usize = 0;
    while i < bytes.len()
        invariant
            i <= bytes@.len(),
            out@ == bytes@.take(i as int),
            forall|j: int| 0 <= j < i ==> #[trigger] bytes@[j] != 0,
        decreases bytes@.len() - i,
    {
        if bytes[i] == 0 {
            proof {
                assert(first_zero(bytes@, i as int));
                let c = choose|k: int| first_zero(bytes@, k);
                if c < i {
                    assert(bytes@[c] != 0);
                } else if c > i {
                    assert(bytes@[i as int] != 0);
                }
            }
            return out;
        }
        out.push(bytes[i]);
        i += 1;
        assert(out@ =~= bytes@.take(i as int));
    }
    Vec::new()
}

impl KmsResponse {
    /// The answer whose every byte is zero.
    pub fn zeroed() -> (r: KmsResponse)
        ensures
            forall|order: ByteOrder| #[trigger] is_response(order, r, Seq::<u8>::empty()),
    {
        let none: Vec<u8> = Vec::new();
        assert(none@ =~= Seq::<u8>::empty());
        KmsResponse::parse(none.as_slice(), ByteOrder::Little)
    }

    /// The answer in a record; what was not received counts as zero.
    pub fn parse(bytes: &[u8], order: ByteOrder) -> (r: KmsResponse)
        ensures
            is_response(order, r, bytes@),
    {
        let mut err_msg: [u8; 128] = [0u8;128];
        let mut k: usize = 0;
        while k < 128
            invariant
                k <= 128,
                forall|j: int| 0 <= j < k ==> #[trigger] err_msg@[j] == byte_at(bytes@, 8 + j),
            decreases 128 - k,
        {
            err_msg[k] = read_byte(bytes, 8 + k);
            k += 1;
        }
        let items: [KmsResponseItem; 8] = [
            read_item(order, bytes, 136),
            read_item(order, bytes, 272),
            read_item(order, bytes, 408),
            read_item(order, bytes, 544),
            read_item(order, bytes, 680),
            read_item(order, bytes, 816),
            read_item(order, bytes, 952),
            read_item(order, bytes, 1088),
        ];
        KmsResponse {
            version: read_word(order, bytes, 0),
            result: read_word(order, bytes, 4) as i32,
            err_msg,
            items,
            num_items: read_word(order, bytes, 1224) as i32,
        }
    }

    /// The error message, up to its first zero byte.
    pub fn err_msg_str(&self) -> (s: String)
        ensures
            s@ == lossy_text(c_string(self.err_msg@)),
            valid_utf8(c_string(self.err_msg@)) ==> s@ == decode_utf8(c_string(self.err_msg@)),
    {
        let bytes: Vec<u8> = until_zero(self.err_msg.as_slice());
        decode_lossy(bytes.as_slice())
    }

    /// The number of planes that count.
    pub open spec fn planes(self) -> int {
        if self.num_items <= 0 {
            0
        } else if self.num_items >= 8 {
            8
        } else {
            self.num_items as int
        }
    }

    fn plane_count(&self) -> (n: usize)
        ensures
            n == self.planes(),
    {
        if self.num_items <= 0 {
            0
        } else if self.num_items >= 8 {
            8
        } else {
            self.num_items as usize
        }
    }
}

impl KmsResponseItem {
    /// Whether the plane is a cursor.
    pub fn is_cursor(&self) -> (r: bool)
        ensures
            r == (self.is_cursor != 0),
    {
        self.is_cursor != 0
    }

    /// The number of dma-bufs that count.
    pub open spec fn bufs(self) -> int {
        if self.num_dma_bufs <= 0 {
            0
        } else if self.num_dma_bufs >= 4 {
            4
        } else {
            self.num_dma_bufs as int
        }
    }

    fn buf_count(&self) -> (n: usize)
        ensures
            n == self.bufs(),
    {
        if self.num_dma_bufs <= 0 {
            0
        } else if self.num_dma_bufs >= 4 {
            4
        } else {
            self.num_dma_bufs as usize
        }
    }
}

/// The number of dma-bufs of the first `n` planes.
pub open spec fn bufs_before(items: Seq<KmsResponseItem>, n: int) -> int
    decreases n,
{
    if n <= 0 {
        0
    } else {
        bufs_before(items, n - 1) + items[n - 1].bufs()
    }
}

/// A plane with its dma-bufs' descriptors taken from `fds`, starting at `at`.
pub open spec fn with_fds(
    it: KmsResponseItem,
    out: KmsResponseItem,
    fds: Seq<i32>,
    at: int,
) -> bool {
    &&& out == (KmsResponseItem { dma_buf: out.dma_buf, ..it })
    &&& forall|k: int|
        0 <= k < 4 ==> #[trigger] out.dma_buf@[k] == if k < it.bufs() {
            KmsDmaBuf { fd: fds[at + k], ..it.dma_buf@[k] }
        } else {
            it.dma_buf@[k]
        }
}

/// How many descriptors an answer needs, and how many came.
#[derive(Clone, Copy, Debug, PartialEq, Eq, Structural)]
pub struct FdCountMismatch {
    pub needed: usize,
    pub got: usize,
}

proof fn lemma_bufs_grow(items: Seq<KmsResponseItem>, n: int, m: int)
    requires
        0 <= n <= m,
    ensures
        0 <= bufs_before(items, n) <= bufs_before(items, m) <= 4 * m,
    decreases m,
{
    if n < m {
        lemma_bufs_grow(items, n, m - 1);
    } else if m > 0 {
        lemma_bufs_grow(items, n - 1, m - 1);
    }
}

fn needed_fds(response: &KmsResponse) -> (needed: usize)
    ensures
        needed == bufs_before(response.items@, response.planes()),
        needed <= 32,
{
    let count: usize = response.plane_count();
    let mut needed: usize = 0;
    let mut i: usize = 0;
    while i < count
        invariant
            i <= count <= 8,
            needed == bufs_before(response.items@, i as int),
            needed <= 4 * i,
        decreases count - i,
    {
        needed = needed + response.items[i].buf_count();
        i += 1;
    }
    needed
}

fn item_with_fds(it: &KmsResponseItem, fds: &[i32], at: usize) -> (out: KmsResponseItem)
    requires
        at + it.bufs() <= fds@.len(),
        at <= 32,
    ensures
        with_fds(*it, out, fds@, at as int),
{
    let n: usize = it.buf_count();
    let mut bufs: [KmsDmaBuf; 4] = it.dma_buf;
    let mut k: usize = 0;
    while k < n
        invariant
            n == it.bufs(),
            k <= n <= 4,
            at <= 32,
            at + n <= fds@.len(),
            forall|j: int|
                0 <= j < k ==> #[trigger] bufs@[j] == (KmsDmaBuf {
                    fd: fds@[at + j],
                    ..it.dma_buf@[j]
                }),
            forall|j: int| k <= j < 4 ==> #[trigger] bufs@[j] == it.dma_buf@[j],
        decreases n - k,
    {
        let d: KmsDmaBuf = bufs[k];
        bufs[k] = KmsDmaBuf { fd: fds[at + k], pitch: d.pitch, offset: d.offset };
        k += 1;
    }
    let mut out: KmsResponseItem = *it;
    out.dma_buf = bufs;
    out
}

/// Hands the received descriptors to the dma-bufs, in the order in which the helper packed them:
/// plane by plane, and in each by dma-buf. Returns how many were used; where too few came,
/// nothing changes.
pub fn assign_fds(response: &mut KmsResponse, fds: &[i32]) -> (r: Result<usize, FdCountMismatch>)
    ensures
        ({
            let needed = bufs_before(old(response).items@, old(response).planes());
            match r {
                Ok(used) => {
                    &&& needed <= fds@.len()
                    &&& used == needed
                    &&& *final(response) == (KmsResponse {
                        items: final(response).items,
                        ..*old(response)
                    })
                    &&& forall|i: int|
                        0 <= i < old(response).planes() ==> with_fds(
                            old(response).items@[i],
                            #[trigger] final(response).items@[i],
                            fds@,
                            bufs_before(old(response).items@, i),
                        )
                    &&& forall|i: int|
                        old(response).planes() <= i < 8 ==> #[trigger] final(response).items@[i]
                            == old(response).items@[i]
                },
                Err(e) => {
                    &&& fds@.len() < needed
                    &&& e.needed == needed
                    &&& e.got == fds@.len()
                    &&& *final(response) == *old(response)
                },
            }
        }),
{
    let needed: usize = needed_fds(response);
    if fds.len() < needed {
        return Err(FdCountMismatch { needed, got: fds.len() });
    }
    let ghost before = response.items@;
    let count: usize = response.plane_count();
    let mut items: [KmsResponseItem; 8] = response.items;
    let mut used: usize = 0;
    let mut i: usize = 0;
    while i < count
        invariant
            i <= count <= 8,
            before == response.items@,
            needed == bufs_before(before, count as int),
            needed <= 32,
            needed <= fds@.len(),
            used == bufs_before(before, i as int),
            forall|j: int|
                0 <= j < i ==> with_fds(
                    before[j],
                    #[trigger] items@[j],
                    fds@,
                    bufs_before(before, j),
                ),
            forall|j: int| i <= j < 8 ==> #[trigger] items@[j] == before[j],
        decreases count - i,
    {
        proof {
            lemma_bufs_grow(before, i + 1, count as int);
            lemma_bufs_grow(before, 0, i as int);
        }
        let it: KmsResponseItem = items[i];
        let n: usize = it.buf_count();
        items[i] = item_with_fds(&it, fds, used);
        used = used + n;
        i += 1;
    }
    response.items = items;
    Ok(used)
}

/// Whether a plane can be sampled under a connector filter. A connector of zero is unknown and
/// matches no filter.
pub open spec fn usable(it: KmsResponseItem, connector: Option<u32>) -> bool {
    &&& it.is_cursor == 0
    &&& it.num_dma_bufs > 0
    &&& connector matches Some(want) ==> it.connector_id == want && want != 0
}

/// The number of pixels of a plane.
pub open spec fn area(it: KmsResponseItem) -> int {
    it.width * it.height
}

/// Whether plane `i` is the last of the largest usable ones among the first `n`.
pub open spec fn is_primary(
    items: Seq<KmsResponseItem>,
    n: int,
    connector: Option<u32>,
    i: int,
) -> bool {
    &&& 0 <= i < n
    &&& usable(items[i], connector)
    &&& forall|j: int|
        0 <= j < n && usable(#[trigger] items[j], connector) ==> area(items[j]) <= area(items[i])
    &&& forall|j: int|
        i < j < n && usable(#[trigger] items[j], connector) ==> area(items[j]) < area(items[i])
}

/// Picks the plane to sample: the largest that is no cursor and has a dma-buf, of the given
/// connector if one is given; of equal ones the last. A connector of zero is unknown, and no
/// filter matches it.
pub fn select_primary_plane(response: &KmsResponse, connector_id: Option<u32>) -> (r: Option<
    usize,
>)
    ensures
        match r {
            Some(i) => is_primary(response.items@, response.planes(), connector_id, i as int),
            None => forall|j: int|
                0 <= j < response.planes() ==> !usable(#[trigger] response.items@[j], connector_id),
        },
{
    let count: usize = response.plane_count();
    let mut best: Option<usize> = None;
    let mut best_area: u64 = 0;
    let mut i: usize = 0;
    while i < count
        invariant
            i <= count <= 8,
            match best {
                Some(b) => is_primary(response.items@, i as int, connector_id, b as int)
                    && best_area == area(response.items@[b as int]),
                None => forall|j: int|
                    0 <= j < i ==> !usable(#[trigger] response.items@[j], connector_id),
            },
        decreases count - i,
    {
        let it: KmsResponseItem = response.items[i];
        let wanted: bool = match connector_id {
            Some(want) => it.connector_id == want && want != 0,
            None => true,
        };
        if it.is_cursor == 0 && it.num_dma_bufs > 0 && wanted {
            assert(it.width * it.height <= 0xFFFF_FFFF * 0xFFFF_FFFF) by (nonlinear_arith)
                requires
                    it.width <= 0xFFFF_FFFF,
                    it.height <= 0xFFFF_FFFF,
            ;
            let a: u64 = it.width as u64 * it.height as u64;
            let replace: bool = match best {
                Some(_) => a >= best_area,
                None => true,
            };
            if replace {
                best = Some(i);
                best_area = a;
            }
        }
        i += 1;
    }
    best
}

/// A filter finds a plane of its own connector, and no plane that no filter would find.
pub proof fn filter_narrows(
    items: Seq<KmsResponseItem>,
    n: int,
    connector: u32,
    i: int,
    j: int,
)
    requires
        is_primary(items, n, Some(connector), i),
        is_primary(items, n, None, j),
    ensures
        items[i].connector_id == connector,
        area(items[i]) <= area(items[j]),
{
    assert(usable(items[i], None));
}

/// The descriptors of the counted dma-bufs of the first `n` planes, and of the first `k` dma-bufs
/// of the next.
pub open spec fn open_fds(items: Seq<KmsResponseItem>, n: int, k: int) -> Seq<i32>
    decreases n, k,
{
    if k > 0 {
        let before = open_fds(items, n, k - 1);
        let fd = items[n].dma_buf@[k - 1].fd;
        if fd >= 0 {
            before.push(fd)
        } else {
            before
        }
    } else if n > 0 {
        open_fds(items, n - 1, items[n - 1].bufs())
    } else {
        Seq::empty()
    }
}

/// The descriptors that an answer owns, to be closed when its planes were imported.
pub fn response_fds(response: &KmsResponse) -> (fds: Vec<i32>)
    ensures
        fds@ == open_fds(response.items@, response.planes(), 0),
{
    let count: usize = response.plane_count();
    let mut fds: Vec<i32> = Vec::new();
    let mut i: usize = 0;
    while i < count
        invariant
            i <= count <= 8,
            fds@ == open_fds(response.items@, i as int, 0),
        decreases count - i,
    {
        let it: KmsResponseItem = response.items[i];
        let n: usize = it.buf_count();
        let mut k: usize = 0;
        while k < n
            invariant
                i < count <= 8,
                it == response.items@[i as int],
                n == it.bufs(),
                k <= n <= 4,
                fds@ == open_fds(response.items@, i as int, k as int),
            decreases n - k,
        {
            let fd: i32 = it.dma_buf[k].fd;
            if fd >= 0 {
                fds.push(fd);
            }
            k += 1;
        }
        i += 1;
    }
    fds
}

/// Why what came from the helper is no answer.
#[derive(Clone, Debug, PartialEq)]
pub enum ReceiveError {
    /// The helper closed the connection.
    Closed,
    /// Too few descriptors came with the answer.
    FdCount(FdCountMismatch),
}

/// Whether `r` is what becomes of a record's bytes and the descriptors beside it: an error where
/// nothing came or too few descriptors did, and the answer with its descriptors elsewhere.
pub open spec fn is_received(
    order: ByteOrder,
    r: Result<KmsResponse, ReceiveError>,
    bytes: Seq<u8>,
    fds: Seq<i32>,
) -> bool {
    match r {
        Ok(response) => {
            &&& bytes.len() > 0
            &&& exists|raw: KmsResponse|
                #![trigger is_response(order, raw, bytes)]
                {
                    &&& is_response(order, raw, bytes)
                    &&& bufs_before(raw.items@, raw.planes()) <= fds.len()
                    &&& response == (KmsResponse { items: response.items, ..raw })
                    &&& forall|i: int|
                        0 <= i < raw.planes() ==> with_fds(
                            raw.items@[i],
                            #[trigger] response.items@[i],
                            fds,
                            bufs_before(raw.items@, i),
                        )
                    &&& forall|i: int|
                        raw.planes() <= i < 8 ==> #[trigger] response.items@[i] == raw.items@[i]
                }
        },
        Err(ReceiveError::Closed) => bytes.len() == 0,
        Err(ReceiveError::FdCount(e)) => {
            &&& bytes.len() > 0
            &&& e.got == fds.len()
            &&& e.needed > e.got
            &&& exists|raw: KmsResponse|
                #![trigger is_response(order, raw, bytes)]
                is_response(order, raw, bytes) && e.needed == bufs_before(raw.items@, raw.planes())
        },
    }
}

/// The answer in what was received, in the machine's byte order. On an error the descriptors stay
/// with the caller.
pub fn receive(bytes: &[u8], fds: &[i32]) -> (r: Result<KmsResponse, ReceiveError>)
    ensures
        exists|order: ByteOrder| #[trigger] is_received(order, r, bytes@, fds@),
        r == Err::<KmsResponse, ReceiveError>(ReceiveError::Closed) <==> bytes@.len() == 0,
{
    receive_in(bytes, fds, native_order())
}

/// The answer in what was received, in a byte order. On an error the descriptors stay with the
/// caller.
pub fn receive_in(bytes: &[u8], fds: &[i32], order: ByteOrder) -> (r: Result<
    KmsResponse,
    ReceiveError,
>)
    ensures
        is_received(order, r, bytes@, fds@),
{
    if bytes.len() == 0 {
        return Err(ReceiveError::Closed);
    }
    let mut response: KmsResponse = KmsResponse::parse(bytes, order);
    let ghost raw = response;
    assert(is_response(order, raw, bytes@));
    match assign_fds(&mut response, fds) {
        Ok(_) => Ok(response),
        Err(e) => Err(ReceiveError::FdCount(e)),
    }
}

/// Why an answer is of no use.
#[derive(Clone, Debug, PartialEq)]
pub enum ReplyError {
    /// The helper speaks another version.
    Version { got: u32 },
    /// The helper has refused, with a result and a message.
    Refused { result: i32, message: String },
}

/// Checks the version of an answer.
pub fn check_version(response: &KmsResponse) -> (r: Result<(), ReplyError>)
    ensures
        match r {
            Ok(()) => response.version == GSR_KMS_PROTOCOL_VERSION,
            Err(e) => response.version != GSR_KMS_PROTOCOL_VERSION && e == (ReplyError::Version {
                got: response.version,
            }),
        },
{
    if response.version != GSR_KMS_PROTOCOL_VERSION {
        return Err(ReplyError::Version { got: response.version });
    }
    Ok(())
}

/// Checks an answer: its version first, then its result.
pub fn check_reply(response: &KmsResponse) -> (r: Result<(), ReplyError>)
    ensures
        match r {
            Ok(()) => response.version == GSR_KMS_PROTOCOL_VERSION && response.result
                == KMS_RESULT_OK,
            Err(ReplyError::Version { got }) => got == response.version && got
                != GSR_KMS_PROTOCOL_VERSION,
            Err(ReplyError::Refused { result, message }) => {
                &&& response.version == GSR_KMS_PROTOCOL_VERSION
                &&& result == response.result
                &&& result != KMS_RESULT_OK
                &&& message@ == lossy_text(c_string(response.err_msg@))
            },
        },
{
    match check_version(response) {
        Ok(()) => {},
        Err(e) => {
            return Err(e);
        },
    }
    if response.result != KMS_RESULT_OK {
        return Err(
            ReplyError::Refused { result: response.result, message: response.err_msg_str() },
        );
    }
    Ok(())
}

} // verus!
