//! Captured frames and their buffers.

use vstd::prelude::*;

pub mod kms;
pub mod laws;
pub mod portal;

verus! {

/// Byte order of a pixel.
#[derive(Clone, Copy, Debug, PartialEq, Eq, Structural)]
pub enum PixelFormat {
    /// Blue, green, red, alpha.
    Bgra,
    /// Red, green, blue, alpha.
    Rgba,
    /// Blue, green, red, padding.
    Bgrx,
    /// Padding, red, green, blue.
    Xrgb,
}

/// A captured frame, whose buffer comes from the pool and goes back to it.
#[derive(Debug)]
pub struct Frame {
    pub buf: Vec<u8>,
    pub width: u32,
    pub height: u32,
    pub stride: u32,
    pub format: PixelFormat,
}

/// A recycler of pixel buffers that never holds more than its size.
///
/// Those that share it hold it behind a lock.
pub struct FramePool {
    buffers: Vec<Vec<u8>>,
    pool_size: usize,
    capacity_hint: usize,
}

/// The number of idle buffers after one was taken out.
pub open spec fn after_acquire(idle: int) -> int {
    if idle > 0 {
        idle - 1
    } else {
        0
    }
}

/// The number of idle buffers after one was given back to a pool of the given size.
pub open spec fn after_release(idle: int, size: int) -> int {
    if idle < size {
        idle + 1
    } else {
        idle
    }
}

impl FramePool {
    /// The number of idle buffers.
    pub closed spec fn idle(self) -> int {
        self.buffers@.len() as int
    }

    /// The most buffers it holds.
    pub closed spec fn size(self) -> usize {
        self.pool_size
    }

    /// The bytes that a fresh buffer has room for.
    pub closed spec fn hint(self) -> usize {
        self.capacity_hint
    }

    /// Whether it holds no more buffers than its size, each of them empty, and can make fresh
    /// ones.
    pub closed spec fn valid(self) -> bool {
        &&& self.buffers@.len() <= self.pool_size
        &&& self.capacity_hint <= isize::MAX
        &&& forall|i: int| 0 <= i < self.buffers@.len() ==> (#[trigger] self.buffers@[i])@.len() == 0
    }

    /// A pool never holds more buffers than its size.
    pub proof fn holds_at_most_its_size(self)
        requires
            self.valid(),
        ensures
            0 <= self.idle() <= self.size(),
    {
    }

    /// A full pool.
    pub fn new(pool_size: usize, capacity_hint: usize) -> (p: FramePool)
        requires
            capacity_hint <= isize::MAX,
        ensures
            p.valid(),
            p.idle() == pool_size,
            p.size() == pool_size,
            p.hint() == capacity_hint,
    {
        let mut buffers: Vec<Vec<u8>> = Vec::new();
        let mut i: usize = 0;
        while i < pool_size
            invariant
                i <= pool_size,
                buffers@.len() == i,
                forall|j: int| 0 <= j < i ==> (#[trigger] buffers@[j])@.len() == 0,
            decreases pool_size - i,
        {
            buffers.push(Vec::with_capacity(capacity_hint));
            i += 1;
        }
        FramePool { buffers, pool_size, capacity_hint }
    }

    /// The most buffers it holds.
    pub fn pool_size(&self) -> (n: usize)
        ensures
            n == self.size(),
    {
        self.pool_size
    }

    /// The bytes that a fresh buffer has room for.
    pub fn capacity_hint(&self) -> (n: usize)
        ensures
            n == self.hint(),
    {
        self.capacity_hint
    }

    /// The number of idle buffers.
    pub fn len(&self) -> (n: usize)
        ensures
            n == self.idle(),
    {
        self.buffers.len()
    }

    /// Takes an empty buffer out, or makes a fresh one where none is idle.
    pub fn acquire(&mut self) -> (buf: Vec<u8>)
        requires
            old(self).valid(),
        ensures
            final(self).valid(),
            final(self).idle() == after_acquire(old(self).idle()),
            final(self).size() == old(self).size(),
            final(self).hint() == old(self).hint(),
            buf@ == Seq::<u8>::empty(),
    {
        let ghost before = self.buffers@;
        match self.buffers.pop() {
            Some(buf) => {
                assert(buf@.len() == before[before.len() - 1]@.len());
                assert(buf@ =~= Seq::<u8>::empty());
                buf
            },
            None => Vec::with_capacity(self.capacity_hint),
        }
    }

    /// Gives a buffer back. Its contents are dropped, and the whole of it where the pool is full.
    pub fn release(&mut self, buf: Vec<u8>)
        requires
            old(self).valid(),
        ensures
            final(self).valid(),
            final(self).idle() == after_release(old(self).idle(), old(self).size() as int),
            final(self).size() == old(self).size(),
            final(self).hint() == old(self).hint(),
    {
        if self.buffers.len() >= self.pool_size {
            return;
        }
        let mut empty: Vec<u8> = buf;
        empty.clear();
        self.buffers.push(empty);
    }
}

/// The place where the newest frame waits for the pipeline. A frame that was not taken in time
/// is displaced by the next.
///
/// Those that share it hold it behind a lock and wake each other.
pub struct FrameSlot {
    frame: Option<Frame>,
}

impl View for FrameSlot {
    type V = Option<Frame>;

    closed spec fn view(&self) -> Option<Frame> {
        self.frame
    }
}

impl Default for FrameSlot {
    fn default() -> (s: FrameSlot)
        ensures
            s@ is None,
    {
        FrameSlot { frame: None }
    }
}

impl FrameSlot {
    /// An empty slot.
    pub fn new() -> (s: FrameSlot)
        ensures
            s@ is None,
    {
        FrameSlot::default()
    }

    /// Puts a frame in and hands back the one that it displaces.
    pub fn put(&mut self, frame: Frame) -> (displaced: Option<Frame>)
        ensures
            final(self)@ == Some(frame),
            displaced == old(self)@,
    {
        let previous: Option<Frame> = self.frame.take();
        self.frame = Some(frame);
        previous
    }

    /// Takes the frame out.
    pub fn take(&mut self) -> (frame: Option<Frame>)
        ensures
            final(self)@ is None,
            frame == old(self)@,
    {
        self.frame.take()
    }

    /// Whether a frame is waiting.
    pub fn is_ready(&self) -> (r: bool)
        ensures
            r == (self@ is Some),
    {
        self.frame.is_some()
    }
}

/// Puts a frame into the slot and gives the buffer of the frame that it displaces back to the
/// pool.
pub fn deliver(pool: &mut FramePool, slot: &mut FrameSlot, frame: Frame)
    requires
        old(pool).valid(),
    ensures
        final(pool).valid(),
        final(pool).size() == old(pool).size(),
        final(pool).hint() == old(pool).hint(),
        final(slot)@ == Some(frame),
        final(pool).idle() == if old(slot)@ is Some {
            after_release(old(pool).idle(), old(pool).size() as int)
        } else {
            old(pool).idle()
        },
{
    if let Some(displaced) = slot.put(frame) {
        pool.release(displaced.buf);
    }
}

/// Buffers are neither lost nor made on the way round: taking one from a pool that has some and
/// delivering it leaves the sum of idle and waiting buffers as it was, and so does taking a
/// waiting frame and giving its buffer back.
pub proof fn buffers_are_conserved(idle: int, waiting: bool, size: int)
    requires
        0 <= idle,
        idle + (if waiting { 1int } else { 0 }) <= size,
    ensures
        ({
            let total = idle + (if waiting { 1int } else { 0 });
            let out = after_acquire(idle);
            let delivered = if waiting {
                after_release(out, size)
            } else {
                out
            };
            &&& idle > 0 ==> delivered + 1 == total
            &&& waiting ==> after_release(idle, size) == total
        }),
{
}

/// A frame for [`FakeCapture`] to replay.
#[derive(Clone, Debug)]
pub struct FrameTemplate {
    pub pixels: Vec<u8>,
    pub width: u32,
    pub height: u32,
    pub stride: u32,
    pub format: PixelFormat,
}

/// The frame that a template and a buffer make.
pub fn fill_template(template: &FrameTemplate, buf: Vec<u8>) -> (frame: Frame)
    ensures
        frame.buf@ == template.pixels@,
        frame.width == template.width,
        frame.height == template.height,
        frame.stride == template.stride,
        frame.format == template.format,
{
    let mut filled: Vec<u8> = buf;
    filled.clear();
    filled.extend_from_slice(template.pixels.as_slice());
    assert(filled@ =~= template.pixels@);
    Frame {
        buf: filled,
        width: template.width,
        height: template.height,
        stride: template.stride,
        format: template.format,
    }
}

/// A capture source that replays frames, one after the other.
pub struct FakeCapture {
    frames: Vec<FrameTemplate>,
    interval_ms: u64,
    next: usize,
}

impl FakeCapture {
    /// The frames to replay.
    pub closed spec fn script(self) -> Seq<FrameTemplate> {
        self.frames@
    }

    /// How many of them were replayed.
    pub closed spec fn played(self) -> int {
        self.next as int
    }

    /// The pause before every frame, in milliseconds.
    pub closed spec fn pause(self) -> u64 {
        self.interval_ms
    }

    /// Whether no more frames were replayed than there are.
    pub open spec fn valid(self) -> bool {
        0 <= self.played() <= self.script().len()
    }

    /// A source that replays the given frames with the given pause before each.
    pub fn new(frames: Vec<FrameTemplate>, interval_ms: u64) -> (c: FakeCapture)
        ensures
            c.valid(),
            c.script() == frames@,
            c.played() == 0,
            c.pause() == interval_ms,
    {
        FakeCapture { frames, interval_ms, next: 0 }
    }

    /// The pause before every frame, in milliseconds.
    pub fn interval_ms(&self) -> (ms: u64)
        ensures
            ms == self.pause(),
    {
        self.interval_ms
    }

    /// Delivers the next frame through the pool and the slot, and tells whether there was one.
    pub fn replay(&mut self, pool: &mut FramePool, slot: &mut FrameSlot) -> (more: bool)
        requires
            old(self).valid(),
            old(pool).valid(),
        ensures
            final(self).valid(),
            final(self).script() == old(self).script(),
            final(self).pause() == old(self).pause(),
            final(pool).valid(),
            final(pool).size() == old(pool).size(),
            final(pool).hint() == old(pool).hint(),
            more == (old(self).played() < old(self).script().len()),
            !more ==> final(self).played() == old(self).played() && final(slot)@ == old(slot)@
                && final(pool).idle() == old(pool).idle(),
            more ==> {
                let t = old(self).script()[old(self).played()];
                let out = after_acquire(old(pool).idle());
                &&& final(self).played() == old(self).played() + 1
                &&& final(slot)@ matches Some(f)
                &&& f.buf@ == t.pixels@
                &&& f.width == t.width
                &&& f.height == t.height
                &&& f.stride == t.stride
                &&& f.format == t.format
                &&& final(pool).idle() == if old(slot)@ is Some {
                    after_release(out, old(pool).size() as int)
                } else {
                    out
                }
            },
    {
        if self.next >= self.frames.len() {
            return false;
        }
        let buf: Vec<u8> = pool.acquire();
        let frame: Frame = fill_template(&self.frames[self.next], buf);
        deliver(pool, slot, frame);
        self.next = self.next + 1;
        true
    }
}

} // verus!
