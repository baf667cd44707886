//! Bytes that wait to be sent to the target.
use vstd::prelude::*;
use vstd::slice::slice_subrange;

verus! {

/// The most bytes that wait.
pub const MAX_DOWN_BUFFER_BYTES: usize = 65536;

/// Bytes that wait to be sent, in the order in which they came.
pub struct DownBuffer {
    pub bytes: Vec<u8>,
    /// The bytes that found no room.
    pub dropped: u64,
}

/// How many of `count` bytes find room behind `waiting` ones.
pub open spec fn room(waiting: int, count: int) -> int {
    if waiting + count <= MAX_DOWN_BUFFER_BYTES {
        count
    } else if waiting <= MAX_DOWN_BUFFER_BYTES {
        MAX_DOWN_BUFFER_BYTES - waiting
    } else {
        0
    }
}

impl DownBuffer {
    /// No more bytes wait than are allowed to.
    pub open spec fn wf(self) -> bool {
        self.bytes@.len() <= MAX_DOWN_BUFFER_BYTES
    }

    /// Nothing waits.
    pub fn new() -> (buffer: Self)
        ensures
            buffer.wf(),
            buffer.bytes@ == Seq::<u8>::empty(),
            buffer.dropped == 0,
    {
        DownBuffer { bytes: Vec::new(), dropped: 0 }
    }

    /// Adds bytes as far as there is room. The others are dropped and counted.
    pub fn push(&mut self, data: &[u8])
        requires
            old(self).dropped + (data@.len() - room(
                old(self).bytes@.len() as int,
                data@.len() as int,
            )) <= u64::MAX,
        ensures
            ({
                let taken = room(old(self).bytes@.len() as int, data@.len() as int);
                &&& final(self).bytes@ == old(self).bytes@ + data@.take(taken)
                &&& final(self).dropped == old(self).dropped + (data@.len() - taken)
            }),
            old(self).wf() ==> final(self).wf(),
    {
        let space = if self.bytes.len() < MAX_DOWN_BUFFER_BYTES {
            MAX_DOWN_BUFFER_BYTES - self.bytes.len()
        } else {
            0
        };
        if data.len() > space {
            let dropped = data.len() - space;
            self.dropped = self.dropped + dropped as u64;
            self.bytes.extend_from_slice(slice_subrange(data, 0, space));
            assert(data@.subrange(0, space as int) =~= data@.take(space as int));
        } else {
            self.bytes.extend_from_slice(data);
            assert(data@.take(data@.len() as int) =~= data@);
        }
        assert(self.bytes@ =~= old(self).bytes@ + data@.take(
            room(old(self).bytes@.len() as int, data@.len() as int),
        ));
    }

    /// Nothing waits.
    pub fn is_empty(&self) -> (empty: bool)
        ensures
            empty == (self.bytes@.len() == 0),
    {
        self.bytes.len() == 0
    }

    /// How many bytes wait.
    pub fn len(&self) -> (count: usize)
        ensures
            count == self.bytes@.len(),
    {
        self.bytes.len()
    }

    /// Forgets what waits.
    pub fn clear(&mut self)
        ensures
            final(self).wf(),
            final(self).bytes@ == Seq::<u8>::empty(),
            final(self).dropped == old(self).dropped,
    {
        self.bytes.clear();
    }

    /// What waits, to be sent from its front.
    pub fn writable(&mut self) -> (waiting: &mut [u8])
        ensures
            waiting@ == old(self).bytes@,
            final(self).bytes@ == final(waiting)@,
            final(self).dropped == old(self).dropped,
    {
        self.bytes.as_mut_slice()
    }

    /// Takes away bytes that have been sent.
    pub fn consume(&mut self, count: usize)
        requires
            count <= old(self).bytes@.len(),
        ensures
            final(self).bytes@ == old(self).bytes@.skip(count as int),
            final(self).dropped == old(self).dropped,
            old(self).wf() ==> final(self).wf(),
    {
        let rest = self.bytes.split_off(count);
        self.bytes = rest;
        assert(self.bytes@ =~= old(self).bytes@.skip(count as int));
    }
}

/// Bytes are sent in the order in which they came: what is sent of a buffer and
/// what stays in it are together what was there, and of new bytes the first ones
/// find room.
pub proof fn law_first_in_first_out(waiting: Seq<u8>, data: Seq<u8>, count: int)
    requires
        0 <= count <= waiting.len(),
    ensures
        ({
            let taken = room(waiting.len() as int, data.len() as int);
            &&& 0 <= taken <= data.len()
            &&& waiting.take(count) + (waiting.skip(count) + data.take(taken)) == waiting
                + data.take(taken)
            &&& waiting.len() + data.len() <= MAX_DOWN_BUFFER_BYTES ==> taken == data.len()
        }),
{
    let taken = room(waiting.len() as int, data.len() as int);
    assert(waiting.take(count) + (waiting.skip(count) + data.take(taken)) =~= waiting + data.take(
        taken,
    ));
}

/// Room is what is missing to sixty-four kibibytes: bytes find room as long as no more
/// than those wait, and none is turned away while there is room.
pub proof fn law_room_is_used(waiting: int, count: int)
    requires
        0 <= waiting <= 65536,
        0 <= count,
    ensures
        0 <= room(waiting, count) <= count,
        waiting + room(waiting, count) <= 65536,
        room(waiting, count) < count ==> waiting + room(waiting, count) == 65536,
{
}

} // verus!
