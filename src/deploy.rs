use vstd::prelude::*;

use crate::error::PatchError;

verus! {

/// A partition device of fixed size, seen as the bytes written to it from
/// its start.
pub struct PartitionSink {
    pub capacity: usize,
    pub data: Vec<u8>,
}

impl PartitionSink {
    pub open spec fn wf(&self) -> bool {
        self.data@.len() <= self.capacity
    }

    /// An empty device of `capacity` bytes.
    pub fn new(capacity: usize) -> (r: PartitionSink)
        ensures
            r.wf(),
            r.capacity == capacity,
            r.data@.len() == 0,
    {
        PartitionSink { capacity, data: Vec::new() }
    }

    /// Writes as much of `buf` as still fits, and says how much that was.
    pub fn write(&mut self, buf: &[u8]) -> (n: usize)
        requires
            old(self).wf(),
        ensures
            final(self).wf(),
            final(self).capacity == old(self).capacity,
            n <= buf@.len(),
            n == if buf@.len() <= old(self).capacity - old(self).data@.len() {
                buf@.len()
            } else {
                (old(self).capacity - old(self).data@.len()) as nat
            },
            final(self).data@ == old(self).data@ + buf@.subrange(0, n as int),
    {
        let room = self.capacity - self.data.len();
        let n = if buf.len() <= room {
            buf.len()
        } else {
            room
        };
        let mut i: usize = 0;
        while i < n
            invariant
                i <= n <= buf@.len(),
                n <= old(self).capacity - old(self).data@.len(),
                self.capacity == old(self).capacity,
                self.data@ == old(self).data@ + buf@.subrange(0, i as int),
            decreases n - i,
        {
            self.data.push(buf[i]);
            i = i + 1;
            assert(self.data@ =~= old(self).data@ + buf@.subrange(0, i as int));
        }
        n
    }
}

/// Checks that a device took the whole image: `FlashIncomplete` on any
/// short write.
pub fn check_written(expected: usize, written: usize) -> (r: Result<(), PatchError>)
    ensures
        r is Ok <==> written == expected,
        r is Err ==> r == Err::<(), PatchError>(
            PatchError::FlashIncomplete { expected, written },
        ),
{
    if written == expected {
        Ok(())
    } else {
        Err(PatchError::FlashIncomplete { expected, written })
    }
}

/// Streams `image` onto an empty device once, without retrying. An image
/// that fits is written whole and nothing more; one that does not fills
/// the device and is reported as `FlashIncomplete`.
pub fn flash(sink: &mut PartitionSink, image: &Vec<u8>) -> (r: Result<usize, PatchError>)
    requires
        old(sink).wf(),
        old(sink).data@.len() == 0,
    ensures
        final(sink).wf(),
        final(sink).capacity == old(sink).capacity,
        image@.len() <= old(sink).capacity ==> r == Ok::<usize, PatchError>(image@.len() as usize)
            && final(sink).data@ == image@,
        image@.len() > old(sink).capacity ==> r == Err::<usize, PatchError>(
            PatchError::FlashIncomplete { expected: image@.len() as usize, written: old(sink).capacity },
        ) && final(sink).data@ == image@.subrange(0, old(sink).capacity as int),
{
    let written = sink.write(image.as_slice());
    proof {
        assert(sink.data@ =~= image@.subrange(0, written as int));
    }
    match check_written(image.len(), written) {
        Ok(()) => {
            assert(image@.subrange(0, written as int) =~= image@);
            Ok(written)
        },
        Err(e) => Err(e),
    }
}

} // verus!
