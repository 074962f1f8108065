use vstd::prelude::*;

verus! {

/// The contents of the block device, held in memory: reads and writes at
/// byte offsets, as on a file. The caller loads it from the device and
/// writes it back.
#[derive(Debug)]
pub struct BlockImage {
    pub data: Vec<u8>,
}

/// The contents after writing `d` at `off`: a write past the end first
/// fills the gap with zeros, as a file does.
pub open spec fn spec_write(img: Seq<u8>, off: int, d: Seq<u8>) -> Seq<u8> {
    let n = if img.len() > off + d.len() {
        img.len() as int
    } else {
        off + d.len()
    };
    Seq::new(
        n as nat,
        |i: int|
            if off <= i < off + d.len() {
                d[i - off]
            } else if i < img.len() {
                img[i]
            } else {
                0u8
            },
    )
}

/// What a write puts on the device, a read of the same range gives back;
/// the bytes outside the range stay as they were, and the device grows to
/// hold the range.
pub proof fn lemma_read_after_write(img: Seq<u8>, off: int, d: Seq<u8>)
    requires
        0 <= off,
    ensures
        spec_write(img, off, d).subrange(off, off + d.len()) == d,
        forall|i: int|
            0 <= i < img.len() && !(off <= i < off + d.len()) ==> #[trigger] spec_write(img, off, d)[i]
                == img[i],
        spec_write(img, off, d).len() >= img.len(),
        spec_write(img, off, d).len() >= off + d.len(),
{
    assert(spec_write(img, off, d).subrange(off, off + d.len()) =~= d);
}

impl BlockImage {
    pub fn new(data: Vec<u8>) -> (img: Self)
        ensures
            img.data@ == data@,
    {
        BlockImage { data }
    }

    /// The `len` bytes at `offset`; reading past the end fails on the
    /// device and is left out by the precondition.
    pub fn read(&self, offset: u64, len: u64) -> (r: Vec<u8>)
        requires
            offset + len <= self.data@.len(),
        ensures
            r@ == self.data@.subrange(offset as int, offset + len),
    {
        let n = self.data.len();
        let start = offset as usize;
        let end = start + len as usize;
        let mut r: Vec<u8> = Vec::new();
        let mut i = start;
        while i < end
            invariant
                start <= i <= end <= self.data@.len(),
                r@ == self.data@.subrange(start as int, i as int),
            decreases end - i,
        {
            r.push(self.data[i]);
            i = i + 1;
            assert(r@ =~= self.data@.subrange(start as int, i as int));
        }
        r
    }

    /// Writes `data` at `offset`.
    pub fn write(&mut self, offset: u64, data: &[u8])
        requires
            offset + data@.len() <= usize::MAX,
        ensures
            final(self).data@ == spec_write(old(self).data@, offset as int, data@),
    {
        let off = offset as usize;
        let ghost img = self.data@;
        while self.data.len() < off
            invariant
                off as int + data@.len() <= usize::MAX,
                img.len() <= self.data@.len() <= off || self.data@.len() == img.len(),
                self.data@.subrange(0, img.len() as int) == img,
                forall|i: int| img.len() <= i < self.data@.len() ==> self.data@[i] == 0u8,
            decreases off - self.data@.len(),
        {
            self.data.push(0u8);
        }
        let ghost padded = self.data@;
        let mut j: usize = 0;
        while j < data.len()
            invariant
                j <= data@.len(),
                off as int + data@.len() <= usize::MAX,
                off <= padded.len(),
                self.data@.len() == if padded.len() > off + j {
                    padded.len() as int
                } else {
                    off + j
                },
                forall|i: int|
                    0 <= i < self.data@.len() ==> #[trigger] self.data@[i] == if off <= i < off + j {
                        data@[i - off]
                    } else {
                        padded[i]
                    },
            decreases data@.len() - j,
        {
            if off + j < self.data.len() {
                self.data.set(off + j, data[j]);
            } else {
                self.data.push(data[j]);
            }
            j = j + 1;
        }
        proof {
            let target = spec_write(img, offset as int, data@);
            assert(self.data@.len() == target.len());
            assert forall|i: int| 0 <= i < self.data@.len() implies self.data@[i] == target[i] by {
                if !(off <= i < off + data@.len()) {
                    if i < img.len() {
                        assert(padded.subrange(0, img.len() as int)[i] == img[i]);
                    }
                }
            }
            assert(self.data@ =~= target);
        }
    }
}

} // verus!
