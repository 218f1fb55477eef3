use vstd::prelude::*;

use crate::error::PatchError;

verus! {

/// The ramdisk encodings this engine recognises by their leading bytes.
#[derive(Debug, Clone, Copy, PartialEq, Eq, Structural)]
pub enum Codec {
    /// An uncompressed `newc` cpio archive.
    Cpio,
    Gzip,
    /// An LZ4 frame.
    Lz4,
    Zstd,
}

/// The leading bytes that mark data in `codec`.
pub open spec fn signature(codec: Codec) -> Seq<u8> {
    match codec {
        Codec::Cpio => seq![0x30u8, 0x37u8, 0x30u8, 0x37u8, 0x30u8, 0x31u8],
        Codec::Gzip => seq![0x1fu8, 0x8bu8],
        Codec::Lz4 => seq![0x04u8, 0x22u8, 0x4du8, 0x18u8],
        Codec::Zstd => seq![0x28u8, 0xb5u8, 0x2fu8, 0xfdu8],
    }
}

pub open spec fn starts_with(b: Seq<u8>, p: Seq<u8>) -> bool {
    p.len() <= b.len() && b.subrange(0, p.len() as int) == p
}

pub open spec fn marked(b: Seq<u8>, codec: Codec) -> bool {
    starts_with(b, signature(codec))
}

fn has_prefix(b: &Vec<u8>, p: &[u8]) -> (r: bool)
    ensures
        r == starts_with(b@, p@),
{
    if p.len() > b.len() {
        return false;
    }
    let mut i: usize = 0;
    while i < p.len()
        invariant
            i <= p@.len() <= b@.len(),
            forall|j: int| 0 <= j < i ==> b@[j] == p@[j],
        decreases p@.len() - i,
    {
        if b[i] != p[i] {
            assert(b@.subrange(0, p@.len() as int)[i as int] != p@[i as int]);
            return false;
        }
        i = i + 1;
    }
    assert(b@.subrange(0, p@.len() as int) =~= p@);
    true
}

/// Identifies the encoding of a ramdisk by its leading bytes. It fails with
/// `UnsupportedCompression` exactly when no known signature matches.
pub fn sniff(b: &Vec<u8>) -> (r: Result<Codec, PatchError>)
    ensures
        r matches Ok(c) ==> marked(b@, c),
        r is Err <==> forall|c: Codec| !marked(b@, c),
        r is Err ==> r == Err::<Codec, PatchError>(PatchError::UnsupportedCompression),
{
    let cpio: [u8; 6] = [0x30, 0x37, 0x30, 0x37, 0x30, 0x31];
    let gzip: [u8; 2] = [0x1f, 0x8b];
    let lz4: [u8; 4] = [0x04, 0x22, 0x4d, 0x18];
    let zstd: [u8; 4] = [0x28, 0xb5, 0x2f, 0xfd];
    proof {
        assert(cpio@ =~= signature(Codec::Cpio));
        assert(gzip@ =~= signature(Codec::Gzip));
        assert(lz4@ =~= signature(Codec::Lz4));
        assert(zstd@ =~= signature(Codec::Zstd));
    }
    if has_prefix(b, &cpio) {
        assert(marked(b@, Codec::Cpio));
        Ok(Codec::Cpio)
    } else if has_prefix(b, &gzip) {
        assert(marked(b@, Codec::Gzip));
        Ok(Codec::Gzip)
    } else if has_prefix(b, &lz4) {
        assert(marked(b@, Codec::Lz4));
        Ok(Codec::Lz4)
    } else if has_prefix(b, &zstd) {
        assert(marked(b@, Codec::Zstd));
        Ok(Codec::Zstd)
    } else {
        proof {
            assert forall|c: Codec| !marked(b@, c) by {
                match c {
                    Codec::Cpio => {},
                    Codec::Gzip => {},
                    Codec::Lz4 => {},
                    Codec::Zstd => {},
                }
            }
        }
        Err(PatchError::UnsupportedCompression)
    }
}

} // verus!
