use vstd::prelude::*;

use crate::bootimg::{fits, pack, packed, unpack, BootImage, KERNEL, RAMDISK};
use crate::codec::{marked, signature, sniff, Codec};
use crate::cpio::{
    already_patched, archive_bytes, entry_ok, exec_entry, first_init, has_init, holds,
    init_name, inject_module, injected, lemma_holds_entries_ok, lemma_holds_unique, models,
    module_name, read_archive, real_init_name, write_archive, EntryModel,
};
use crate::error::PatchError;

verus! {

/// Replaces the kernel of the image held in `image` and repacks it. It
/// succeeds exactly when `image` is an image whose ramdisk is in a known
/// encoding, with a kernel slot whose new kernel fits its size field, and
/// then returns that image repacked with the new kernel.
pub fn patch_kernel(image: &Vec<u8>, kernel: Vec<u8>) -> (r: Result<Vec<u8>, PatchError>)
    ensures
        r is Ok <==> exists|w: BootImage| #[trigger]
            w.is_image_of(image@) && (exists|c: Codec| marked(w.parts()[RAMDISK as int], c))
                && w.has_kernel_slot() && fits(w.parts().update(KERNEL as int, kernel@)),
        (exists|w: BootImage| #[trigger]
            w.is_image_of(image@) && forall|c: Codec| !marked(w.parts()[RAMDISK as int], c))
            ==> r == Err::<Vec<u8>, PatchError>(PatchError::UnsupportedCompression),
        (exists|w: BootImage| #[trigger]
            w.is_image_of(image@) && (exists|c: Codec| marked(w.parts()[RAMDISK as int], c))
                && !w.has_kernel_slot()) ==> r == Err::<Vec<u8>, PatchError>(
            PatchError::NoKernelSlot,
        ),
        (exists|w: BootImage| #[trigger]
            w.is_image_of(image@) && (exists|c: Codec| marked(w.parts()[RAMDISK as int], c))
                && w.has_kernel_slot() && !fits(w.parts().update(KERNEL as int, kernel@))) ==> r matches Err(
            PatchError::SerializationOverflow { .. },
        ),
        r matches Ok(out) ==> exists|w: BootImage| #[trigger]
            w.is_image_of(image@) && out@ == packed(
                w.version,
                w.header@,
                w.parts().update(KERNEL as int, kernel@),
                w.tail@,
            ),
        (forall|w: BootImage| !#[trigger] w.is_image_of(image@)) ==> r matches Err(
            PatchError::InvalidFormat { .. },
        ),
{
    let ghost k = kernel@;
    let mut img = match unpack(image) {
        Ok(img) => img,
        Err(e) => {
            return Err(e);
        },
    };
    let ghost orig = img;
    proof {
        assert forall|w: BootImage| #[trigger] w.is_image_of(image@) implies w.version
            == orig.version && w.header@ == orig.header@ && w.parts() == orig.parts() && w.tail@
            == orig.tail@ by {
            crate::bootimg::lemma_image_unique(
                image@,
                w.version,
                w.header@,
                w.parts(),
                w.tail@,
                orig.version,
                orig.header@,
                orig.parts(),
                orig.tail@,
            );
        }
    }
    match sniff(img.ramdisk()) {
        Ok(_) => {},
        Err(e) => {
            return Err(e);
        },
    }
    match img.replace_kernel(kernel) {
        Ok(()) => {},
        Err(e) => {
            return Err(e);
        },
    }
    let out = pack(&img);
    proof {
        if out is Ok {
            assert(orig.is_image_of(image@));
        }
    }
    out
}

/// Injects a kernel module into the `newc` archive held in `archive` and
/// writes the archive again: the first `init` entry is kept as
/// `init.real`, `init` becomes the new init and the module is added as
/// `kernelsu.ko`. It succeeds exactly when the bytes are an archive with an
/// `init` entry, not patched before, and the new init and module fit their
/// size fields.
pub fn inject_into_archive(archive: &Vec<u8>, init: Vec<u8>, module: Vec<u8>) -> (r: Result<
    Vec<u8>,
    PatchError,
>)
    ensures
        r is Ok <==> exists|ms: Seq<EntryModel>| #[trigger]
            holds(archive@, 0, ms) && has_init(ms) && !already_patched(ms) && init@.len()
                <= u32::MAX && module@.len() <= u32::MAX,
        r matches Ok(out) ==> exists|ms: Seq<EntryModel>, k: int| #[trigger]
            holds(archive@, 0, ms) && #[trigger] first_init(ms, k) && out@ == archive_bytes(
                injected(ms, k, init@, module@),
            ),
        (forall|ms: Seq<EntryModel>| !#[trigger] holds(archive@, 0, ms)) ==> r matches Err(
            PatchError::CorruptRamdisk { .. },
        ),
        (exists|ms: Seq<EntryModel>| #[trigger] holds(archive@, 0, ms) && !has_init(ms)) ==> r
            == Err::<Vec<u8>, PatchError>(PatchError::InitEntryMissing),
        (exists|ms: Seq<EntryModel>| #[trigger]
            holds(archive@, 0, ms) && has_init(ms) && already_patched(ms)) ==> r == Err::<
            Vec<u8>,
            PatchError,
        >(PatchError::AlreadyPatched),
        r is Err ==> r matches Err(PatchError::CorruptRamdisk { .. }) || r == Err::<
            Vec<u8>,
            PatchError,
        >(PatchError::InitEntryMissing) || r == Err::<Vec<u8>, PatchError>(
            PatchError::AlreadyPatched,
        ) || r matches Err(PatchError::SerializationOverflow { .. }),
        r matches Err(PatchError::CorruptRamdisk { .. }) ==> forall|ms: Seq<EntryModel>|
            !#[trigger] holds(archive@, 0, ms),
        r == Err::<Vec<u8>, PatchError>(PatchError::InitEntryMissing) ==> exists|
            ms: Seq<EntryModel>,
        | #[trigger] holds(archive@, 0, ms) && !has_init(ms),
        r == Err::<Vec<u8>, PatchError>(PatchError::AlreadyPatched) ==> exists|
            ms: Seq<EntryModel>,
        | #[trigger] holds(archive@, 0, ms) && has_init(ms) && already_patched(ms),
{
    let ghost ilen = init@.len();
    let ghost mlen = module@.len();
    let ghost init_v = init@;
    let ghost module_v = module@;
    let mut es = match read_archive(archive) {
        Ok(es) => es,
        Err(e) => {
            return Err(e);
        },
    };
    let ghost before = models(es@);
    proof {
        lemma_holds_entries_ok(archive@, 0, before);
        assert forall|ms: Seq<EntryModel>| #[trigger] holds(archive@, 0, ms) implies ms
            == before by {
            lemma_holds_unique(archive@, 0, ms, before);
        }
        assert forall|i: int| 0 <= i < before.len() implies (#[trigger] before[i]).meta.len()
            == 11 by {
            assert(before[i] == es@[i]@);
        }
    }
    match inject_module(&mut es, init, module) {
        Ok(()) => {},
        Err(e) => {
            return Err(e);
        },
    }
    let ghost after = es@;
    let ghost k = choose|k: int| #[trigger]
        first_init(before, k) && models(after) == injected(before, k, init_v, module_v);
    let ghost inj = injected(before, k, init_v, module_v);
    proof {
        assert(models(after).len() == after.len());
        assert(inj.len() == before.len() + 2);
        assert(real_init_name().len() == 9);
        assert forall|i: int| 0 <= i < es@.len() implies (#[trigger] es@[i])@.meta.len() == 11
            && (entry_ok(es@[i]@) <== (i < before.len() || (ilen <= u32::MAX && mlen
            <= u32::MAX))) && (entry_ok(es@[i]@) ==> (i < before.len() || (i == before.len()
            && ilen <= u32::MAX) || (i == before.len() + 1 && mlen <= u32::MAX))) by {
            assert(models(after)[i] == es@[i]@);
            assert(inj[i] == es@[i]@);
            if i < before.len() {
                if i != k {
                    assert(inj[i] == before[i]);
                } else {
                    assert(inj[i].meta == before[k].meta);
                    assert(inj[i].data == before[k].data);
                    assert(inj[i].name == real_init_name());
                }
            } else if i == before.len() {
                assert(inj[i] == exec_entry(init_name(), init_v));
            } else {
                assert(i == before.len() + 1);
                assert(inj[i] == exec_entry(module_name(), module_v));
            }
        }
        if ilen > u32::MAX {
            assert(!entry_ok(es@[before.len() as int]@));
        }
        if mlen > u32::MAX {
            assert(!entry_ok(es@[before.len() + 1int]@));
        }
    }
    let r = write_archive(&es);
    proof {
        if r is Ok {
            assert(holds(archive@, 0, before) && first_init(before, k));
        }
    }
    r
}

/// What module injection on a whole image came to.
#[derive(Debug)]
pub enum ModulePatch {
    /// The ramdisk was an uncompressed archive: the patched image.
    Patched(Vec<u8>),
    /// The ramdisk is compressed with this codec: it has to be decoded,
    /// patched with `inject_into_archive`, encoded again and put back with
    /// `BootImage::replace_ramdisk`.
    Compressed(Codec),
}

/// Whether injecting into the archive that `ramdisk` holds, then packing
/// the image `w` with the result as its ramdisk, succeeds.
pub open spec fn module_patch_ok(w: BootImage, init: Seq<u8>, module: Seq<u8>) -> bool {
    let rd = w.parts()[RAMDISK as int];
    &&& exists|ms: Seq<EntryModel>| #[trigger]
        holds(rd, 0, ms) && has_init(ms) && !already_patched(ms)
    &&& init.len() <= u32::MAX
    &&& module.len() <= u32::MAX
    &&& forall|ms: Seq<EntryModel>, k: int| #[trigger]
        holds(rd, 0, ms) && #[trigger] first_init(ms, k) ==> fits(
            w.parts().update(RAMDISK as int, archive_bytes(injected(ms, k, init, module))),
        )
}

/// Injects a kernel module into the ramdisk of the image held in `image`
/// and repacks it, where the ramdisk is an uncompressed archive; a
/// compressed one is reported with its codec and left to the caller.
pub fn patch_module(image: &Vec<u8>, init: Vec<u8>, module: Vec<u8>) -> (r: Result<
    ModulePatch,
    PatchError,
>)
    ensures
        (forall|w: BootImage| !#[trigger] w.is_image_of(image@)) ==> r matches Err(
            PatchError::InvalidFormat { .. },
        ),
        (exists|w: BootImage| #[trigger]
            w.is_image_of(image@) && forall|c: Codec| !marked(w.parts()[RAMDISK as int], c))
            ==> r == Err::<ModulePatch, PatchError>(PatchError::UnsupportedCompression),
        r matches Ok(ModulePatch::Compressed(c)) ==> c != Codec::Cpio && exists|w: BootImage|
            #[trigger]
            w.is_image_of(image@) && marked(w.parts()[RAMDISK as int], c),
        (exists|w: BootImage, c: Codec| #[trigger]
            w.is_image_of(image@) && c != Codec::Cpio && #[trigger] marked(
                w.parts()[RAMDISK as int],
                c,
            )) ==> r matches Ok(ModulePatch::Compressed(_)),
        (exists|w: BootImage| #[trigger]
            w.is_image_of(image@) && marked(w.parts()[RAMDISK as int], Codec::Cpio) && forall|
                ms: Seq<EntryModel>,
            | !#[trigger] holds(w.parts()[RAMDISK as int], 0, ms)) ==> r matches Err(
            PatchError::CorruptRamdisk { .. },
        ),
        (exists|w: BootImage| #[trigger]
            w.is_image_of(image@) && marked(w.parts()[RAMDISK as int], Codec::Cpio) && exists|
                ms: Seq<EntryModel>,
            | #[trigger] holds(w.parts()[RAMDISK as int], 0, ms) && !has_init(ms)) ==> r == Err::<
            ModulePatch,
            PatchError,
        >(PatchError::InitEntryMissing),
        (exists|w: BootImage| #[trigger]
            w.is_image_of(image@) && marked(w.parts()[RAMDISK as int], Codec::Cpio) && exists|
                ms: Seq<EntryModel>,
            | #[trigger] holds(w.parts()[RAMDISK as int], 0, ms) && has_init(ms) && already_patched(
                ms,
            )) ==> r == Err::<ModulePatch, PatchError>(PatchError::AlreadyPatched),
        (exists|w: BootImage| #[trigger]
            w.is_image_of(image@) && marked(w.parts()[RAMDISK as int], Codec::Cpio) && (exists|
                ms: Seq<EntryModel>,
            | #[trigger] holds(w.parts()[RAMDISK as int], 0, ms) && has_init(ms) && !already_patched(
                ms,
            )) && !module_patch_ok(w, init@, module@)) ==> r matches Err(
            PatchError::SerializationOverflow { .. },
        ),
        r matches Ok(ModulePatch::Patched(_)) <==> exists|w: BootImage| #[trigger]
            w.is_image_of(image@) && marked(w.parts()[RAMDISK as int], Codec::Cpio)
                && module_patch_ok(w, init@, module@),
        r matches Ok(ModulePatch::Patched(out)) ==> exists|w: BootImage, ms: Seq<EntryModel>, k: int|
            #![trigger w.is_image_of(image@), first_init(ms, k)]
            w.is_image_of(image@) && holds(w.parts()[RAMDISK as int], 0, ms) && first_init(ms, k)
                && out@ == packed(
                w.version,
                w.header@,
                w.parts().update(RAMDISK as int, archive_bytes(injected(ms, k, init@, module@))),
                w.tail@,
            ),
{
    let ghost init_v = init@;
    let ghost module_v = module@;
    let mut img = match unpack(image) {
        Ok(img) => img,
        Err(e) => {
            return Err(e);
        },
    };
    let ghost orig = img;
    proof {
        assert forall|w: BootImage| #[trigger] w.is_image_of(image@) implies w.version
            == orig.version && w.header@ == orig.header@ && w.parts() == orig.parts() && w.tail@
            == orig.tail@ by {
            crate::bootimg::lemma_image_unique(
                image@,
                w.version,
                w.header@,
                w.parts(),
                w.tail@,
                orig.version,
                orig.header@,
                orig.parts(),
                orig.tail@,
            );
        }
    }
    let ghost rd = orig.parts()[RAMDISK as int];
    let codec = match sniff(img.ramdisk()) {
        Ok(c) => c,
        Err(e) => {
            return Err(e);
        },
    };
    proof {
        assert(marked(rd, codec));
        assert(rd[0] == signature(codec)[0]);
        assert forall|c: Codec| marked(rd, c) implies c == codec by {
            assert(rd[0] == signature(c)[0]);
        }
    }
    if codec != Codec::Cpio {
        proof {
            assert(orig.is_image_of(image@));
        }
        return Ok(ModulePatch::Compressed(codec));
    }
    let archive = match inject_into_archive(img.ramdisk(), init, module) {
        Ok(a) => a,
        Err(e) => {
            proof {
                assert(orig.is_image_of(image@));
                assert forall|ms1: Seq<EntryModel>, ms2: Seq<EntryModel>|
                    #[trigger] holds(rd, 0, ms1) && #[trigger] holds(rd, 0, ms2) implies ms1
                    == ms2 by {
                    lemma_holds_unique(rd, 0, ms1, ms2);
                }
            }
            return Err(e);
        },
    };
    let ghost ms = choose|ms: Seq<EntryModel>| #[trigger]
        holds(rd, 0, ms) && exists|k: int| #[trigger]
            first_init(ms, k) && archive@ == archive_bytes(injected(ms, k, init_v, module_v));
    let ghost k = choose|k: int| #[trigger]
        first_init(ms, k) && archive@ == archive_bytes(injected(ms, k, init_v, module_v));
    proof {
        assert forall|ms2: Seq<EntryModel>, k2: int|
            holds(rd, 0, ms2) && first_init(ms2, k2) implies ms2 == ms && k2 == k by {
            lemma_holds_unique(rd, 0, ms2, ms);
            if k2 < k {
                assert(ms[k2].name != init_name());
            } else if k < k2 {
                assert(ms2[k].name != init_name());
            }
        }
    }
    img.replace_ramdisk(archive);
    let out = pack(&img);
    proof {
        assert(orig.is_image_of(image@));
    }
    match out {
        Ok(o) => Ok(ModulePatch::Patched(o)),
        Err(e) => Err(e),
    }
}
/// Module injection on a whole image keeps the ramdisk's entries: the
/// patched image unpacks, with every component but the ramdisk unchanged,
/// and its ramdisk reads back as exactly the injected entries: every
/// earlier entry in its place and unchanged, the init entry renamed to
/// `init.real` with its metadata and content kept, then the new init and
/// the module.
#[verifier::rlimit(100)]
pub proof fn lemma_module_patch_preserves_entries(
    w: BootImage,
    ms: Seq<EntryModel>,
    k: int,
    init: Seq<u8>,
    module: Seq<u8>,
    w2: BootImage,
    back: Seq<EntryModel>,
)
    requires
        w.wf(),
        holds(w.parts()[RAMDISK as int], 0, ms),
        first_init(ms, k),
        init.len() <= u32::MAX,
        module.len() <= u32::MAX,
        fits(w.parts().update(RAMDISK as int, archive_bytes(injected(ms, k, init, module)))),
    ensures
        crate::bootimg::is_image(
            packed(
                w.version,
                w.header@,
                w.parts().update(RAMDISK as int, archive_bytes(injected(ms, k, init, module))),
                w.tail@,
            ),
        ),
        holds(archive_bytes(injected(ms, k, init, module)), 0, injected(ms, k, init, module)),
        w2.is_image_of(
            packed(
                w.version,
                w.header@,
                w.parts().update(RAMDISK as int, archive_bytes(injected(ms, k, init, module))),
                w.tail@,
            ),
        ) && holds(w2.parts()[RAMDISK as int], 0, back) ==> {
            &&& forall|i: int|
                0 <= i < w.parts().len() && i != RAMDISK ==> #[trigger] w2.parts()[i]
                    == w.parts()[i]
            &&& back.len() == ms.len() + 2
            &&& forall|i: int| 0 <= i < ms.len() && i != k ==> #[trigger] back[i] == ms[i]
            &&& back[k].name == real_init_name()
            &&& back[k].meta == ms[k].meta
            &&& back[k].data == ms[k].data
            &&& back[ms.len() as int] == exec_entry(init_name(), init)
            &&& back[ms.len() + 1int] == exec_entry(module_name(), module)
        },
{
    let a = archive_bytes(injected(ms, k, init, module));
    let parts = w.parts().update(RAMDISK as int, a);
    assert(parts.len() == w.parts().len());
    crate::bootimg::lemma_packed_encodes(w.version, w.header@, parts, w.tail@);
    lemma_holds_entries_ok(w.parts()[RAMDISK as int], 0, ms);
    let inj = injected(ms, k, init, module);
    assert forall|i: int| 0 <= i < inj.len() implies entry_ok(#[trigger] inj[i]) && inj[i].name
        != crate::cpio::trailer_name() by {
        assert(real_init_name().len() == 9);
        if i < ms.len() && i != k {
            assert(inj[i] == ms[i]);
        }
    }
    crate::cpio::lemma_archive_holds(inj);
    if w2.is_image_of(packed(w.version, w.header@, parts, w.tail@)) && holds(
        w2.parts()[RAMDISK as int],
        0,
        back,
    ) {
        crate::bootimg::lemma_unpack_packed(w.version, w.header@, parts, w.tail@, w2);
        crate::cpio::lemma_injection_preserves_entries(ms, k, init, module, back);
    }
}
} // verus!
