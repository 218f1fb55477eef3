use ksud::bootimg::{pack, unpack, BootImage, KERNEL, RAMDISK};
use ksud::codec::{sniff, Codec};
use ksud::cpio::{read_archive, write_archive, RamdiskEntry};
use ksud::error::PatchError;
use ksud::patch::{patch_module, ModulePatch};
use sha1::Digest;

fn put_u32(b: &mut [u8], off: usize, v: u32) {
    b[off..off + 4].copy_from_slice(&v.to_le_bytes());
}

fn padded(mut c: Vec<u8>, page: usize) -> Vec<u8> {
    while c.len() % page != 0 {
        c.push(0);
    }
    c
}

/// A version 0 image with the given components and a zero id.
fn image_v0(kernel: &[u8], ramdisk: &[u8], second: &[u8]) -> Vec<u8> {
    let page = 2048usize;
    let mut h = vec![0u8; page];
    h[..8].copy_from_slice(b"ANDROID!");
    put_u32(&mut h, 8, kernel.len() as u32);
    put_u32(&mut h, 16, ramdisk.len() as u32);
    put_u32(&mut h, 24, second.len() as u32);
    put_u32(&mut h, 36, page as u32);
    put_u32(&mut h, 40, 0);
    h[64..72].copy_from_slice(b"cmdline!");
    let mut out = h;
    out.extend(padded(kernel.to_vec(), page));
    out.extend(padded(ramdisk.to_vec(), page));
    out.extend(padded(second.to_vec(), page));
    out
}

/// A version 4 image (page size 4096) with a boot signature component.
fn image_v4(kernel: &[u8], ramdisk: &[u8], tail: &[u8]) -> Vec<u8> {
    let page = 4096usize;
    let mut h = vec![0u8; page];
    h[..8].copy_from_slice(b"ANDROID!");
    put_u32(&mut h, 8, kernel.len() as u32);
    put_u32(&mut h, 12, ramdisk.len() as u32);
    put_u32(&mut h, 40, 4);
    put_u32(&mut h, 1580, 0);
    let mut out = h;
    out.extend(padded(kernel.to_vec(), page));
    out.extend(padded(ramdisk.to_vec(), page));
    out.extend_from_slice(tail);
    out
}

fn entry(name: &str, mode: u32, data: &[u8]) -> RamdiskEntry {
    RamdiskEntry {
        meta: vec![7, mode, 0, 0, 1, 1234, 0, 0, 0, 0, 0],
        name: name.as_bytes().to_vec(),
        data: data.to_vec(),
    }
}

fn init_only_ramdisk() -> Vec<u8> {
    write_archive(&vec![entry("init", 0o100750, b"\x7fELF-original-init")]).unwrap()
}

#[test]
fn bad_magic_is_invalid_format() {
    let mut b = image_v0(b"kern", b"ram", b"");
    b[0] = b'X';
    assert!(matches!(unpack(&b), Err(PatchError::InvalidFormat { .. })));
    assert!(matches!(unpack(&vec![1, 2, 3]), Err(PatchError::InvalidFormat { .. })));
}

#[test]
fn unknown_version_is_invalid_format() {
    let mut b = image_v0(b"kern", b"ram", b"");
    put_u32(&mut b, 40, 9);
    assert!(matches!(unpack(&b), Err(PatchError::InvalidFormat { offset: 40 })));
}

#[test]
fn truncated_component_is_invalid_format() {
    let mut b = image_v0(b"kern", b"ram", b"");
    put_u32(&mut b, 16, 100_000);
    assert!(matches!(unpack(&b), Err(PatchError::InvalidFormat { .. })));
}

#[test]
fn nonzero_padding_is_invalid_format() {
    let mut b = image_v0(b"kern", b"ram", b"");
    b[2048 + 10] = 1;
    assert!(matches!(unpack(&b), Err(PatchError::InvalidFormat { .. })));
}

#[test]
fn unpack_splits_components() {
    let b = image_v0(b"kernel-bytes", b"ramdisk", b"2nd");
    let img = unpack(&b).unwrap();
    assert_eq!(img.version, 0);
    assert_eq!(img.page_size, 2048);
    assert_eq!(img.kernel(), &b"kernel-bytes".to_vec());
    assert_eq!(img.ramdisk(), &b"ramdisk".to_vec());
    assert_eq!(img.components.len(), 3);
    assert_eq!(img.components[2], b"2nd".to_vec());
    assert!(img.tail.is_empty());
}

#[test]
fn repack_writes_the_id_digest() {
    let b = image_v0(b"kernel", b"ramdisk", b"");
    let img = unpack(&b).unwrap();
    let out = pack(&img).unwrap();
    assert_eq!(out.len(), b.len());
    // the id is the digest of each component followed by its length
    let mut di = Vec::new();
    for c in [&b"kernel"[..], &b"ramdisk"[..], &b""[..]] {
        di.extend_from_slice(c);
        di.extend_from_slice(&(c.len() as u32).to_le_bytes());
    }
    let d = sha1::Sha1::digest(&di);
    assert_eq!(&out[576..596], &d[..]);
    assert!(out[596..608].iter().all(|&x| x == 0));
    assert_eq!(&out[..576], &b[..576]);
    assert_eq!(&out[608..], &b[608..]);
}

#[test]
fn round_trip_is_identity_v0() {
    let b = image_v0(b"kernel", b"ramdisk", b"second");
    let canonical = pack(&unpack(&b).unwrap()).unwrap();
    let again = pack(&unpack(&canonical).unwrap()).unwrap();
    assert_eq!(again, canonical);
}

#[test]
fn round_trip_is_identity_v4() {
    let b = image_v4(b"kernel", &init_only_ramdisk(), b"AVB-footer");
    let img = unpack(&b).unwrap();
    assert_eq!(img.tail, b"AVB-footer".to_vec());
    assert_eq!(pack(&img).unwrap(), b);
}

#[test]
fn kernel_replacement_keeps_ramdisk() {
    let ramdisk = init_only_ramdisk();
    let b = image_v4(b"old kernel", &ramdisk, b"");
    let mut img = unpack(&b).unwrap();
    img.replace_kernel(b"a much longer new kernel".to_vec()).unwrap();
    let out = pack(&img).unwrap();
    let back = unpack(&out).unwrap();
    assert_eq!(back.kernel(), &b"a much longer new kernel".to_vec());
    assert_eq!(back.ramdisk(), &ramdisk);
    assert_ne!(out, b);
}

#[test]
fn init_boot_has_no_kernel_slot() {
    let b = image_v4(b"", &init_only_ramdisk(), b"");
    let mut img = unpack(&b).unwrap();
    assert_eq!(img.replace_kernel(b"k".to_vec()), Err(PatchError::NoKernelSlot));
    assert_eq!(img.kernel().len(), 0);
}

#[test]
fn minimal_image_kernel_replacement() {
    let ramdisk = init_only_ramdisk();
    let b = image_v0(b"", &ramdisk, b"");
    let mut img = unpack(&b).unwrap();
    let before = read_archive(img.ramdisk()).unwrap();
    let kernel: Vec<u8> = (1..=10).collect();
    img.replace_kernel(kernel.clone()).unwrap();
    let back = unpack(&pack(&img).unwrap()).unwrap();
    assert_eq!(back.components[KERNEL], kernel);
    assert_eq!(back.components[KERNEL].len(), 10);
    let after = read_archive(&back.components[RAMDISK]).unwrap();
    assert_eq!(after.len(), 1);
    assert_eq!(after[0].name, before[0].name);
    assert_eq!(after[0].data, before[0].data);
    assert_eq!(after[0].meta, before[0].meta);
}

#[test]
fn ramdisk_replacement_keeps_kernel() {
    let b = image_v0(b"kernel", b"ramdisk", b"");
    let mut img: BootImage = unpack(&b).unwrap();
    img.replace_ramdisk(b"new ramdisk".to_vec());
    let back = unpack(&pack(&img).unwrap()).unwrap();
    assert_eq!(back.kernel(), &b"kernel".to_vec());
    assert_eq!(back.ramdisk(), &b"new ramdisk".to_vec());
}

#[test]
fn sniff_codecs() {
    assert_eq!(sniff(&init_only_ramdisk()), Ok(Codec::Cpio));
    assert_eq!(sniff(&vec![0x1f, 0x8b, 8, 0]), Ok(Codec::Gzip));
    assert_eq!(sniff(&vec![0x04, 0x22, 0x4d, 0x18, 0]), Ok(Codec::Lz4));
    assert_eq!(sniff(&vec![0x28, 0xb5, 0x2f, 0xfd, 1]), Ok(Codec::Zstd));
}

#[test]
fn sniff_unknown_is_unsupported() {
    assert_eq!(sniff(&vec![0xde, 0xad, 0xbe, 0xef]), Err(PatchError::UnsupportedCompression));
    assert_eq!(sniff(&vec![]), Err(PatchError::UnsupportedCompression));
    assert_eq!(sniff(&vec![0x1f]), Err(PatchError::UnsupportedCompression));
    assert_eq!(sniff(&vec![0x02, 0x21, 0x4c, 0x18]), Err(PatchError::UnsupportedCompression));
}

#[test]
fn patch_kernel_on_bytes() {
    let ramdisk = init_only_ramdisk();
    let b = image_v0(b"", &ramdisk, b"");
    let out = ksud::patch::patch_kernel(&b, b"0123456789".to_vec()).unwrap();
    let back = unpack(&out).unwrap();
    assert_eq!(back.kernel(), &b"0123456789".to_vec());
    assert_eq!(back.ramdisk(), &ramdisk);
    let init_boot = image_v4(b"", &ramdisk, b"");
    assert_eq!(ksud::patch::patch_kernel(&init_boot, b"k".to_vec()), Err(PatchError::NoKernelSlot));
    assert!(matches!(
        ksud::patch::patch_kernel(&b"not an image".to_vec(), b"k".to_vec()),
        Err(PatchError::InvalidFormat { .. })
    ));
}

#[test]
fn inject_into_archive_bytes() {
    let archive = init_only_ramdisk();
    let out = ksud::patch::inject_into_archive(&archive, b"ksuinit".to_vec(), b"ko".to_vec()).unwrap();
    let back = read_archive(&out).unwrap();
    let names: Vec<&[u8]> = back.iter().map(|e| &e.name[..]).collect();
    assert_eq!(names, vec![&b"init.real"[..], &b"init"[..], &b"kernelsu.ko"[..]]);
    assert_eq!(back[0].data, b"\x7fELF-original-init".to_vec());
    let no_init = write_archive(&vec![entry("etc", 0o40755, b"")]).unwrap();
    assert_eq!(
        ksud::patch::inject_into_archive(&no_init, b"i".to_vec(), b"m".to_vec()),
        Err(PatchError::InitEntryMissing)
    );
    assert!(matches!(
        ksud::patch::inject_into_archive(&b"junk".to_vec(), b"i".to_vec(), b"m".to_vec()),
        Err(PatchError::CorruptRamdisk { .. })
    ));
}

#[test]
fn patch_kernel_rejects_unknown_ramdisk() {
    let b = image_v0(b"kernel", b"\xde\xad\xbe\xef ramdisk", b"");
    assert_eq!(
        ksud::patch::patch_kernel(&b, b"k".to_vec()),
        Err(PatchError::UnsupportedCompression)
    );
    let empty = image_v0(b"kernel", b"", b"");
    assert_eq!(
        ksud::patch::patch_kernel(&empty, b"k".to_vec()),
        Err(PatchError::UnsupportedCompression)
    );
}

#[test]
fn patch_module_on_image() {
    let ramdisk = write_archive(&vec![
        entry("dev", 0o40755, b""),
        entry("init", 0o100750, b"original init"),
        entry("etc/hosts", 0o100644, b"hosts"),
    ])
    .unwrap();
    let b = image_v0(b"kernel", &ramdisk, b"2nd");
    let out = match patch_module(&b, b"ksuinit".to_vec(), b"ko".to_vec()).unwrap() {
        ModulePatch::Patched(out) => out,
        ModulePatch::Compressed(c) => panic!("unexpected codec {:?}", c),
    };
    let back = unpack(&out).unwrap();
    assert_eq!(back.kernel(), &b"kernel".to_vec());
    assert_eq!(back.components[2], b"2nd".to_vec());
    let es = read_archive(back.ramdisk()).unwrap();
    let names: Vec<&[u8]> = es.iter().map(|e| &e.name[..]).collect();
    assert_eq!(
        names,
        vec![&b"dev"[..], &b"init.real"[..], &b"etc/hosts"[..], &b"init"[..], &b"kernelsu.ko"[..]]
    );
    assert_eq!(es[1].data, b"original init".to_vec());
    assert_eq!(es[2].data, b"hosts".to_vec());
    assert_eq!(es[4].data, b"ko".to_vec());
    // patching the patched image again is refused
    assert_eq!(
        patch_module(&out, b"ksuinit".to_vec(), b"ko".to_vec()).unwrap_err(),
        PatchError::AlreadyPatched
    );
}

#[test]
fn patch_module_reports_compressed_ramdisk() {
    let b = image_v0(b"kernel", &[0x1f, 0x8b, 8, 0, 1, 2], b"");
    assert!(matches!(
        patch_module(&b, b"i".to_vec(), b"m".to_vec()),
        Ok(ModulePatch::Compressed(Codec::Gzip))
    ));
    let bad = image_v0(b"kernel", b"????", b"");
    assert!(matches!(patch_module(&bad, b"i".to_vec(), b"m".to_vec()), Err(PatchError::UnsupportedCompression)));
}

#[test]
fn patch_kernel_rejects_legacy_lz4_ramdisk() {
    let b = image_v0(b"kernel", &[0x02, 0x21, 0x4c, 0x18, 0, 0], b"");
    assert_eq!(
        ksud::patch::patch_kernel(&b, b"k".to_vec()),
        Err(PatchError::UnsupportedCompression)
    );
}

#[test]
fn kernel_replacement_keeps_header_metadata() {
    let mut b = image_v4(b"old kernel", &init_only_ramdisk(), b"");
    put_u32(&mut b, 16, 0x1234_5678);
    b[44..52].copy_from_slice(b"console=");
    let out = ksud::patch::patch_kernel(&b, b"new".to_vec()).unwrap();
    assert_eq!(&out[16..20], &0x1234_5678u32.to_le_bytes());
    assert_eq!(&out[44..52], b"console=");
    assert_eq!(&out[8..12], &3u32.to_le_bytes());
    assert_eq!(&out[12..4096], &b[12..4096]);
}

#[test]
fn patch_module_error_kinds() {
    let no_init = write_archive(&vec![entry("etc", 0o40755, b"")]).unwrap();
    let b = image_v0(b"kernel", &no_init, b"");
    assert_eq!(
        patch_module(&b, b"i".to_vec(), b"m".to_vec()).unwrap_err(),
        PatchError::InitEntryMissing
    );
    let corrupt = image_v0(b"kernel", b"070701zz", b"");
    assert!(matches!(
        patch_module(&corrupt, b"i".to_vec(), b"m".to_vec()),
        Err(PatchError::CorruptRamdisk { .. })
    ));
}
