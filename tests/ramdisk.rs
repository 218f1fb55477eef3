use ksud::cpio::{find_init, inject_module, read_archive, write_archive, RamdiskEntry, EXEC_FILE_MODE};
use ksud::error::PatchError;

fn entry(name: &str, mode: u32, data: &[u8]) -> RamdiskEntry {
    RamdiskEntry {
        meta: vec![3, mode, 0, 2000, 1, 99, 0, 0, 0, 0, 0],
        name: name.as_bytes().to_vec(),
        data: data.to_vec(),
    }
}

fn sample() -> Vec<RamdiskEntry> {
    vec![
        entry("dev", 0o40755, b""),
        entry("init", 0o100750, b"original init"),
        entry("system/etc/hosts", 0o100644, b"127.0.0.1 localhost\n"),
    ]
}

#[test]
fn archive_header_layout() {
    let bytes = write_archive(&vec![entry("a", 0o100644, b"xyz")]).unwrap();
    assert_eq!(&bytes[..6], b"070701");
    // ino, mode, ..., filesize at field 6, namesize at field 11
    assert_eq!(&bytes[6..14], b"00000003");
    assert_eq!(&bytes[14..22], b"000081A4");
    assert_eq!(&bytes[6 + 8 * 6..6 + 8 * 7], b"00000003");
    assert_eq!(&bytes[6 + 8 * 11..6 + 8 * 12], b"00000002");
    assert_eq!(&bytes[110..112], b"a\0");
    // 112 rounds up to 112, then data and one padding byte
    assert_eq!(&bytes[112..115], b"xyz");
    assert_eq!(bytes[115], 0);
    assert!(bytes.windows(10).any(|w| w == b"TRAILER!!!"));
}

#[test]
fn archive_round_trip() {
    let es = sample();
    let back = read_archive(&write_archive(&es).unwrap()).unwrap();
    assert_eq!(back.len(), es.len());
    for (a, b) in back.iter().zip(es.iter()) {
        assert_eq!(a.meta, b.meta);
        assert_eq!(a.name, b.name);
        assert_eq!(a.data, b.data);
    }
}

#[test]
fn lower_case_digits_are_read() {
    let mut bytes = write_archive(&vec![entry("a", 0o100644, b"xyz")]).unwrap();
    bytes[14..22].copy_from_slice(b"000081a4");
    let back = read_archive(&bytes).unwrap();
    assert_eq!(back[0].meta[1], 0o100644);
}

#[test]
fn empty_archive() {
    let bytes = write_archive(&vec![]).unwrap();
    assert_eq!(read_archive(&bytes).unwrap().len(), 0);
}

#[test]
fn corrupt_archives() {
    assert!(matches!(read_archive(&b"garbage".to_vec()), Err(PatchError::CorruptRamdisk { .. })));
    let bytes = write_archive(&sample()).unwrap();
    let cut = bytes[..bytes.len() - 20].to_vec();
    assert!(matches!(read_archive(&cut), Err(PatchError::CorruptRamdisk { .. })));
    let mut bad_hex = bytes.clone();
    bad_hex[7] = b'g';
    assert!(matches!(read_archive(&bad_hex), Err(PatchError::CorruptRamdisk { offset: 0 })));
}

#[test]
fn find_init_entry() {
    assert_eq!(find_init(&sample()), Some(1));
    assert_eq!(find_init(&vec![entry("init.rc", 0o100644, b"")]), None);
}

#[test]
fn injection_preserves_entries() {
    let es = sample();
    let mut patched = es.clone();
    inject_module(&mut patched, b"ksuinit".to_vec(), b"module.ko bytes".to_vec()).unwrap();
    let back = read_archive(&write_archive(&patched).unwrap()).unwrap();
    assert_eq!(back.len(), es.len() + 2);
    for i in [0usize, 2] {
        assert_eq!(back[i].name, es[i].name);
        assert_eq!(back[i].data, es[i].data);
        assert_eq!(back[i].meta, es[i].meta);
    }
    assert_eq!(back[1].name, b"init.real".to_vec());
    assert_eq!(back[1].data, b"original init".to_vec());
    assert_eq!(back[1].meta, es[1].meta);
    assert_eq!(back[3].name, b"init".to_vec());
    assert_eq!(back[3].data, b"ksuinit".to_vec());
    assert_eq!(back[3].meta[1], EXEC_FILE_MODE);
    assert_eq!(back[4].name, b"kernelsu.ko".to_vec());
    assert_eq!(back[4].data, b"module.ko bytes".to_vec());
}

#[test]
fn injection_without_init_fails() {
    let es = vec![entry("sbin", 0o40755, b"")];
    let mut patched = es.clone();
    assert_eq!(inject_module(&mut patched, b"i".to_vec(), b"m".to_vec()), Err(PatchError::InitEntryMissing));
    assert_eq!(patched.len(), 1);
    assert_eq!(patched[0].name, es[0].name);
}

#[test]
fn injection_into_patched_entries_is_refused() {
    let mut es = sample();
    es.push(entry("init.real", 0o100750, b"first init"));
    let before = es.clone();
    assert_eq!(inject_module(&mut es, b"i".to_vec(), b"m".to_vec()), Err(PatchError::AlreadyPatched));
    assert_eq!(es.len(), before.len());
    let mut with_module = sample();
    with_module.push(entry("kernelsu.ko", 0o100644, b"old"));
    assert_eq!(inject_module(&mut with_module, b"i".to_vec(), b"m".to_vec()), Err(PatchError::AlreadyPatched));
}
