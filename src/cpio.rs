use vstd::prelude::*;

use crate::bytes::{append_bytes, append_zeros, copy_range, pad_len, pad_of, zeros};
use crate::error::PatchError;

verus! {

/// Length of a `newc` entry header: six magic bytes, thirteen 8-digit hex fields.
pub const HEADER_LEN: usize = 110;

/// Number of header fields an entry keeps verbatim: ino, mode, uid, gid,
/// nlink, mtime, devmajor, devminor, rdevmajor, rdevminor, check. The data
/// and name sizes are derived from the entry itself.
pub const META_LEN: usize = 11;

/// Index of the mode among an entry's kept fields.
pub const MODE: usize = 1;

/// Mode of a regular file with permissions 0755.
pub const EXEC_FILE_MODE: u32 = 33261;

/// `070701`, the magic of a `newc` entry.
pub open spec fn newc_magic() -> Seq<u8> {
    seq![48u8, 55u8, 48u8, 55u8, 48u8, 49u8]
}

/// `TRAILER!!!`, the name of the entry that ends an archive.
pub open spec fn trailer_name() -> Seq<u8> {
    seq![84u8, 82u8, 65u8, 73u8, 76u8, 69u8, 82u8, 33u8, 33u8, 33u8]
}

/// `init`
pub open spec fn init_name() -> Seq<u8> {
    seq![105u8, 110u8, 105u8, 116u8]
}

/// `init.real`, where the original init is kept.
pub open spec fn real_init_name() -> Seq<u8> {
    init_name() + seq![46u8, 114u8, 101u8, 97u8, 108u8]
}

/// `kernelsu.ko`, where the kernel module is installed.
pub open spec fn module_name() -> Seq<u8> {
    seq![107u8, 101u8, 114u8, 110u8, 101u8, 108u8, 115u8, 117u8, 46u8, 107u8, 111u8]
}

pub open spec fn hex_digit(d: nat) -> u8 {
    if d < 10 {
        (48 + d) as u8
    } else {
        (55 + d) as u8
    }
}

/// The `n` upper-case hex digits of `v` modulo `16^n`.
pub open spec fn hex_of(v: nat, n: nat) -> Seq<u8>
    decreases n,
{
    if n == 0 {
        Seq::empty()
    } else {
        hex_of(v / 16, (n - 1) as nat).push(hex_digit(v % 16))
    }
}

/// The fields, each as eight hex digits.
pub open spec fn hex_fields(vals: Seq<nat>) -> Seq<u8> {
    Seq::new(8 * vals.len(), |i: int| hex_of(vals[i / 8], 8)[i % 8])
}

/// The value of a hex digit of either case, or -1.
pub open spec fn digit_value(c: u8) -> int {
    if 48 <= c <= 57 {
        c - 48
    } else if 65 <= c <= 70 {
        c - 55
    } else if 97 <= c <= 102 {
        c - 87
    } else {
        -1
    }
}

pub open spec fn hex_valid(s: Seq<u8>) -> bool {
    forall|i: int| 0 <= i < s.len() ==> 0 <= #[trigger] digit_value(s[i])
}

/// The number that the hex digits `s` spell.
pub open spec fn hex_num(s: Seq<u8>) -> int
    decreases s.len(),
{
    if s.len() == 0 {
        0
    } else {
        hex_num(s.drop_last()) * 16 + digit_value(s.last())
    }
}

pub open spec fn pow16(n: nat) -> nat
    decreases n,
{
    if n == 0 {
        1
    } else {
        16 * pow16((n - 1) as nat)
    }
}

pub proof fn lemma_pow16_pos(n: nat)
    ensures
        pow16(n) > 0,
    decreases n,
{
    if n > 0 {
        lemma_pow16_pos((n - 1) as nat);
    }
}

pub proof fn lemma_hex_of(v: nat, n: nat)
    ensures
        hex_of(v, n).len() == n,
        hex_valid(hex_of(v, n)),
        hex_num(hex_of(v, n)) == v % pow16(n),
    decreases n,
{
    if n > 0 {
        lemma_hex_of(v / 16, (n - 1) as nat);
        let h = hex_of(v, n);
        assert(h.drop_last() =~= hex_of(v / 16, (n - 1) as nat));
        let d = v % 16;
        assert(digit_value(hex_digit(d)) == d);
        assert forall|i: int| 0 <= i < h.len() implies 0 <= #[trigger] digit_value(h[i]) by {
            if i < n - 1 {
                assert(h[i] == hex_of(v / 16, (n - 1) as nat)[i]);
            }
        }
        lemma_pow16_pos((n - 1) as nat);
        vstd::arithmetic::div_mod::lemma_breakdown(v as int, 16, pow16((n - 1) as nat) as int);
    }
}

/// Where field `k` of the entry header at `pos` lies.
pub open spec fn field_digits(b: Seq<u8>, pos: int, k: int) -> Seq<u8> {
    b.subrange(pos + 6 + 8 * k, pos + 14 + 8 * k)
}

pub open spec fn name_end(e: EntryModel) -> nat {
    (HEADER_LEN + e.name.len() + 1) as nat
}

/// How many bytes the entry takes, padding included.
pub open spec fn entry_size(e: EntryModel) -> nat {
    name_end(e) + pad_of(name_end(e), 4) + e.data.len() + pad_of(e.data.len(), 4)
}

#[verifier::opaque]
/// Whether the bytes of `b` at `pos` are an entry holding `e`. Header
/// digits may be of either case; padding bytes are not looked at.
pub open spec fn entry_at(b: Seq<u8>, pos: int, e: EntryModel) -> bool {
    let data_start = pos + name_end(e) + pad_of(name_end(e), 4);
    &&& entry_ok(e)
    &&& 0 <= pos
    &&& pos + entry_size(e) <= b.len()
    &&& b.subrange(pos, pos + 6) == newc_magic()
    &&& forall|k: int|
        0 <= k < 13 ==> hex_valid(#[trigger] field_digits(b, pos, k)) && hex_num(
            field_digits(b, pos, k),
        ) == header_values(e)[k]
    &&& b.subrange(pos + HEADER_LEN, pos + HEADER_LEN + e.name.len()) == e.name
    &&& b[pos + HEADER_LEN + e.name.len()] == 0
    &&& b.subrange(data_start, data_start + e.data.len()) == e.data
}

#[verifier::opaque]
/// Whether `b` holds, from `pos` on, the entries `es` and then the trailer.
/// Whatever follows the trailer is not looked at.
pub open spec fn holds(b: Seq<u8>, pos: int, es: Seq<EntryModel>) -> bool
    decreases es.len(),
{
    if es.len() == 0 {
        exists|t: EntryModel| #[trigger] entry_at(b, pos, t) && t.name == trailer_name()
    } else {
        &&& entry_at(b, pos, es[0])
        &&& es[0].name != trailer_name()
        &&& holds(b, pos + entry_size(es[0]), es.skip(1))
    }
}

/// An archive entry as values.
pub struct EntryModel {
    pub meta: Seq<u32>,
    pub name: Seq<u8>,
    pub data: Seq<u8>,
}

/// One named entry of a ramdisk archive: its header fields kept verbatim,
/// its name (without the terminating zero) and its content.
#[derive(Debug, Clone)]
pub struct RamdiskEntry {
    pub meta: Vec<u32>,
    pub name: Vec<u8>,
    pub data: Vec<u8>,
}

impl View for RamdiskEntry {
    type V = EntryModel;

    open spec fn view(&self) -> EntryModel {
        EntryModel { meta: self.meta@, name: self.name@, data: self.data@ }
    }
}

pub open spec fn entry_ok(e: EntryModel) -> bool {
    &&& e.meta.len() == META_LEN
    &&& e.name.len() + 1 <= u32::MAX
    &&& e.data.len() <= u32::MAX
}

/// The thirteen header fields of `e` in their order.
pub open spec fn header_values(e: EntryModel) -> Seq<nat> {
    seq![
        e.meta[0] as nat,
        e.meta[1] as nat,
        e.meta[2] as nat,
        e.meta[3] as nat,
        e.meta[4] as nat,
        e.meta[5] as nat,
        e.data.len(),
        e.meta[6] as nat,
        e.meta[7] as nat,
        e.meta[8] as nat,
        e.meta[9] as nat,
        e.name.len() + 1,
        e.meta[10] as nat,
    ]
}

/// The bytes of one entry: header, name and its zero, padding to four
/// bytes, data, padding to four bytes.
pub open spec fn entry_bytes(e: EntryModel) -> Seq<u8> {
    newc_magic() + hex_fields(header_values(e)) + e.name + seq![0u8] + zeros(
        pad_of((HEADER_LEN + e.name.len() + 1) as nat, 4),
    ) + e.data + zeros(pad_of(e.data.len(), 4))
}

/// The entry that ends every archive.
pub open spec fn trailer_entry() -> EntryModel {
    EntryModel {
        meta: seq![0u32, 0u32, 0u32, 0u32, 1u32, 0u32, 0u32, 0u32, 0u32, 0u32, 0u32],
        name: trailer_name(),
        data: Seq::empty(),
    }
}

pub open spec fn entries_bytes(es: Seq<EntryModel>) -> Seq<u8>
    decreases es.len(),
{
    if es.len() == 0 {
        Seq::empty()
    } else {
        entries_bytes(es.drop_last()) + entry_bytes(es.last())
    }
}

/// The bytes of the archive holding `es`, in order, then the trailer.
pub open spec fn archive_bytes(es: Seq<EntryModel>) -> Seq<u8> {
    entries_bytes(es) + entry_bytes(trailer_entry())
}

pub open spec fn models(es: Seq<RamdiskEntry>) -> Seq<EntryModel> {
    es.map_values(|e: RamdiskEntry| e@)
}

fn hex_digit_of(d: u32) -> (r: u8)
    requires
        d < 16,
    ensures
        r == hex_digit(d as nat),
{
    if d < 10 {
        (48 + d) as u8
    } else {
        (55 + d) as u8
    }
}

fn push_hex(out: &mut Vec<u8>, v: u32, n: usize)
    ensures
        final(out)@ == old(out)@ + hex_of(v as nat, n as nat),
    decreases n,
{
    if n > 0 {
        push_hex(out, v / 16, n - 1);
        out.push(hex_digit_of(v % 16));
        assert(out@ =~= old(out)@ + hex_of(v as nat, n as nat));
    }
}

fn push_bytes(out: &mut Vec<u8>, src: &[u8])
    ensures
        final(out)@ == old(out)@ + src@,
{
    let mut i: usize = 0;
    while i < src.len()
        invariant
            i <= src@.len(),
            out@ == old(out)@ + src@.subrange(0, i as int),
        decreases src@.len() - i,
    {
        out.push(src[i]);
        i = i + 1;
        assert(out@ =~= old(out)@ + src@.subrange(0, i as int));
    }
    assert(src@.subrange(0, i as int) =~= src@);
}

fn write_entry(out: &mut Vec<u8>, e: &RamdiskEntry)
    requires
        entry_ok(e@),
    ensures
        final(out)@ == old(out)@ + entry_bytes(e@),
{
    let magic: [u8; 6] = [48, 55, 48, 55, 48, 49];
    push_bytes(out, &magic);
    assert(magic@ =~= newc_magic());
    let vals: [u32; 13] = [
        e.meta[0],
        e.meta[1],
        e.meta[2],
        e.meta[3],
        e.meta[4],
        e.meta[5],
        e.data.len() as u32,
        e.meta[6],
        e.meta[7],
        e.meta[8],
        e.meta[9],
        (e.name.len() + 1) as u32,
        e.meta[10],
    ];
    let ghost hv = header_values(e@);
    let ghost start = out@;
    assert(hv.take(0) =~= Seq::<nat>::empty());
    assert(hex_fields(Seq::<nat>::empty()) =~= Seq::<u8>::empty());
    let mut i: usize = 0;
    while i < 13
        invariant
            i <= 13,
            hv == header_values(e@),
            entry_ok(e@),
            forall|j: int| 0 <= j < 13 ==> vals@[j] as nat == #[trigger] hv[j],
            out@ == start + hex_fields(hv.take(i as int)),
        decreases 13 - i,
    {
        let ghost before = out@;
        push_hex(out, vals[i], 8);
        proof {
            assert(vals@[i as int] as nat == hv[i as int]);
            lemma_hex_of(hv[i as int], 8);
            assert(hex_fields(hv.take(i + 1)) =~= hex_fields(hv.take(i as int)) + hex_of(
                hv[i as int],
                8,
            )) by {
                assert forall|j: int| 0 <= j < 8 * (i + 1) implies #[trigger] hex_fields(
                    hv.take(i + 1),
                )[j] == (hex_fields(hv.take(i as int)) + hex_of(hv[i as int], 8))[j] by {
                    if j < 8 * i {
                        assert(j / 8 < i);
                    } else {
                        assert(j / 8 == i);
                        assert(j % 8 == j - 8 * i);
                    }
                }
            }
        }
        i = i + 1;
    }
    assert(hv.take(13) =~= hv);
    append_bytes(out, &e.name);
    out.push(0u8);
    let name_pad = pad_len(e.name.len() % 4 + HEADER_LEN + 1, 4);
    assert((e.name@.len() % 4 + HEADER_LEN + 1) % 4 == (HEADER_LEN + e.name@.len() + 1) % 4);
    append_zeros(out, name_pad);
    append_bytes(out, &e.data);
    let data_pad = pad_len(e.data.len(), 4);
    append_zeros(out, data_pad);
    assert(out@ =~= old(out)@ + entry_bytes(e@));
}

fn trailer() -> (r: RamdiskEntry)
    ensures
        r@ == trailer_entry(),
        entry_ok(r@),
{
    let meta = vec![0u32, 0, 0, 0, 1, 0, 0, 0, 0, 0, 0];
    let name = vec![84u8, 82, 65, 73, 76, 69, 82, 33, 33, 33];
    let r = RamdiskEntry { meta, name, data: Vec::new() };
    assert(r@.meta =~= trailer_entry().meta);
    assert(r@.name =~= trailer_entry().name);
    assert(r@.data =~= trailer_entry().data);
    r
}

/// Serialises the entries, in order, as a `newc` archive ending in the
/// trailer. It fails when a name or content is too long for its size field.
pub fn write_archive(es: &Vec<RamdiskEntry>) -> (r: Result<Vec<u8>, PatchError>)
    requires
        forall|i: int| 0 <= i < es@.len() ==> (#[trigger] es@[i])@.meta.len() == META_LEN,
    ensures
        r is Ok <==> forall|i: int| 0 <= i < es@.len() ==> entry_ok(#[trigger] es@[i]@),
        r matches Ok(out) ==> out@ == archive_bytes(models(es@)),
        r is Err ==> r matches Err(PatchError::SerializationOverflow { .. }),
{
    let ghost ms = models(es@);
    assert(ms.take(0) =~= Seq::<EntryModel>::empty());
    let mut out: Vec<u8> = Vec::new();
    let mut i: usize = 0;
    while i < es.len()
        invariant
            i <= es@.len(),
            ms == models(es@),
            forall|j: int| 0 <= j < es@.len() ==> (#[trigger] es@[j])@.meta.len() == META_LEN,
            forall|j: int| 0 <= j < i ==> entry_ok(#[trigger] es@[j]@),
            out@ == entries_bytes(ms.take(i as int)),
        decreases es@.len() - i,
    {
        let e = &es[i];
        if e.name.len() >= 0xFFFF_FFFF {
            return Err(PatchError::SerializationOverflow { component: i, size: e.name.len() });
        }
        if e.data.len() > 0xFFFF_FFFF {
            return Err(PatchError::SerializationOverflow { component: i, size: e.data.len() });
        }
        write_entry(&mut out, e);
        proof {
            assert(ms.take(i + 1).drop_last() =~= ms.take(i as int));
            assert(ms[i as int] == e@);
        }
        i = i + 1;
    }
    assert(ms.take(i as int) =~= ms);
    let t = trailer();
    write_entry(&mut out, &t);
    Ok(out)
}

fn bytes_eq(a: &Vec<u8>, b: &[u8]) -> (r: bool)
    ensures
        r == (a@ == b@),
{
    if a.len() != b.len() {
        return false;
    }
    let mut i: usize = 0;
    while i < a.len()
        invariant
            i <= a@.len() == b@.len(),
            forall|j: int| 0 <= j < i ==> a@[j] == b@[j],
        decreases a@.len() - i,
    {
        if a[i] != b[i] {
            return false;
        }
        i = i + 1;
    }
    assert(a@ =~= b@);
    true
}

/// The index of the first entry named `init`, if any.
pub fn find_init(es: &Vec<RamdiskEntry>) -> (r: Option<usize>)
    ensures
        r matches Some(k) ==> k < es@.len() && es@[k as int]@.name == init_name() && forall|j: int|
            0 <= j < k ==> (#[trigger] es@[j])@.name != init_name(),
        r is None ==> forall|j: int| 0 <= j < es@.len() ==> (#[trigger] es@[j])@.name != init_name(),
{
    let init: [u8; 4] = [105, 110, 105, 116];
    assert(init@ =~= init_name());
    let mut i: usize = 0;
    while i < es.len()
        invariant
            i <= es@.len(),
            init@ == init_name(),
            forall|j: int| 0 <= j < i ==> (#[trigger] es@[j])@.name != init_name(),
        decreases es@.len() - i,
    {
        if bytes_eq(&es[i].name, &init) {
            return Some(i);
        }
        i = i + 1;
    }
    None
}

/// A new executable file entry.
pub open spec fn exec_entry(name: Seq<u8>, data: Seq<u8>) -> EntryModel {
    EntryModel {
        meta: seq![0u32, EXEC_FILE_MODE, 0u32, 0u32, 1u32, 0u32, 0u32, 0u32, 0u32, 0u32, 0u32],
        name,
        data,
    }
}

fn new_exec_entry(name: Vec<u8>, data: Vec<u8>) -> (r: RamdiskEntry)
    ensures
        r@ == exec_entry(name@, data@),
{
    let meta = vec![0u32, EXEC_FILE_MODE, 0, 0, 1, 0, 0, 0, 0, 0, 0];
    let r = RamdiskEntry { meta, name, data };
    assert(r@.meta =~= exec_entry(name@, data@).meta);
    r
}

/// The entries after module injection: the first `init` entry, at `k`,
/// renamed to `init.real` with everything else of it kept, then the new
/// init and the module appended as executable files.
pub open spec fn injected(es: Seq<EntryModel>, k: int, init: Seq<u8>, module: Seq<u8>) -> Seq<
    EntryModel,
> {
    es.update(k, EntryModel { name: real_init_name(), ..es[k] }).push(
        exec_entry(init_name(), init),
    ).push(exec_entry(module_name(), module))
}

/// Whether some entry is named `init`.
pub open spec fn has_init(ms: Seq<EntryModel>) -> bool {
    exists|j: int| 0 <= j < ms.len() && (#[trigger] ms[j]).name == init_name()
}

/// Whether some entry already carries a name that injection gives out.
pub open spec fn already_patched(ms: Seq<EntryModel>) -> bool {
    exists|j: int|
        0 <= j < ms.len() && ((#[trigger] ms[j]).name == real_init_name() || ms[j].name
            == module_name())
}

/// Whether `k` is the first entry named `init`.
pub open spec fn first_init(ms: Seq<EntryModel>, k: int) -> bool {
    &&& 0 <= k < ms.len()
    &&& ms[k].name == init_name()
    &&& forall|j: int| 0 <= j < k ==> (#[trigger] ms[j]).name != init_name()
}

fn find_patched(es: &Vec<RamdiskEntry>) -> (r: bool)
    ensures
        r == already_patched(models(es@)),
{
    let real_bytes: [u8; 9] = [105, 110, 105, 116, 46, 114, 101, 97, 108];
    let module_bytes: [u8; 11] = [107, 101, 114, 110, 101, 108, 115, 117, 46, 107, 111];
    assert(real_bytes@ =~= real_init_name());
    assert(module_bytes@ =~= module_name());
    let ghost ms = models(es@);
    let mut i: usize = 0;
    while i < es.len()
        invariant
            i <= es@.len(),
            ms == models(es@),
            real_bytes@ == real_init_name(),
            module_bytes@ == module_name(),
            forall|j: int|
                0 <= j < i ==> (#[trigger] ms[j]).name != real_init_name() && ms[j].name
                    != module_name(),
        decreases es@.len() - i,
    {
        assert(ms[i as int] == es@[i as int]@);
        if bytes_eq(&es[i].name, &real_bytes) || bytes_eq(&es[i].name, &module_bytes) {
            return true;
        }
        i = i + 1;
    }
    false
}

/// Injects a kernel module into the ramdisk entries: the original init is
/// kept under `init.real`, the bytes `init` take the name `init`, and the
/// module is added as `kernelsu.ko`. Nothing changes on failure: with no
/// entry named `init` it fails with `InitEntryMissing`; on entries that
/// already hold `init.real` or `kernelsu.ko` (a patched ramdisk, whose
/// original init must not be shadowed) with `AlreadyPatched`.
pub fn inject_module(es: &mut Vec<RamdiskEntry>, init: Vec<u8>, module: Vec<u8>) -> (r: Result<
    (),
    PatchError,
>)
    ensures
        r is Ok <==> has_init(models(old(es)@)) && !already_patched(models(old(es)@)),
        !has_init(models(old(es)@)) ==> r == Err::<(), PatchError>(PatchError::InitEntryMissing),
        has_init(models(old(es)@)) && already_patched(models(old(es)@)) ==> r == Err::<
            (),
            PatchError,
        >(PatchError::AlreadyPatched),
        r is Err ==> final(es)@ == old(es)@,
        r is Ok ==> exists|k: int| #[trigger]
            first_init(models(old(es)@), k) && models(final(es)@) == injected(
                models(old(es)@),
                k,
                init@,
                module@,
            ),
{
    let ghost ms0 = models(es@);
    let k = match find_init(es) {
        Some(k) => k,
        None => {
            proof {
                if has_init(ms0) {
                    let j = choose|j: int| 0 <= j < ms0.len() && (#[trigger] ms0[j]).name
                        == init_name();
                    assert(ms0[j] == es@[j]@);
                }
            }
            return Err(PatchError::InitEntryMissing);
        },
    };
    assert(ms0[k as int] == es@[k as int]@);
    assert(has_init(ms0));
    if find_patched(es) {
        return Err(PatchError::AlreadyPatched);
    }
    proof {
        assert forall|j: int| 0 <= j < k implies (#[trigger] ms0[j]).name != init_name() by {
            assert(ms0[j] == es@[j]@);
        }
        assert(first_init(ms0, k as int));
    }
    let ghost ms = models(es@);
    let real_bytes: [u8; 9] = [105, 110, 105, 116, 46, 114, 101, 97, 108];
    let mut real_name: Vec<u8> = Vec::new();
    push_bytes(&mut real_name, &real_bytes);
    assert(real_bytes@ =~= real_init_name());
    let renamed = RamdiskEntry {
        meta: copy_u32s(&es[k].meta),
        name: real_name,
        data: crate::bytes::copy_range(&es[k].data, 0, es[k].data.len()),
    };
    proof {
        assert(renamed@.data =~= es@[k as int]@.data);
    }
    es.set(k, renamed);
    let init_bytes: [u8; 4] = [105, 110, 105, 116];
    let mut init_n: Vec<u8> = Vec::new();
    push_bytes(&mut init_n, &init_bytes);
    assert(init_bytes@ =~= init_name());
    let module_bytes: [u8; 11] = [107, 101, 114, 110, 101, 108, 115, 117, 46, 107, 111];
    let mut module_n: Vec<u8> = Vec::new();
    push_bytes(&mut module_n, &module_bytes);
    assert(module_bytes@ =~= module_name());
    es.push(new_exec_entry(init_n, init));
    es.push(new_exec_entry(module_n, module));
    proof {
        let inj = injected(ms, k as int, init@, module@);
        assert(models(es@) =~= inj);
    }
    Ok(())
}

fn copy_u32s(v: &Vec<u32>) -> (r: Vec<u32>)
    ensures
        r@ == v@,
{
    let mut r: Vec<u32> = Vec::new();
    let mut i: usize = 0;
    while i < v.len()
        invariant
            i <= v@.len(),
            r@ == v@.subrange(0, i as int),
        decreases v@.len() - i,
    {
        r.push(v[i]);
        i = i + 1;
        assert(r@ =~= v@.subrange(0, i as int));
    }
    r
}

/// Two entries read at the same place are the same entry.
pub proof fn lemma_entry_unique(b: Seq<u8>, pos: int, e1: EntryModel, e2: EntryModel)
    requires
        entry_at(b, pos, e1),
        entry_at(b, pos, e2),
    ensures
        e1 == e2,
{
    reveal(entry_at);
    let h1 = header_values(e1);
    let h2 = header_values(e2);
    assert forall|k: int| 0 <= k < 13 implies h1[k] == h2[k] by {
        assert(hex_valid(field_digits(b, pos, k)));
    }
    assert(e1.meta =~= e2.meta) by {
        assert(h1[0] == h2[0] && h1[1] == h2[1] && h1[2] == h2[2] && h1[3] == h2[3]);
        assert(h1[4] == h2[4] && h1[5] == h2[5] && h1[7] == h2[7] && h1[8] == h2[8]);
        assert(h1[9] == h2[9] && h1[10] == h2[10] && h1[12] == h2[12]);
    }
    assert(h1[6] == h2[6] && h1[11] == h2[11]);
    assert(e1.name =~= e2.name);
    assert(e1.data =~= e2.data);
}

/// The entries an archive holds from a place on are determined by its bytes.
pub proof fn lemma_holds_unique(b: Seq<u8>, pos: int, es1: Seq<EntryModel>, es2: Seq<EntryModel>)
    requires
        holds(b, pos, es1),
        holds(b, pos, es2),
    ensures
        es1 == es2,
    decreases es1.len(),
{
    reveal_with_fuel(holds, 1);
    if es1.len() == 0 && es2.len() > 0 {
        let t = choose|t: EntryModel| #[trigger] entry_at(b, pos, t) && t.name == trailer_name();
        lemma_entry_unique(b, pos, t, es2[0]);
    } else if es1.len() > 0 && es2.len() == 0 {
        let t = choose|t: EntryModel| #[trigger] entry_at(b, pos, t) && t.name == trailer_name();
        lemma_entry_unique(b, pos, t, es1[0]);
    } else if es1.len() > 0 {
        lemma_entry_unique(b, pos, es1[0], es2[0]);
        lemma_holds_unique(b, pos + entry_size(es1[0]), es1.skip(1), es2.skip(1));
        assert(es1 =~= seq![es1[0]] + es1.skip(1));
        assert(es2 =~= seq![es2[0]] + es2.skip(1));
    } else {
        assert(es1 =~= es2);
    }
}

/// The bytes of an entry, found in `b` at `pos`, are an entry there.
pub proof fn lemma_entry_bytes_at(b: Seq<u8>, pos: int, e: EntryModel)
    requires
        entry_ok(e),
        0 <= pos,
        pos + entry_bytes(e).len() <= b.len(),
        b.subrange(pos, pos + entry_bytes(e).len()) == entry_bytes(e),
    ensures
        entry_bytes(e).len() == entry_size(e),
        entry_at(b, pos, e),
{
    reveal(entry_at);
    let eb = entry_bytes(e);
    let hv = header_values(e);
    let hf = hex_fields(hv);
    assert(hf.len() == 104);
    assert(eb.len() == entry_size(e));
    assert forall|j: int| 0 <= j < eb.len() implies #[trigger] b[pos + j] == eb[j] by {
        assert(b.subrange(pos, pos + eb.len())[j] == b[pos + j]);
    }
    assert(b.subrange(pos, pos + 6) =~= newc_magic()) by {
        assert forall|j: int| 0 <= j < 6 implies b.subrange(pos, pos + 6)[j] == newc_magic()[j] by {
            assert(b[pos + j] == eb[j]);
        }
    }
    assert(pow16(8) == 4294967296) by {
        reveal_with_fuel(pow16, 9);
    }
    assert forall|k: int| 0 <= k < 13 implies hv[k] < pow16(8) by {
        if k == 0 {
        } else if k == 1 {
        } else if k == 2 {
        } else if k == 3 {
        } else if k == 4 {
        } else if k == 5 {
        } else if k == 6 {
        } else if k == 7 {
        } else if k == 8 {
        } else if k == 9 {
        } else if k == 10 {
        } else if k == 11 {
        } else {
        }
    }
    assert forall|k: int| 0 <= k < 13 implies hex_valid(#[trigger] field_digits(b, pos, k))
        && hex_num(field_digits(b, pos, k)) == hv[k] by {
        lemma_hex_of(hv[k], 8);
        assert(hv[k] < pow16(8));
        assert(field_digits(b, pos, k) =~= hex_of(hv[k], 8)) by {
            assert forall|j: int| 0 <= j < 8 implies field_digits(b, pos, k)[j] == hex_of(
                hv[k],
                8,
            )[j] by {
                assert(b[pos + 6 + 8 * k + j] == eb[6 + 8 * k + j]);
                assert(eb[6 + 8 * k + j] == hf[8 * k + j]);
                assert((8 * k + j) / 8 == k);
                assert((8 * k + j) % 8 == j);
            }
        }
    }
    let nl = e.name.len() as int;
    assert(b.subrange(pos + 110, pos + 110 + nl) =~= e.name) by {
        assert forall|j: int| 0 <= j < nl implies b.subrange(pos + 110, pos + 110 + nl)[j]
            == e.name[j] by {
            assert(b[pos + 110 + j] == eb[110 + j]);
        }
    }
    assert(b[pos + 110 + nl] == eb[110 + nl]);
    let ds = name_end(e) + pad_of(name_end(e), 4);
    let dl = e.data.len() as int;
    assert(b.subrange(pos + ds, pos + ds + dl) =~= e.data) by {
        assert forall|j: int| 0 <= j < dl implies b.subrange(pos + ds, pos + ds + dl)[j]
            == e.data[j] by {
            assert(b[pos + ds + j] == eb[ds + j]);
        }
    }
}

proof fn lemma_entries_bytes_front(es: Seq<EntryModel>)
    requires
        es.len() > 0,
    ensures
        entries_bytes(es) == entry_bytes(es[0]) + entries_bytes(es.skip(1)),
    decreases es.len(),
{
    if es.len() == 1 {
        assert(es.drop_last() =~= Seq::<EntryModel>::empty());
        assert(es.skip(1) =~= Seq::<EntryModel>::empty());
        assert(entries_bytes(es) =~= entry_bytes(es[0]) + entries_bytes(es.skip(1)));
    } else {
        lemma_entries_bytes_front(es.drop_last());
        assert(es.drop_last().skip(1) =~= es.skip(1).drop_last());
        assert(es.skip(1).last() == es.last());
        assert(entries_bytes(es) =~= entry_bytes(es[0]) + entries_bytes(es.skip(1)));
    }
}

proof fn lemma_holds_written(b: Seq<u8>, pos: int, es: Seq<EntryModel>)
    requires
        0 <= pos,
        forall|i: int| 0 <= i < es.len() ==> entry_ok(#[trigger] es[i]) && es[i].name != trailer_name(),
        pos + entries_bytes(es).len() + entry_bytes(trailer_entry()).len() <= b.len(),
        b.subrange(pos, pos + entries_bytes(es).len() + entry_bytes(trailer_entry()).len())
            == entries_bytes(es) + entry_bytes(trailer_entry()),
    ensures
        holds(b, pos, es),
    decreases es.len(),
{
    reveal_with_fuel(holds, 1);
    let t = entry_bytes(trailer_entry());
    if es.len() == 0 {
        let n = t.len() as int;
        assert(entries_bytes(es) =~= Seq::<u8>::empty());
        assert(b.subrange(pos, pos + n) =~= t);
        assert(entry_ok(trailer_entry()));
        lemma_entry_bytes_at(b, pos, trailer_entry());
    } else {
        lemma_entries_bytes_front(es);
        let e = es[0];
        let eb = entry_bytes(e);
        let rest = entries_bytes(es.skip(1));
        let whole = b.subrange(pos, pos + eb.len() + rest.len() + t.len());
        assert(whole =~= eb + (rest + t));
        assert(whole.subrange(0, eb.len() as int) =~= eb);
        assert(whole.subrange(eb.len() as int, whole.len() as int) =~= rest + t);
        assert(b.subrange(pos, pos + eb.len()) =~= whole.subrange(0, eb.len() as int));
        lemma_entry_bytes_at(b, pos, e);
        assert(b.subrange(pos + eb.len(), pos + eb.len() + rest.len() + t.len()) =~= whole.subrange(
            eb.len() as int,
            whole.len() as int,
        ));
        assert forall|i: int| 0 <= i < es.skip(1).len() implies entry_ok(#[trigger] es.skip(1)[i])
            && es.skip(1)[i].name != trailer_name() by {
            assert(es.skip(1)[i] == es[i + 1]);
        }
        lemma_holds_written(b, pos + eb.len(), es.skip(1));
    }
}

/// An archive as written holds exactly the entries written.
pub proof fn lemma_archive_holds(es: Seq<EntryModel>)
    requires
        forall|i: int| 0 <= i < es.len() ==> entry_ok(#[trigger] es[i]) && es[i].name != trailer_name(),
    ensures
        holds(archive_bytes(es), 0, es),
        forall|ms: Seq<EntryModel>| #[trigger] holds(archive_bytes(es), 0, ms) ==> ms == es,
{
    let b = archive_bytes(es);
    assert(b.subrange(0, b.len() as int) =~= b);
    lemma_holds_written(b, 0, es);
    assert forall|ms: Seq<EntryModel>| #[trigger] holds(archive_bytes(es), 0, ms) implies ms == es by {
        lemma_holds_unique(b, 0, ms, es);
    }
}

fn digit_of(c: u8) -> (r: Option<u64>)
    ensures
        r is None <==> digit_value(c) < 0,
        r matches Some(d) ==> d == digit_value(c),
{
    if 48 <= c && c <= 57 {
        Some((c - 48) as u64)
    } else if 65 <= c && c <= 70 {
        Some((c - 55) as u64)
    } else if 97 <= c && c <= 102 {
        Some((c - 87) as u64)
    } else {
        None
    }
}

/// Reads eight hex digits of either case at `off`.
fn read_hex8(b: &Vec<u8>, off: usize) -> (r: Option<u32>)
    requires
        off + 8 <= b@.len(),
    ensures
        r is Some <==> hex_valid(b@.subrange(off as int, off + 8)),
        r matches Some(v) ==> v == hex_num(b@.subrange(off as int, off + 8)),
{
    let n = b.len();
    let mut acc: u64 = 0;
    let mut i: usize = 0;
    assert(b@.subrange(off as int, off as int) =~= Seq::<u8>::empty());
    while i < 8
        invariant
            i <= 8,
            n == b@.len(),
            off + 8 <= b@.len(),
            acc == hex_num(b@.subrange(off as int, off + i)),
            hex_valid(b@.subrange(off as int, off + i)),
            acc < pow16(i as nat),
        decreases 8 - i,
    {
        let d = match digit_of(b[off + i]) {
            Some(d) => d,
            None => {
                assert(b@.subrange(off as int, off + 8)[i as int] == b@[off + i]);
                return None;
            },
        };
        proof {
            let s1 = b@.subrange(off as int, off + i + 1);
            assert(s1.drop_last() =~= b@.subrange(off as int, off + i));
            assert(s1.last() == b@[off + i]);
            assert forall|j: int| 0 <= j < s1.len() implies 0 <= #[trigger] digit_value(s1[j]) by {
                if j < i {
                    assert(s1[j] == b@.subrange(off as int, off + i)[j]);
                }
            }
            reveal_with_fuel(pow16, 9);
            assert(pow16(i as nat) <= 268435456) by {
                lemma_pow16_le(i as nat, 7);
            }
        }
        acc = acc * 16 + d;
        i = i + 1;
    }
    proof {
        reveal_with_fuel(pow16, 9);
    }
    Some(acc as u32)
}

proof fn lemma_pow16_le(i: nat, n: nat)
    requires
        i <= n,
    ensures
        pow16(i) <= pow16(n),
    decreases n,
{
    if i < n {
        lemma_pow16_le(i, (n - 1) as nat);
        lemma_pow16_pos((n - 1) as nat);
    }
}

proof fn lemma_entry_found(b: Seq<u8>, pos: int, vals: Seq<u32>, e: EntryModel)
    requires
        0 <= pos,
        vals.len() == 13,
        forall|j: int|
            0 <= j < 13 ==> hex_valid(#[trigger] field_digits(b, pos, j)) && vals[j] == hex_num(
                field_digits(b, pos, j),
            ),
        e.meta == seq![
            vals[0],
            vals[1],
            vals[2],
            vals[3],
            vals[4],
            vals[5],
            vals[7],
            vals[8],
            vals[9],
            vals[10],
            vals[12],
        ],
        e.name.len() + 1 == vals[11],
        e.data.len() == vals[6],
        b.subrange(pos, pos + 6) == newc_magic(),
        pos + entry_size(e) <= b.len(),
        b.subrange(pos + HEADER_LEN, pos + HEADER_LEN + e.name.len()) == e.name,
        b[pos + HEADER_LEN + e.name.len()] == 0,
        b.subrange(
            pos + name_end(e) + pad_of(name_end(e), 4),
            pos + name_end(e) + pad_of(name_end(e), 4) + e.data.len(),
        ) == e.data,
    ensures
        entry_at(b, pos, e),
{
    reveal(entry_at);
    let hv = header_values(e);
    assert forall|j: int| 0 <= j < 13 implies hex_valid(#[trigger] field_digits(b, pos, j))
        && hex_num(field_digits(b, pos, j)) == hv[j] by {
        if j == 0 {
        } else if j == 1 {
        } else if j == 2 {
        } else if j == 3 {
        } else if j == 4 {
        } else if j == 5 {
        } else if j == 6 {
        } else if j == 7 {
        } else if j == 8 {
        } else if j == 9 {
        } else if j == 10 {
        } else if j == 11 {
        } else {
        }
    }
}

#[verifier::rlimit(60)]
/// Reads the entry at `pos`, and where the next one starts.
fn read_entry(b: &Vec<u8>, pos: usize) -> (r: Option<(RamdiskEntry, usize)>)
    ensures
        r matches Some((e, next)) ==> entry_at(b@, pos as int, e@) && next == pos + entry_size(e@)
            && e@.meta.len() == META_LEN && next <= b@.len(),
        r is None ==> forall|e: EntryModel| !#[trigger] entry_at(b@, pos as int, e),
{
    let len = b.len();
    if pos > len || len - pos < HEADER_LEN {
        proof {
            reveal(entry_at);
        }
        return None;
    }
    let magic: [u8; 6] = [48, 55, 48, 55, 48, 49];
    let mut i: usize = 0;
    while i < 6
        invariant
            i <= 6,
            len == b@.len(),
            pos + HEADER_LEN <= b@.len(),
            magic@ == newc_magic(),
            forall|j: int| 0 <= j < i ==> b@[pos + j] == magic@[j],
        decreases 6 - i,
    {
        if b[pos + i] != magic[i] {
            proof {
                assert forall|e: EntryModel| !#[trigger] entry_at(b@, pos as int, e) by {
                    if entry_at(b@, pos as int, e) {
                    reveal(entry_at);
                        assert(b@.subrange(pos as int, pos + 6)[i as int] == b@[pos + i]);
                    }
                }
            }
            return None;
        }
        i = i + 1;
    }
    assert(b@.subrange(pos as int, pos + 6) =~= newc_magic());
    let mut vals: Vec<u32> = Vec::new();
    let mut k: usize = 0;
    while k < 13
        invariant
            k <= 13,
            len == b@.len(),
            pos + HEADER_LEN <= b@.len(),
            vals@.len() == k,
            forall|j: int|
                0 <= j < k ==> hex_valid(#[trigger] field_digits(b@, pos as int, j)) && vals@[j]
                    == hex_num(field_digits(b@, pos as int, j)),
        decreases 13 - k,
    {
        match read_hex8(b, pos + 6 + 8 * k) {
            Some(v) => {
                vals.push(v);
            },
            None => {
                proof {
                    assert forall|e: EntryModel| !#[trigger] entry_at(b@, pos as int, e) by {
                        if entry_at(b@, pos as int, e) {
                    reveal(entry_at);
                            assert(hex_valid(field_digits(b@, pos as int, k as int)));
                        }
                    }
                }
                return None;
            },
        }
        k = k + 1;
    }
    let namesize = vals[11] as usize;
    let filesize = vals[6] as usize;
    if namesize == 0 || namesize > len - pos - HEADER_LEN {
        proof {
            assert forall|e: EntryModel| !#[trigger] entry_at(b@, pos as int, e) by {
                if entry_at(b@, pos as int, e) {
                    reveal(entry_at);
                    assert(hex_num(field_digits(b@, pos as int, 11)) == header_values(e)[11]);
                }
            }
        }
        return None;
    }
    let name_end = pos + HEADER_LEN + namesize;
    let pad1 = pad_len(namesize % 4 + HEADER_LEN, 4);
    assert((namesize % 4 + HEADER_LEN) % 4 == (HEADER_LEN + namesize) % 4);
    if pad1 > len - name_end || filesize > len - name_end - pad1 {
        proof {
            assert forall|e: EntryModel| !#[trigger] entry_at(b@, pos as int, e) by {
                if entry_at(b@, pos as int, e) {
                    reveal(entry_at);
                    assert(hex_num(field_digits(b@, pos as int, 11)) == header_values(e)[11]);
                    assert(hex_num(field_digits(b@, pos as int, 6)) == header_values(e)[6]);
                }
            }
        }
        return None;
    }
    let data_start = name_end + pad1;
    let pad2 = pad_len(filesize, 4);
    if pad2 > len - data_start - filesize || b[name_end - 1] != 0 {
        proof {
            assert forall|e: EntryModel| !#[trigger] entry_at(b@, pos as int, e) by {
                if entry_at(b@, pos as int, e) {
                    reveal(entry_at);
                    assert(hex_num(field_digits(b@, pos as int, 11)) == header_values(e)[11]);
                    assert(hex_num(field_digits(b@, pos as int, 6)) == header_values(e)[6]);
                }
            }
        }
        return None;
    }
    let name = copy_range(b, pos + HEADER_LEN, name_end - 1);
    let data = copy_range(b, data_start, data_start + filesize);
    let meta = vec![
        vals[0],
        vals[1],
        vals[2],
        vals[3],
        vals[4],
        vals[5],
        vals[7],
        vals[8],
        vals[9],
        vals[10],
        vals[12],
    ];
    let e = RamdiskEntry { meta, name, data };
    proof {
        assert(e@.meta =~= seq![
            vals@[0],
            vals@[1],
            vals@[2],
            vals@[3],
            vals@[4],
            vals@[5],
            vals@[7],
            vals@[8],
            vals@[9],
            vals@[10],
            vals@[12],
        ]);
        assert(b@[name_end - 1] == 0);
        lemma_entry_found(b@, pos as int, vals@, e@);
    }
    Some((e, data_start + filesize + pad2))
}



/// The facts the archive reader keeps about the entries read so far: entry
/// `j` of `ms` sits at `starts[j]`, and each is followed by the next, the
/// last by `pos`.
pub open spec fn chained(b: Seq<u8>, ms: Seq<EntryModel>, starts: Seq<int>, pos: int) -> bool {
    &&& starts.len() == ms.len()
    &&& forall|j: int|
        0 <= j < ms.len() ==> entry_at(b, #[trigger] starts[j], ms[j]) && ms[j].name
            != trailer_name() && (if j + 1 < ms.len() {
            starts[j + 1]
        } else {
            pos
        }) == starts[j] + entry_size(ms[j])
    &&& ms.len() == 0 ==> pos == 0
    &&& ms.len() > 0 ==> starts[0] == 0
}

pub open spec fn start_of(ms: Seq<EntryModel>, starts: Seq<int>, pos: int, i: int) -> int {
    if i < ms.len() {
        starts[i]
    } else {
        pos
    }
}

#[verifier::rlimit(100)]
proof fn lemma_holds_from_starts(
    b: Seq<u8>,
    ms: Seq<EntryModel>,
    starts: Seq<int>,
    pos: int,
    t: EntryModel,
    i: int,
)
    requires
        chained(b, ms, starts, pos),
        0 <= i <= ms.len(),
        entry_at(b, pos, t),
        t.name == trailer_name(),
    ensures
        holds(b, start_of(ms, starts, pos, i), ms.skip(i)),
    decreases ms.len() - i,
{
    reveal_with_fuel(holds, 1);
    if i == ms.len() {
        assert(ms.skip(i) =~= Seq::<EntryModel>::empty());
        assert(holds(b, pos, Seq::<EntryModel>::empty()));
    } else {
        lemma_holds_from_starts(b, ms, starts, pos, t, i + 1);
        let rest = ms.skip(i);
        assert(rest[0] == ms[i]);
        assert(rest.skip(1) =~= ms.skip(i + 1));
        assert(entry_at(b, starts[i], ms[i]));
        assert(start_of(ms, starts, pos, i + 1) == starts[i] + entry_size(ms[i]));
        assert(holds(b, starts[i] + entry_size(rest[0]), rest.skip(1)));
    }
}

#[verifier::rlimit(100)]
proof fn lemma_nothing_holds(
    b: Seq<u8>,
    es: Seq<EntryModel>,
    starts: Seq<int>,
    pos: int,
    ms: Seq<EntryModel>,
    i: int,
)
    requires
        chained(b, es, starts, pos),
        forall|e: EntryModel| !#[trigger] entry_at(b, pos, e),
        0 <= i <= es.len(),
        i <= ms.len(),
    ensures
        !holds(b, start_of(es, starts, pos, i), ms.skip(i)),
    decreases es.len() - i,
{
    reveal_with_fuel(holds, 1);
    let rest = ms.skip(i);
    let at = start_of(es, starts, pos, i);
    if holds(b, at, rest) {
        if rest.len() == 0 {
            let t = choose|t: EntryModel| #[trigger] entry_at(b, at, t) && t.name == trailer_name();
            if i < es.len() {
                assert(entry_at(b, starts[i], es[i]));
                lemma_entry_unique(b, at, t, es[i]);
            }
        } else {
            assert(entry_at(b, at, rest[0]));
            if i < es.len() {
                assert(entry_at(b, starts[i], es[i]));
                lemma_entry_unique(b, at, rest[0], es[i]);
                assert(rest.skip(1) =~= ms.skip(i + 1));
                lemma_nothing_holds(b, es, starts, pos, ms, i + 1);
            }
        }
    }
}

/// Parses a `newc` archive into its entries, in order, up to the trailer.
/// What it returns is what the bytes hold (`holds`, which
/// `lemma_holds_unique` shows to be the only such entries); bytes that hold
/// no entries and trailer give `CorruptRamdisk`.
pub fn read_archive(b: &Vec<u8>) -> (r: Result<Vec<RamdiskEntry>, PatchError>)
    ensures
        r matches Ok(es) ==> holds(b@, 0, models(es@)) && forall|i: int|
            0 <= i < es@.len() ==> (#[trigger] es@[i])@.meta.len() == META_LEN,
        r is Err ==> r matches Err(PatchError::CorruptRamdisk { .. }),
        r is Err ==> forall|ms: Seq<EntryModel>| !#[trigger] holds(b@, 0, ms),
{
    let mut es: Vec<RamdiskEntry> = Vec::new();
    let mut pos: usize = 0;
    let ghost mut starts: Seq<int> = Seq::empty();
    let trailer_bytes: [u8; 10] = [84, 82, 65, 73, 76, 69, 82, 33, 33, 33];
    assert(trailer_bytes@ =~= trailer_name());
    loop
        invariant
            pos <= b@.len(),
            trailer_bytes@ == trailer_name(),
            forall|i: int| 0 <= i < es@.len() ==> (#[trigger] es@[i])@.meta.len() == META_LEN,
            chained(b@, models(es@), starts, pos as int),
        decreases b@.len() - pos,
    {
        let (e, next) = match read_entry(b, pos) {
            Some(x) => x,
            None => {
                proof {
                    assert forall|ms: Seq<EntryModel>| !#[trigger] holds(b@, 0, ms) by {
                        if holds(b@, 0, ms) {
                            assert(ms.skip(0) =~= ms);
                            lemma_nothing_holds(b@, models(es@), starts, pos as int, ms, 0);
                        }
                    }
                }
                return Err(PatchError::CorruptRamdisk { offset: pos });
            },
        };
        if bytes_eq(&e.name, &trailer_bytes) {
            proof {
                assert(entry_at(b@, pos as int, e@) && e@.name == trailer_name());
                lemma_holds_from_starts(b@, models(es@), starts, pos as int, e@, 0);
                assert(models(es@).skip(0) =~= models(es@));
            }
            return Ok(es);
        }
        let ghost prev = models(es@);
        let ghost prev_starts = starts;
        proof {
            starts = starts.push(pos as int);
        }
        es.push(e);
        pos = next;
        proof {
            let ms = models(es@);
            assert(ms =~= prev.push(e@));
            assert forall|j: int| 0 <= j < ms.len() implies entry_at(b@, #[trigger] starts[j], ms[j])
                && ms[j].name != trailer_name() && (if j + 1 < ms.len() {
                starts[j + 1]
            } else {
                pos as int
            }) == starts[j] + entry_size(ms[j]) by {
                if j + 1 < ms.len() {
                    assert(starts[j] == prev_starts[j]);
                    assert(ms[j] == prev[j]);
                    assert(entry_at(b@, prev_starts[j], prev[j]));
                }
            }
        }
    }
}

/// Every entry an archive holds fits its size fields and is not the trailer.
pub proof fn lemma_holds_entries_ok(b: Seq<u8>, pos: int, ms: Seq<EntryModel>)
    requires
        holds(b, pos, ms),
    ensures
        forall|i: int| 0 <= i < ms.len() ==> entry_ok(#[trigger] ms[i]) && ms[i].name != trailer_name(),
    decreases ms.len(),
{
    reveal_with_fuel(holds, 1);
    if ms.len() > 0 {
        reveal(entry_at);
        lemma_holds_entries_ok(b, pos + entry_size(ms[0]), ms.skip(1));
        assert forall|i: int| 0 <= i < ms.len() implies entry_ok(#[trigger] ms[i]) && ms[i].name
            != trailer_name() by {
            if i > 0 {
                assert(ms[i] == ms.skip(1)[i - 1]);
            }
        }
    }
}

/// Module injection keeps the archive's entries: reading back the archive
/// written after injection gives every earlier entry in its place with its
/// content, the init entry renamed to `init.real` with its metadata and
/// content kept, then the new init and the module.
pub proof fn lemma_injection_preserves_entries(
    es: Seq<EntryModel>,
    k: int,
    init: Seq<u8>,
    module: Seq<u8>,
    back: Seq<EntryModel>,
)
    requires
        first_init(es, k),
        forall|i: int| 0 <= i < es.len() ==> entry_ok(#[trigger] es[i]) && es[i].name != trailer_name(),
        init.len() <= u32::MAX,
        module.len() <= u32::MAX,
        holds(archive_bytes(injected(es, k, init, module)), 0, back),
    ensures
        back.len() == es.len() + 2,
        forall|i: int| 0 <= i < es.len() && i != k ==> #[trigger] back[i] == es[i],
        back[k].name == real_init_name(),
        back[k].meta == es[k].meta,
        back[k].data == es[k].data,
        back[es.len() as int] == exec_entry(init_name(), init),
        back[es.len() + 1int] == exec_entry(module_name(), module),
{
    let inj = injected(es, k, init, module);
    assert(real_init_name().len() != trailer_name().len());
    assert(module_name().len() != trailer_name().len());
    assert(init_name().len() != trailer_name().len());
    assert forall|i: int| 0 <= i < inj.len() implies entry_ok(#[trigger] inj[i]) && inj[i].name
        != trailer_name() by {
        if i < es.len() && i != k {
            assert(inj[i] == es[i]);
        }
    }
    lemma_archive_holds(inj);
}

} // verus!
