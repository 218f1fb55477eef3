use vstd::prelude::*;

use crate::bytes::{
    all_zero, append_bytes, append_u32, append_zeros, copy_range, lemma_bytes_of_le32,
    lemma_le32_of_bytes, lemma_splice_same, le32, pad_len, pad_of, read_u32, splice, u32_bytes,
    write_bytes, write_u32, zeros,
};
use crate::error::PatchError;

verus! {

/// Offset of the header version, the same in every layout.
pub const VERSION_OFFSET: usize = 40;

/// Offset of the page size in the layouts of versions 0 to 2.
pub const PAGE_SIZE_OFFSET: usize = 36;

/// Page size of the layouts of versions 3 and 4, which carry none.
pub const FIXED_PAGE_SIZE: usize = 4096;

/// Offset of the 32-byte id digest in the layouts of versions 0 to 2.
pub const ID_OFFSET: usize = 576;

/// The newest header version understood.
pub const MAX_VERSION: u32 = 4;

/// Index of the kernel among an image's components.
pub const KERNEL: usize = 0;

/// Index of the ramdisk among an image's components.
pub const RAMDISK: usize = 1;

/// `ANDROID!`, the first eight bytes of every boot image.
pub open spec fn boot_magic() -> Seq<u8> {
    seq![65u8, 78u8, 68u8, 82u8, 79u8, 73u8, 68u8, 33u8]
}

/// How many components follow the header page in the layout of `version`:
/// kernel, ramdisk, second stage, recovery dtbo and dtb for versions 0 to 2
/// (each revision adds one), kernel, ramdisk and boot signature for 3 and 4.
pub open spec fn component_count(version: u32) -> nat {
    if version == 0 {
        3
    } else if version == 1 {
        4
    } else if version == 2 {
        5
    } else if version == 3 {
        2
    } else {
        3
    }
}

/// Offset of the 32-bit size field of component `i` in the layout of `version`.
pub open spec fn size_offset(version: u32, i: int) -> int {
    if version <= 2 {
        if i == 0 {
            8
        } else if i == 1 {
            16
        } else if i == 2 {
            24
        } else if i == 3 {
            1632
        } else {
            1648
        }
    } else {
        if i == 0 {
            8
        } else if i == 1 {
            12
        } else {
            1580
        }
    }
}

/// The page size that header bytes `h` of `version` give.
pub open spec fn page_of(version: u32, h: Seq<u8>) -> nat {
    if version <= 2 {
        le32(h, PAGE_SIZE_OFFSET as int)
    } else {
        FIXED_PAGE_SIZE as nat
    }
}

pub open spec fn supported_page(p: nat) -> bool {
    p == 2048 || p == 4096 || p == 8192 || p == 16384
}

/// Whether `h` begins like a header this engine can lay out.
pub open spec fn header_ok(h: Seq<u8>) -> bool {
    &&& h.len() >= 44
    &&& h.subrange(0, 8) == boot_magic()
    &&& le32(h, VERSION_OFFSET as int) <= MAX_VERSION
    &&& supported_page(page_of(le32(h, VERSION_OFFSET as int) as u32, h))
}

/// A component followed by the zeros that take it to a page boundary.
pub open spec fn padded(c: Seq<u8>, page: nat) -> Seq<u8> {
    c + zeros(pad_of(c.len(), page))
}

/// The components, each padded, one after the other.
pub open spec fn body(parts: Seq<Seq<u8>>, page: nat) -> Seq<u8>
    decreases parts.len(),
{
    if parts.len() == 0 {
        Seq::empty()
    } else {
        body(parts.drop_last(), page) + padded(parts.last(), page)
    }
}

pub open spec fn views(v: Seq<Vec<u8>>) -> Seq<Seq<u8>> {
    v.map_values(|c: Vec<u8>| c@)
}

/// Whether `b` is the image with header page `h`, components `parts` and
/// trailing bytes `tail`, each size field of `h` giving its component's length.
pub open spec fn encodes(
    b: Seq<u8>,
    version: u32,
    h: Seq<u8>,
    parts: Seq<Seq<u8>>,
    tail: Seq<u8>,
) -> bool {
    &&& header_ok(h)
    &&& version == le32(h, VERSION_OFFSET as int)
    &&& h.len() == page_of(version, h)
    &&& parts.len() == component_count(version)
    &&& forall|i: int|
        0 <= i < parts.len() ==> le32(h, size_offset(version, i)) == (#[trigger] parts[i]).len()
    &&& b == h + body(parts, h.len()) + tail
}

/// Whether `b` is some image.
pub open spec fn is_image(b: Seq<u8>) -> bool {
    exists|v: u32, h: Seq<u8>, ps: Seq<Seq<u8>>, t: Seq<u8>| #[trigger] encodes(b, v, h, ps, t)
}

/// A parsed boot or init_boot image: the header page kept verbatim, the
/// components in layout order, and whatever follows the last one.
pub struct BootImage {
    pub version: u32,
    pub page_size: usize,
    pub header: Vec<u8>,
    pub components: Vec<Vec<u8>>,
    pub tail: Vec<u8>,
}

impl BootImage {
    pub open spec fn parts(&self) -> Seq<Seq<u8>> {
        views(self.components@)
    }

    /// The header's own fields are consistent; component sizes may not yet be.
    pub open spec fn wf(&self) -> bool {
        &&& header_ok(self.header@)
        &&& self.version == le32(self.header@, VERSION_OFFSET as int)
        &&& self.page_size == page_of(self.version, self.header@)
        &&& self.header@.len() == self.page_size
        &&& self.components@.len() == component_count(self.version)
    }

    /// Whether this image is what the bytes `b` hold.
    pub open spec fn is_image_of(&self, b: Seq<u8>) -> bool {
        self.page_size == self.header@.len() && encodes(
            b,
            self.version,
            self.header@,
            self.parts(),
            self.tail@,
        )
    }
}

/// Component `k` sits padded right after the first `k` padded components.
pub proof fn lemma_body_split(parts: Seq<Seq<u8>>, k: int, page: nat)
    requires
        0 <= k < parts.len(),
    ensures
        body(parts.take(k), page).len() + padded(parts[k], page).len() <= body(parts, page).len(),
        body(parts, page).subrange(0, body(parts.take(k), page).len() as int) == body(
            parts.take(k),
            page,
        ),
        body(parts, page).subrange(
            body(parts.take(k), page).len() as int,
            (body(parts.take(k), page).len() + padded(parts[k], page).len()) as int,
        ) == padded(parts[k], page),
    decreases parts.len(),
{
    let last = (parts.len() - 1) as int;
    if k == last {
        assert(parts.take(k) =~= parts.drop_last());
        let pre = body(parts.drop_last(), page);
        assert(body(parts, page) == pre + padded(parts.last(), page));
        assert(body(parts, page).subrange(0, pre.len() as int) =~= pre);
        assert(body(parts, page).subrange(
            pre.len() as int,
            (pre.len() + padded(parts[k], page).len()) as int,
        ) =~= padded(parts[k], page));
    } else {
        let d = parts.drop_last();
        lemma_body_split(d, k, page);
        assert(d.take(k) =~= parts.take(k));
        assert(d[k] == parts[k]);
        let whole = body(parts, page);
        assert(whole == body(d, page) + padded(parts.last(), page));
        let l = body(parts.take(k), page).len() as int;
        let m = padded(parts[k], page).len() as int;
        assert(whole.subrange(0, l) =~= body(d, page).subrange(0, l));
        assert(whole.subrange(l, l + m) =~= body(d, page).subrange(l, l + m));
    }
}

/// Facts about the header page that every image of `b` shares.
pub proof fn lemma_image_header(
    b: Seq<u8>,
    version: u32,
    h: Seq<u8>,
    parts: Seq<Seq<u8>>,
    tail: Seq<u8>,
)
    requires
        encodes(b, version, h, parts, tail),
    ensures
        b.len() >= h.len() >= 2048,
        b.subrange(0, h.len() as int) == h,
        b.subrange(0, 8) == boot_magic(),
        le32(b, VERSION_OFFSET as int) == version,
        page_of(version, b) == h.len(),
        b.subrange(h.len() as int, (h.len() + body(parts, h.len()).len()) as int) == body(parts, h.len()),
        b.subrange((h.len() + body(parts, h.len()).len()) as int, b.len() as int) == tail,
        forall|i: int|
            0 <= i < parts.len() ==> le32(b, size_offset(version, i)) == (#[trigger] parts[i]).len(),
{
    let n = h.len() as int;
    let bl = body(parts, h.len()).len() as int;
    assert(b.subrange(0, n) =~= h);
    assert(b.subrange(n, n + bl) =~= body(parts, h.len()));
    assert(b.subrange(n + bl, b.len() as int) =~= tail);
    assert forall|j: int| 0 <= j < n implies b[j] == h[j] by {
        assert(b.subrange(0, n)[j] == b[j]);
    }
    assert(b.subrange(0, 8) =~= h.subrange(0, 8));
    assert forall|i: int| 0 <= i < parts.len() implies le32(b, size_offset(version, i)) == (
    #[trigger] parts[i]).len() by {
        assert(size_offset(version, i) + 4 <= 1652);
    }
}

/// Two images of the same bytes are the same image.
pub proof fn lemma_image_unique(
    b: Seq<u8>,
    v1: u32,
    h1: Seq<u8>,
    ps1: Seq<Seq<u8>>,
    t1: Seq<u8>,
    v2: u32,
    h2: Seq<u8>,
    ps2: Seq<Seq<u8>>,
    t2: Seq<u8>,
)
    requires
        encodes(b, v1, h1, ps1, t1),
        encodes(b, v2, h2, ps2, t2),
    ensures
        v1 == v2,
        h1 == h2,
        ps1 == ps2,
        t1 == t2,
{
    lemma_image_header(b, v1, h1, ps1, t1);
    lemma_image_header(b, v2, h2, ps2, t2);
    let page = h1.len();
    assert(ps1.len() == ps2.len());
    assert forall|k: int| 0 <= k < ps1.len() implies ps1[k] == ps2[k] by {
        lemma_parts_agree(b, v1, h1, ps1, t1, ps2, t2, k);
    }
    assert(ps1 =~= ps2);
    let bl = body(ps1, page).len();
    assert(t1 == b.subrange((page + bl) as int, b.len() as int));
}

proof fn lemma_parts_agree(
    b: Seq<u8>,
    v: u32,
    h: Seq<u8>,
    ps1: Seq<Seq<u8>>,
    t1: Seq<u8>,
    ps2: Seq<Seq<u8>>,
    t2: Seq<u8>,
    k: int,
)
    requires
        encodes(b, v, h, ps1, t1),
        encodes(b, v, h, ps2, t2),
        0 <= k < ps1.len(),
    ensures
        ps1.take(k) == ps2.take(k),
        ps1[k] == ps2[k],
    decreases k,
{
    let page = h.len();
    if k > 0 {
        lemma_parts_agree(b, v, h, ps1, t1, ps2, t2, k - 1);
        assert(ps1.take(k) =~= ps1.take(k - 1).push(ps1[k - 1]));
        assert(ps2.take(k) =~= ps2.take(k - 1).push(ps2[k - 1]));
    } else {
        assert(ps1.take(k) =~= ps2.take(k));
    }
    lemma_body_split(ps1, k, page);
    lemma_body_split(ps2, k, page);
    let l = body(ps1.take(k), page).len() as int;
    let n = ps1[k].len() as int;
    assert(ps1[k].len() == ps2[k].len());
    let b1 = body(ps1, page);
    let b2 = body(ps2, page);
    assert(b.subrange(page as int, (page + b1.len()) as int) == b1);
    assert(b.subrange(page as int, (page + b2.len()) as int) == b2);
    assert forall|j: int| 0 <= j < n implies ps1[k][j] == ps2[k][j] by {
        assert(padded(ps1[k], page)[j] == ps1[k][j]);
        assert(padded(ps2[k], page)[j] == ps2[k][j]);
        assert(b1.subrange(l, l + padded(ps1[k], page).len())[j] == b1[l + j]);
        assert(b2.subrange(l, l + padded(ps2[k], page).len())[j] == b2[l + j]);
        assert(b1[l + j] == b[page + l + j]);
        assert(b2[l + j] == b[page + l + j]);
    }
    assert(ps1[k] =~= ps2[k]);
}

/// Where component `i` of an image of `b` lies in `b`.
pub proof fn lemma_component_at(
    b: Seq<u8>,
    v: u32,
    h: Seq<u8>,
    parts: Seq<Seq<u8>>,
    tail: Seq<u8>,
    i: int,
)
    requires
        encodes(b, v, h, parts, tail),
        0 <= i < parts.len(),
    ensures
        ({
            let pos = h.len() + body(parts.take(i), h.len()).len();
            let c = parts[i];
            let pad = pad_of(c.len(), h.len());
            &&& c.len() == le32(b, size_offset(v, i))
            &&& pos + c.len() + pad <= b.len()
            &&& b.subrange(pos as int, (pos + c.len()) as int) == c
            &&& b.subrange((pos + c.len()) as int, (pos + c.len() + pad) as int) == zeros(pad)
        }),
{
    lemma_image_header(b, v, h, parts, tail);
    lemma_body_split(parts, i, h.len());
    let page = h.len() as int;
    let l = body(parts.take(i), h.len()).len() as int;
    let c = parts[i];
    let pad = pad_of(c.len(), h.len()) as int;
    let whole = body(parts, h.len());
    let n = c.len() as int;
    assert forall|j: int| 0 <= j < n + pad implies #[trigger] b[page + l + j] == padded(
        c,
        h.len(),
    )[j] by {
        assert(whole.subrange(l, l + n + pad)[j] == whole[l + j]);
        assert(b.subrange(page, page + whole.len())[l + j] == b[page + l + j]);
    }
    assert(b.subrange(page + l, page + l + n) =~= c) by {
        assert forall|j: int| 0 <= j < n implies #[trigger] b.subrange(page + l, page + l + n)[j]
            == c[j] by {
            assert(b[page + l + j] == padded(c, h.len())[j]);
        }
    }
    assert(b.subrange(page + l + n, page + l + n + pad) =~= zeros(pad as nat)) by {
        assert forall|j: int| 0 <= j < pad implies #[trigger] b.subrange(
            page + l + n,
            page + l + n + pad,
        )[j] == 0u8 by {
            assert(b[page + l + n + j] == padded(c, h.len())[n + j]);
        }
    }
}

fn component_count_of(version: u32) -> (r: usize)
    requires
        version <= MAX_VERSION,
    ensures
        r == component_count(version),
{
    if version == 0 {
        3
    } else if version == 1 {
        4
    } else if version == 2 {
        5
    } else if version == 3 {
        2
    } else {
        3
    }
}

fn size_offset_of(version: u32, i: usize) -> (r: usize)
    ensures
        r == size_offset(version, i as int),
        8 <= r <= 1648,
{
    if version <= 2 {
        if i == 0 {
            8
        } else if i == 1 {
            16
        } else if i == 2 {
            24
        } else if i == 3 {
            1632
        } else {
            1648
        }
    } else {
        if i == 0 {
            8
        } else if i == 1 {
            12
        } else {
            1580
        }
    }
}

fn has_magic(b: &Vec<u8>) -> (r: bool)
    requires
        b@.len() >= 8,
    ensures
        r == (b@.subrange(0, 8) == boot_magic()),
{
    let r = b[0] == 65 && b[1] == 78 && b[2] == 68 && b[3] == 82 && b[4] == 79 && b[5] == 73
        && b[6] == 68 && b[7] == 33;
    if r {
        assert(b@.subrange(0, 8) =~= boot_magic());
    } else {
        proof {
            if b@.subrange(0, 8) == boot_magic() {
                assert(b@.subrange(0, 8)[0] == b@[0] && b@.subrange(0, 8)[1] == b@[1]);
                assert(b@.subrange(0, 8)[2] == b@[2] && b@.subrange(0, 8)[3] == b@[3]);
                assert(b@.subrange(0, 8)[4] == b@[4] && b@.subrange(0, 8)[5] == b@[5]);
                assert(b@.subrange(0, 8)[6] == b@[6] && b@.subrange(0, 8)[7] == b@[7]);
            }
        }
    }
    r
}

#[verifier::rlimit(50)]
/// Parses the bytes of a boot or init_boot image. It succeeds exactly when
/// some image is what `b` holds, and then returns that image (there is only
/// one: `lemma_image_unique`). Every failure is `InvalidFormat`.
pub fn unpack(b: &Vec<u8>) -> (r: Result<BootImage, PatchError>)
    ensures
        r is Ok <==> exists|w: BootImage| #[trigger] w.is_image_of(b@),
        r is Ok <==> is_image(b@),
        r matches Ok(img) ==> img.wf() && img.is_image_of(b@),
        r is Err ==> r matches Err(PatchError::InvalidFormat { .. }),
        !(b@.len() >= 8 && b@.subrange(0, 8) == boot_magic()) ==> r is Err,
{
    let len = b.len();
    if len < 44 {
        proof {
            assert forall|v: u32, h: Seq<u8>, ps: Seq<Seq<u8>>, t: Seq<u8>| !#[trigger] encodes(b@, v, h, ps, t) by {
                if encodes(b@, v, h, ps, t) {
                    lemma_image_header(b@, v, h, ps, t);
                }
            }
        }
        return Err(PatchError::InvalidFormat { offset: 0 });
    }
    if !has_magic(b) {
        proof {
            assert forall|v: u32, h: Seq<u8>, ps: Seq<Seq<u8>>, t: Seq<u8>| !#[trigger] encodes(b@, v, h, ps, t) by {
                if encodes(b@, v, h, ps, t) {
                    lemma_image_header(b@, v, h, ps, t);
                }
            }
        }
        return Err(PatchError::InvalidFormat { offset: 0 });
    }
    let version = read_u32(b, VERSION_OFFSET);
    if version > MAX_VERSION {
        proof {
            assert forall|v: u32, h: Seq<u8>, ps: Seq<Seq<u8>>, t: Seq<u8>| !#[trigger] encodes(b@, v, h, ps, t) by {
                if encodes(b@, v, h, ps, t) {
                    lemma_image_header(b@, v, h, ps, t);
                }
            }
        }
        return Err(PatchError::InvalidFormat { offset: VERSION_OFFSET });
    }
    let page_raw: u32 = if version <= 2 {
        read_u32(b, PAGE_SIZE_OFFSET)
    } else {
        FIXED_PAGE_SIZE as u32
    };
    if !(page_raw == 2048 || page_raw == 4096 || page_raw == 8192 || page_raw == 16384)
        || (page_raw as usize) > len {
        proof {
            assert forall|v: u32, h: Seq<u8>, ps: Seq<Seq<u8>>, t: Seq<u8>| !#[trigger] encodes(b@, v, h, ps, t) by {
                if encodes(b@, v, h, ps, t) {
                    lemma_image_header(b@, v, h, ps, t);
                }
            }
        }
        return Err(PatchError::InvalidFormat { offset: PAGE_SIZE_OFFSET });
    }
    let page = page_raw as usize;
    let header = copy_range(b, 0, page);
    proof {
        assert(header@.subrange(0, 8) =~= b@.subrange(0, 8));
        assert(le32(header@, VERSION_OFFSET as int) == le32(b@, VERSION_OFFSET as int));
        assert(le32(header@, PAGE_SIZE_OFFSET as int) == le32(b@, PAGE_SIZE_OFFSET as int));
    }
    let count = component_count_of(version);
    let mut comps: Vec<Vec<u8>> = Vec::new();
    let mut pos: usize = page;
    let mut i: usize = 0;
    while i < count
        invariant
            header_ok(header@),
            header@ == b@.subrange(0, page as int),
            page == header@.len(),
            page == page_of(version, header@),
            version == le32(header@, VERSION_OFFSET as int),
            version == le32(b@, VERSION_OFFSET as int),
            page == page_of(version, b@),
            count == component_count(version),
            len == b@.len(),
            i <= count,
            comps@.len() == i,
            page <= pos <= len,
            pos == page + body(views(comps@), page as nat).len(),
            b@.subrange(page as int, pos as int) == body(views(comps@), page as nat),
            forall|j: int|
                0 <= j < i ==> le32(header@, size_offset(version, j)) == (#[trigger] views(
                    comps@,
                )[j]).len(),
            forall|v: u32, h: Seq<u8>, ps: Seq<Seq<u8>>, t: Seq<u8>| #[trigger]
                encodes(b@, v, h, ps, t) ==> ps.take(i as int) == views(comps@)
                    && h == header@ && v == version,
        decreases count - i,
    {
        let off = size_offset_of(version, i);
        let size = read_u32(b, off) as usize;
        proof {
            assert(le32(header@, off as int) == le32(b@, off as int));
        }
        proof {
            assert forall|v: u32, h: Seq<u8>, ps: Seq<Seq<u8>>, t: Seq<u8>| #[trigger] encodes(b@, v, h, ps, t) implies {
                &&& ps[i as int].len() == size
                &&& pos + size + pad_of(size as nat, page as nat) <= len
                &&& b@.subrange(pos as int, pos + size) == ps[i as int]
                &&& b@.subrange(
                    pos + size,
                    (pos + size + pad_of(size as nat, page as nat)) as int,
                ) == zeros(pad_of(size as nat, page as nat))
            } by {
                lemma_component_at(b@, v, h, ps, t, i as int);
            }
        }
        if size > len - pos {
            return Err(PatchError::InvalidFormat { offset: off });
        }
        let pad = pad_len(size, page);
        if pad > len - pos - size {
            return Err(PatchError::InvalidFormat { offset: pos + size });
        }
        if !all_zero(b, pos + size, pos + size + pad) {
            return Err(PatchError::InvalidFormat { offset: pos + size });
        }
        let c = copy_range(b, pos, pos + size);
        let ghost prev = views(comps@);
        comps.push(c);
        proof {
            let nv = views(comps@);
            assert(nv.drop_last() =~= prev);
            assert(nv.last() == c@);
            assert(b@.subrange(page as int, (pos + size + pad) as int) =~= b@.subrange(
                page as int,
                pos as int,
            ) + c@ + zeros(pad as nat));
            assert forall|j: int| 0 <= j < i + 1 implies le32(header@, size_offset(version, j))
                == (#[trigger] nv[j]).len() by {
                if j < i {
                    assert(nv[j] == prev[j]);
                }
            }
            assert forall|v: u32, h: Seq<u8>, ps: Seq<Seq<u8>>, t: Seq<u8>| #[trigger]
                encodes(b@, v, h, ps, t) implies ps.take(i + 1) == nv by {
                assert(ps.take(i + 1) =~= ps.take(i as int).push(
                    ps[i as int],
                ));
                assert(nv =~= prev.push(c@));
            }
        }
        pos = pos + size + pad;
        i = i + 1;
    }
    let tail = copy_range(b, pos, len);
    let img = BootImage { version, page_size: page, header, components: comps, tail };
    proof {
        assert(b@ =~= header@ + body(views(comps@), page as nat) + tail@);
        assert(img.is_image_of(b@));
    }
    Ok(img)
}

/// The header `h` with the size fields of its first `n` components set to
/// the lengths of `parts`.
pub open spec fn with_sizes(h: Seq<u8>, version: u32, parts: Seq<Seq<u8>>, n: nat) -> Seq<u8>
    decreases n,
{
    if n == 0 {
        h
    } else {
        splice(
            with_sizes(h, version, parts, (n - 1) as nat),
            size_offset(version, n - 1),
            u32_bytes(parts[n - 1].len() as u32),
        )
    }
}

/// What the id digest covers: each component followed by its length.
pub open spec fn digest_input(parts: Seq<Seq<u8>>) -> Seq<u8>
    decreases parts.len(),
{
    if parts.len() == 0 {
        Seq::empty()
    } else {
        digest_input(parts.drop_last()) + parts.last() + u32_bytes(parts.last().len() as u32)
    }
}

/// The SHA-1 digest of `data`.
pub uninterp spec fn sha1_of(data: Seq<u8>) -> Seq<u8>;

/// The 32-byte id field: the digest, then zeros.
pub open spec fn id_field(parts: Seq<Seq<u8>>) -> Seq<u8> {
    let d = sha1_of(digest_input(parts));
    Seq::new(32, |i: int| if i < d.len() { d[i] } else { 0u8 })
}

/// The header as a repack writes it: every size field recomputed and, in
/// the layouts that carry one, the id digest too.
pub open spec fn fresh_header(version: u32, h: Seq<u8>, parts: Seq<Seq<u8>>) -> Seq<u8> {
    let s = with_sizes(h, version, parts, parts.len());
    if version <= 2 {
        splice(s, ID_OFFSET as int, id_field(parts))
    } else {
        s
    }
}

/// The bytes of the image with header `h`, components `parts` and trailing
/// bytes `tail`, as a repack writes them.
pub open spec fn packed(version: u32, h: Seq<u8>, parts: Seq<Seq<u8>>, tail: Seq<u8>) -> Seq<
    u8,
> {
    fresh_header(version, h, parts) + body(parts, h.len()) + tail
}

/// Every component fits its 32-bit size field.
pub open spec fn fits(parts: Seq<Seq<u8>>) -> bool {
    forall|i: int| 0 <= i < parts.len() ==> (#[trigger] parts[i]).len() <= u32::MAX
}

/// The id field already holds the digest of the components (layouts 0 to 2).
pub open spec fn id_current(version: u32, h: Seq<u8>, parts: Seq<Seq<u8>>) -> bool {
    version <= 2 ==> h.subrange(ID_OFFSET as int, ID_OFFSET + 32) == id_field(parts)
}

/// Relies on `sha1::Sha1::digest`: the SHA-1 digest of the bytes, which is
/// 20 bytes long.
#[verifier::external_body]
fn sha1_digest(data: &Vec<u8>) -> (r: Vec<u8>)
    ensures
        r@ == sha1_of(data@),
        r@.len() == 20,
{
    <sha1::Sha1 as sha1::Digest>::digest(data.as_slice()).to_vec()
}

/// Whether byte `k` of a header lies in the size field of one of the first
/// `n` components.
pub open spec fn in_size_fields(version: u32, k: int, n: nat) -> bool
    decreases n,
{
    if n == 0 {
        false
    } else {
        (size_offset(version, n - 1) <= k < size_offset(version, n - 1) + 4) || in_size_fields(
            version,
            k,
            (n - 1) as nat,
        )
    }
}

proof fn lemma_with_sizes(h: Seq<u8>, version: u32, parts: Seq<Seq<u8>>, n: nat)
    requires
        version <= MAX_VERSION,
        h.len() >= 2048,
        parts.len() == component_count(version),
        n <= parts.len(),
    ensures
        with_sizes(h, version, parts, n).len() == h.len(),
        forall|k: int|
            (0 <= k < 8 || 28 <= k < 1580) ==> #[trigger] with_sizes(h, version, parts, n)[k]
                == h[k],
        forall|k: int|
            0 <= k < h.len() && !in_size_fields(version, k, n) ==> #[trigger] with_sizes(
                h,
                version,
                parts,
                n,
            )[k] == h[k],
        forall|j: int|
            0 <= j < n ==> le32(with_sizes(h, version, parts, n), size_offset(version, j)) == (
            #[trigger] parts[j]).len() as u32,
    decreases n,
{
    if n > 0 {
        lemma_with_sizes(h, version, parts, (n - 1) as nat);
        let prev = with_sizes(h, version, parts, (n - 1) as nat);
        let off = size_offset(version, n - 1);
        let x = parts[n - 1].len() as u32;
        let ws = with_sizes(h, version, parts, n);
        assert(ws == splice(prev, off, u32_bytes(x)));
        assert forall|k: int| 0 <= k < ws.len() && !(off <= k < off + 4) implies ws[k] == prev[k] by {
            if k < off {
                assert(ws[k] == prev.subrange(0, off)[k]);
            } else {
                assert(ws[k] == prev.subrange(off + 4, prev.len() as int)[k - off - 4]);
            }
        }
        assert forall|t: int| 0 <= t < 4 implies ws[off + t] == #[trigger] u32_bytes(x)[t] by {
            assert((prev.subrange(0, off) + u32_bytes(x))[off + t] == u32_bytes(x)[t]);
        }
        lemma_le32_of_bytes(x);
        assert forall|j: int| 0 <= j < n implies le32(ws, size_offset(version, j)) == (
        #[trigger] parts[j]).len() as u32 by {
            if j < n - 1 {
                let o = size_offset(version, j);
                assert(o + 4 <= off);
                assert(ws[o] == prev[o] && ws[o + 1] == prev[o + 1] && ws[o + 2] == prev[o + 2]
                    && ws[o + 3] == prev[o + 3]);
            }
        }
    }
}

proof fn lemma_with_sizes_same(h: Seq<u8>, version: u32, parts: Seq<Seq<u8>>, n: nat)
    requires
        version <= MAX_VERSION,
        h.len() >= 2048,
        parts.len() == component_count(version),
        n <= parts.len(),
        forall|j: int|
            0 <= j < parts.len() ==> le32(h, size_offset(version, j)) == (#[trigger] parts[j]).len(),
    ensures
        with_sizes(h, version, parts, n) == h,
    decreases n,
{
    if n > 0 {
        lemma_with_sizes_same(h, version, parts, (n - 1) as nat);
        let off = size_offset(version, n - 1);
        assert(le32(h, off) == parts[n - 1].len());
        lemma_splice_same(h, off);
    }
}

/// The bytes a repack writes are an image again, whose header is the fresh
/// one and whose components and trailing bytes are those packed.
pub proof fn lemma_packed_encodes(version: u32, h: Seq<u8>, parts: Seq<Seq<u8>>, tail: Seq<u8>)
    requires
        header_ok(h),
        version == le32(h, VERSION_OFFSET as int),
        h.len() == page_of(version, h),
        parts.len() == component_count(version),
        fits(parts),
    ensures
        fresh_header(version, h, parts).len() == h.len(),
        is_image(packed(version, h, parts, tail)),
        encodes(
            packed(version, h, parts, tail),
            version,
            fresh_header(version, h, parts),
            parts,
            tail,
        ),
{
    lemma_with_sizes(h, version, parts, parts.len());
    let s = with_sizes(h, version, parts, parts.len());
    let f = fresh_header(version, h, parts);
    if version <= 2 {
        lemma_id_splice(s, id_field(parts), version);
    }
    assert forall|k: int| 0 <= k < 8 || 36 <= k < 44 implies #[trigger] f[k] == h[k] by {}
    assert(f.subrange(0, 8) =~= h.subrange(0, 8));
    assert(le32(f, VERSION_OFFSET as int) == le32(h, VERSION_OFFSET as int));
    assert(le32(f, PAGE_SIZE_OFFSET as int) == le32(h, PAGE_SIZE_OFFSET as int));
    assert forall|i: int| 0 <= i < parts.len() implies le32(f, size_offset(version, i)) == (
    #[trigger] parts[i]).len() by {
        assert(le32(s, size_offset(version, i)) == parts[i].len() as u32);
    }
    assert(encodes(packed(version, h, parts, tail), version, f, parts, tail));
}

proof fn lemma_id_splice(s: Seq<u8>, id: Seq<u8>, version: u32)
    requires
        s.len() >= 2048,
        id.len() == 32,
        version <= 2,
    ensures
        splice(s, ID_OFFSET as int, id).len() == s.len(),
        forall|k: int|
            0 <= k < s.len() && !(576 <= k < 608) ==> #[trigger] splice(s, ID_OFFSET as int, id)[k]
                == s[k],
{
    let r = splice(s, ID_OFFSET as int, id);
    assert forall|k: int| 0 <= k < s.len() && !(576 <= k < 608) implies #[trigger] r[k] == s[k] by {
        if k < 576 {
            assert(r[k] == s.subrange(0, 576)[k]);
        } else {
            assert(r[k] == s.subrange(608, s.len() as int)[k - 608]);
        }
    }
}

/// Repacking an unpacked image whose id digest is current gives back the
/// bytes it was unpacked from.
pub proof fn lemma_round_trip(b: Seq<u8>, img: BootImage)
    requires
        img.is_image_of(b),
        id_current(img.version, img.header@, img.parts()),
    ensures
        img.wf(),
        fits(img.parts()),
        packed(img.version, img.header@, img.parts(), img.tail@) == b,
{
    let h = img.header@;
    let parts = img.parts();
    lemma_image_header(b, img.version, h, parts, img.tail@);
    lemma_with_sizes_same(h, img.version, parts, parts.len());
    if img.version <= 2 {
        assert(splice(h, ID_OFFSET as int, h.subrange(576, 608)) =~= h);
    }
    assert(fresh_header(img.version, h, parts) == h);
}

/// Replacing the kernel and repacking changes the kernel alone: the result
/// unpacks, to the new kernel, every other component and the trailing bytes
/// exactly as they were, and a header whose bytes other than the size
/// fields and the id digest are kept.
pub proof fn lemma_kernel_only_mutation(img: BootImage, kernel: Seq<u8>, w: BootImage)
    requires
        img.wf(),
        fits(img.parts().update(KERNEL as int, kernel)),
    ensures
        is_image(packed(img.version, img.header@, img.parts().update(KERNEL as int, kernel), img.tail@)),
        w.is_image_of(
            packed(img.version, img.header@, img.parts().update(KERNEL as int, kernel), img.tail@),
        ) ==> {
            &&& w.parts()[KERNEL as int] == kernel
            &&& w.parts().len() == img.parts().len()
            &&& forall|i: int|
                0 <= i < img.parts().len() && i != KERNEL ==> #[trigger] w.parts()[i]
                    == img.parts()[i]
            &&& w.tail@ == img.tail@
            &&& w.version == img.version
            &&& w.page_size == img.page_size
            &&& w.header@.len() == img.header@.len()
            &&& forall|k: int|
                0 <= k < img.header@.len() && !in_size_fields(
                    img.version,
                    k,
                    component_count(img.version),
                ) && !(img.version <= 2 && ID_OFFSET <= k < ID_OFFSET + 32) ==> #[trigger] w.header@[k]
                    == img.header@[k]
        },
{
    let parts = img.parts().update(KERNEL as int, kernel);
    lemma_packed_encodes(img.version, img.header@, parts, img.tail@);
    if w.is_image_of(packed(img.version, img.header@, parts, img.tail@)) {
        lemma_unpack_packed(img.version, img.header@, parts, img.tail@, w);
        lemma_with_sizes(img.header@, img.version, parts, parts.len());
        let s = with_sizes(img.header@, img.version, parts, parts.len());
        if img.version <= 2 {
            lemma_id_splice(s, id_field(parts), img.version);
        }
    }
}

/// Unpacking what a repack wrote gives back the components and trailing
/// bytes that were packed.
pub proof fn lemma_unpack_packed(
    version: u32,
    h: Seq<u8>,
    parts: Seq<Seq<u8>>,
    tail: Seq<u8>,
    w: BootImage,
)
    requires
        header_ok(h),
        version == le32(h, VERSION_OFFSET as int),
        h.len() == page_of(version, h),
        parts.len() == component_count(version),
        fits(parts),
        w.is_image_of(packed(version, h, parts, tail)),
    ensures
        w.version == version,
        w.header@ == fresh_header(version, h, parts),
        w.parts() == parts,
        w.tail@ == tail,
{
    lemma_packed_encodes(version, h, parts, tail);
    let f = fresh_header(version, h, parts);
    lemma_image_unique(
        packed(version, h, parts, tail),
        w.version,
        w.header@,
        w.parts(),
        w.tail@,
        version,
        f,
        parts,
        tail,
    );
}

/// Serialises the image: each size field is recomputed, the id digest too
/// where the layout has one, each component is padded to the page size, and
/// the header page's other bytes and the trailing bytes are kept. It fails
/// exactly when a component is too long for its 32-bit size field.
pub fn pack(img: &BootImage) -> (r: Result<Vec<u8>, PatchError>)
    requires
        img.wf(),
    ensures
        r is Ok <==> fits(img.parts()),
        r matches Ok(out) ==> out@ == packed(img.version, img.header@, img.parts(), img.tail@),
        r is Err ==> r matches Err(PatchError::SerializationOverflow { .. }),
{
    let count = img.components.len();
    let ghost parts = img.parts();
    let mut i: usize = 0;
    while i < count
        invariant
            count == parts.len(),
            parts == img.parts(),
            i <= count,
            forall|j: int| 0 <= j < i ==> (#[trigger] parts[j]).len() <= u32::MAX,
        decreases count - i,
    {
        assert(img.components@[i as int]@ == parts[i as int]);
        let size = img.components[i].len();
        if size > 0xFFFF_FFFF {
            return Err(PatchError::SerializationOverflow { component: i, size });
        }
        i = i + 1;
    }
    let mut h = copy_range(&img.header, 0, img.header.len());
    proof {
        assert(h@ =~= img.header@);
    }
    i = 0;
    while i < count
        invariant
            count == parts.len(),
            parts == img.parts(),
            img.wf(),
            i <= count,
            h@ == with_sizes(img.header@, img.version, parts, i as nat),
            h@.len() == img.header@.len(),
            img.header@.len() >= 2048,
        decreases count - i,
    {
        let off = size_offset_of(img.version, i);
        assert(img.components@[i as int]@ == parts[i as int]);
        let size = img.components[i].len() as u32;
        write_u32(&mut h, off, size);
        i = i + 1;
    }
    proof {
        lemma_with_sizes(img.header@, img.version, parts, parts.len());
    }
    if img.version <= 2 {
        let mut di: Vec<u8> = Vec::new();
        i = 0;
        while i < count
            invariant
                count == parts.len(),
                parts == img.parts(),
                i <= count,
                di@ == digest_input(parts.take(i as int)),
            decreases count - i,
        {
            assert(img.components@[i as int]@ == parts[i as int]);
            append_bytes(&mut di, &img.components[i]);
            append_u32(&mut di, img.components[i].len() as u32);
            proof {
                assert(parts.take(i + 1).drop_last() =~= parts.take(i as int));
            }
            i = i + 1;
        }
        proof {
            assert(parts.take(count as int) =~= parts);
        }
        let mut id = sha1_digest(&di);
        append_zeros(&mut id, 12);
        proof {
            assert(id@ =~= id_field(parts));
        }
        write_bytes(&mut h, ID_OFFSET, &id);
    }
    let mut out = h;
    let ghost fresh = out@;
    let page = img.page_size;
    i = 0;
    while i < count
        invariant
            count == parts.len(),
            parts == img.parts(),
            i <= count,
            page == img.header@.len(),
            page > 0,
            out@ == fresh + body(parts.take(i as int), page as nat),
        decreases count - i,
    {
        assert(img.components@[i as int]@ == parts[i as int]);
        append_bytes(&mut out, &img.components[i]);
        let pad = pad_len(img.components[i].len(), page);
        append_zeros(&mut out, pad);
        proof {
            assert(parts.take(i + 1).drop_last() =~= parts.take(i as int));
            assert(out@ =~= fresh + body(parts.take(i + 1), page as nat));
        }
        i = i + 1;
    }
    proof {
        assert(parts.take(count as int) =~= parts);
    }
    append_bytes(&mut out, &img.tail);
    Ok(out)
}

impl BootImage {
    /// The kernel component; empty in an init_boot image.
    pub fn kernel(&self) -> (r: &Vec<u8>)
        requires
            self.wf(),
        ensures
            r@ == self.parts()[KERNEL as int],
    {
        &self.components[KERNEL]
    }

    /// The ramdisk component, as stored (compressed or not).
    pub fn ramdisk(&self) -> (r: &Vec<u8>)
        requires
            self.wf(),
        ensures
            r@ == self.parts()[RAMDISK as int],
    {
        &self.components[RAMDISK]
    }

    /// Whether the image can take a kernel. An init_boot image, a version 4
    /// image with an empty kernel, has no kernel slot.
    pub open spec fn has_kernel_slot(&self) -> bool {
        !(self.version == MAX_VERSION && self.parts()[KERNEL as int].len() == 0)
    }

    /// Swaps the kernel for `kernel` and changes nothing else; fails with
    /// `NoKernelSlot` on an init_boot image.
    pub fn replace_kernel(&mut self, kernel: Vec<u8>) -> (r: Result<(), PatchError>)
        requires
            old(self).wf(),
        ensures
            final(self).wf(),
            r is Ok <==> old(self).has_kernel_slot(),
            r is Ok ==> final(self).parts() == old(self).parts().update(KERNEL as int, kernel@),
            r is Err ==> r == Err::<(), PatchError>(PatchError::NoKernelSlot) && final(self).parts()
                == old(self).parts(),
            final(self).version == old(self).version,
            final(self).page_size == old(self).page_size,
            final(self).header@ == old(self).header@,
            final(self).tail@ == old(self).tail@,
    {
        if self.version == MAX_VERSION && self.components[KERNEL].len() == 0 {
            return Err(PatchError::NoKernelSlot);
        }
        self.components.set(KERNEL, kernel);
        proof {
            assert(self.parts() =~= old(self).parts().update(KERNEL as int, kernel@));
        }
        Ok(())
    }

    /// Swaps the ramdisk for `ramdisk` and changes nothing else.
    pub fn replace_ramdisk(&mut self, ramdisk: Vec<u8>)
        requires
            old(self).wf(),
        ensures
            final(self).wf(),
            final(self).parts() == old(self).parts().update(RAMDISK as int, ramdisk@),
            final(self).version == old(self).version,
            final(self).page_size == old(self).page_size,
            final(self).header@ == old(self).header@,
            final(self).tail@ == old(self).tail@,
    {
        self.components.set(RAMDISK, ramdisk);
        proof {
            assert(self.parts() =~= old(self).parts().update(RAMDISK as int, ramdisk@));
        }
    }
}

} // verus!
