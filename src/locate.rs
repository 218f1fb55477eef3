use vstd::prelude::*;

use crate::error::PatchError;
use crate::plan::PartitionKind;

verus! {

/// The A/B slot a device runs from.
#[derive(Debug, Clone, Copy, PartialEq, Eq, Structural)]
pub enum Slot {
    A,
    B,
    /// A device without A/B partitions.
    Unslotted,
}

/// Where the image to patch comes from.
#[derive(Debug, Clone, PartialEq, Eq)]
pub enum Source {
    File(String),
    Device(PartitionKind),
}

/// The slot that `ota` selects when running from `current`.
pub open spec fn target_slot_spec(current: Slot, ota: bool) -> Slot {
    if !ota {
        current
    } else {
        match current {
            Slot::A => Slot::B,
            Slot::B => Slot::A,
            Slot::Unslotted => Slot::Unslotted,
        }
    }
}

/// The running slot as the boot property's suffix (`_a`, `_b`) gives it.
pub fn slot_from_suffix(suffix: &Vec<u8>) -> (r: Slot)
    ensures
        r == (if suffix@ == seq![95u8, 97u8] {
            Slot::A
        } else if suffix@ == seq![95u8, 98u8] {
            Slot::B
        } else {
            Slot::Unslotted
        }),
{
    if suffix.len() == 2 && suffix[0] == 95 && suffix[1] == 97 {
        assert(suffix@ =~= seq![95u8, 97u8]);
        Slot::A
    } else if suffix.len() == 2 && suffix[0] == 95 && suffix[1] == 98 {
        assert(suffix@ =~= seq![95u8, 98u8]);
        Slot::B
    } else {
        proof {
            if suffix@ == seq![95u8, 97u8] || suffix@ == seq![95u8, 98u8] {
                assert(suffix@[0] == 95u8 && suffix@.len() == 2);
            }
        }
        Slot::Unslotted
    }
}

/// The slot to patch: the running one, or the other one for an update.
pub fn target_slot(current: Slot, ota: bool) -> (r: Slot)
    ensures
        r == target_slot_spec(current, ota),
{
    if !ota {
        current
    } else {
        match current {
            Slot::A => Slot::B,
            Slot::B => Slot::A,
            Slot::Unslotted => Slot::Unslotted,
        }
    }
}

/// `/dev/block/by-name/`
pub open spec fn by_name_dir() -> Seq<u8> {
    seq![
        47u8, 100u8, 101u8, 118u8, 47u8, 98u8, 108u8, 111u8, 99u8, 107u8, 47u8, 98u8, 121u8,
        45u8, 110u8, 97u8, 109u8, 101u8, 47u8,
    ]
}

pub open spec fn partition_base(kind: PartitionKind) -> Seq<u8> {
    match kind {
        PartitionKind::Boot => seq![98u8, 111u8, 111u8, 116u8],
        PartitionKind::InitBoot => seq![
            105u8, 110u8, 105u8, 116u8, 95u8, 98u8, 111u8, 111u8, 116u8,
        ],
    }
}

pub open spec fn slot_suffix(slot: Slot) -> Seq<u8> {
    match slot {
        Slot::A => seq![95u8, 97u8],
        Slot::B => seq![95u8, 98u8],
        Slot::Unslotted => Seq::empty(),
    }
}

fn push_all(out: &mut Vec<u8>, src: &[u8])
    ensures
        final(out)@ == old(out)@ + src@,
{
    let mut i: usize = 0;
    while i < src.len()
        invariant
            i <= src@.len(),
            out@ == old(out)@ + src@.subrange(0, i as int),
        decreases src@.len() - i,
    {
        out.push(src[i]);
        i = i + 1;
        assert(out@ =~= old(out)@ + src@.subrange(0, i as int));
    }
    assert(src@.subrange(0, i as int) =~= src@);
}

/// The device node of partition `kind` in `slot`, such as
/// `/dev/block/by-name/init_boot_b`.
pub fn device_path(kind: PartitionKind, slot: Slot) -> (r: Vec<u8>)
    ensures
        r@ == by_name_dir() + partition_base(kind) + slot_suffix(slot),
{
    let dir: [u8; 19] = [
        47, 100, 101, 118, 47, 98, 108, 111, 99, 107, 47, 98, 121, 45, 110, 97, 109, 101, 47,
    ];
    let boot: [u8; 4] = [98, 111, 111, 116];
    let init_boot: [u8; 9] = [105, 110, 105, 116, 95, 98, 111, 111, 116];
    let a: [u8; 2] = [95, 97];
    let b: [u8; 2] = [95, 98];
    let mut r: Vec<u8> = Vec::new();
    push_all(&mut r, &dir);
    assert(dir@ =~= by_name_dir());
    match kind {
        PartitionKind::Boot => {
            push_all(&mut r, &boot);
            assert(boot@ =~= partition_base(kind));
        },
        PartitionKind::InitBoot => {
            push_all(&mut r, &init_boot);
            assert(init_boot@ =~= partition_base(kind));
        },
    }
    let ghost before = r@;
    match slot {
        Slot::A => {
            push_all(&mut r, &a);
            assert(a@ =~= slot_suffix(slot));
        },
        Slot::B => {
            push_all(&mut r, &b);
            assert(b@ =~= slot_suffix(slot));
        },
        Slot::Unslotted => {
            assert(r@ =~= before + slot_suffix(slot));
        },
    }
    r
}

/// Whether partition `kind` can take the patch: it exists on the device,
/// and an init_boot partition, which has no kernel, cannot take a kernel.
pub open spec fn candidate(kind: PartitionKind, present: bool, replace_kernel: bool) -> bool {
    present && !(kind == PartitionKind::InitBoot && replace_kernel)
}

/// Resolves the image to patch. An explicit file wins. Otherwise the
/// partition the plan names is taken if it can take the patch; with none
/// named, the one partition of the target slot that can, if there is
/// exactly one. `boot_present` and `init_boot_present` say which of the
/// target slot's partitions exist and are readable.
pub fn locate(
    image: &Option<String>,
    partition: Option<PartitionKind>,
    replace_kernel: bool,
    boot_present: bool,
    init_boot_present: bool,
) -> (r: Result<Source, PatchError>)
    ensures
        image.is_some() ==> r == Ok::<Source, PatchError>(Source::File(image.unwrap())),
        ({
            let boot = candidate(PartitionKind::Boot, boot_present, replace_kernel);
            let init = candidate(PartitionKind::InitBoot, init_boot_present, replace_kernel);
            image.is_none() ==> match partition {
                Some(k) => if (k == PartitionKind::Boot && boot) || (k == PartitionKind::InitBoot
                    && init) {
                    r == Ok::<Source, PatchError>(Source::Device(k))
                } else {
                    r == Err::<Source, PatchError>(
                        PatchError::SourceNotFound { partition: Some(k) },
                    )
                },
                None => if boot && init {
                    r == Err::<Source, PatchError>(PatchError::AmbiguousTarget)
                } else if boot {
                    r == Ok::<Source, PatchError>(Source::Device(PartitionKind::Boot))
                } else if init {
                    r == Ok::<Source, PatchError>(Source::Device(PartitionKind::InitBoot))
                } else {
                    r == Err::<Source, PatchError>(PatchError::SourceNotFound { partition: None })
                },
            }
        }),
{
    if let Some(p) = image {
        return Ok(Source::File(p.clone()));
    }
    let boot = boot_present;
    let init = init_boot_present && !replace_kernel;
    match partition {
        Some(k) => {
            let ok = match k {
                PartitionKind::Boot => boot,
                PartitionKind::InitBoot => init,
            };
            if ok {
                Ok(Source::Device(k))
            } else {
                Err(PatchError::SourceNotFound { partition: Some(k) })
            }
        },
        None => {
            if boot && init {
                Err(PatchError::AmbiguousTarget)
            } else if boot {
                Ok(Source::Device(PartitionKind::Boot))
            } else if init {
                Ok(Source::Device(PartitionKind::InitBoot))
            } else {
                Err(PatchError::SourceNotFound { partition: None })
            }
        },
    }
}

/// The partition chosen when no file is given: the named one if it can take
/// the patch, else the one partition that can.
pub open spec fn auto_partition(
    partition: Option<PartitionKind>,
    replace_kernel: bool,
    boot_present: bool,
    init_boot_present: bool,
) -> Result<PartitionKind, PatchError> {
    let boot = candidate(PartitionKind::Boot, boot_present, replace_kernel);
    let init = candidate(PartitionKind::InitBoot, init_boot_present, replace_kernel);
    match partition {
        Some(k) => if (k == PartitionKind::Boot && boot) || (k == PartitionKind::InitBoot && init) {
            Ok(k)
        } else {
            Err(PatchError::SourceNotFound { partition: Some(k) })
        },
        None => if boot && init {
            Err(PatchError::AmbiguousTarget)
        } else if boot {
            Ok(PartitionKind::Boot)
        } else if init {
            Ok(PartitionKind::InitBoot)
        } else {
            Err(PatchError::SourceNotFound { partition: None })
        },
    }
}

/// The partition to flash the patched image to: the one it was read from,
/// or, for an image read from a file, the one the locator would pick.
pub fn flash_target(
    source: &Source,
    partition: Option<PartitionKind>,
    replace_kernel: bool,
    boot_present: bool,
    init_boot_present: bool,
) -> (r: Result<PartitionKind, PatchError>)
    ensures
        r == match source {
            Source::Device(k) => Ok(*k),
            Source::File(_) => auto_partition(
                partition,
                replace_kernel,
                boot_present,
                init_boot_present,
            ),
        },
{
    match source {
        Source::Device(k) => Ok(*k),
        Source::File(_) => match locate(
            &None,
            partition,
            replace_kernel,
            boot_present,
            init_boot_present,
        ) {
            Ok(Source::Device(k)) => Ok(k),
            Ok(Source::File(_)) => Err(PatchError::SourceNotFound { partition }),
            Err(e) => Err(e),
        },
    }
}
} // verus!
