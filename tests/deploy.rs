use ksud::deploy::{check_written, flash, PartitionSink};
use ksud::error::PatchError;
use ksud::locate::{device_path, flash_target, locate, slot_from_suffix, target_slot, Slot, Source};
use ksud::plan::{validate, PartitionKind, PatchPlan, Strategy};

fn plan() -> PatchPlan {
    PatchPlan {
        image: None,
        kernel: None,
        module: None,
        init: None,
        ota: false,
        flash: false,
        out: None,
        helper: None,
        partition: None,
    }
}

#[test]
fn flash_within_capacity_writes_exact_length() {
    let mut sink = PartitionSink::new(100);
    let image: Vec<u8> = (0..60).collect();
    assert_eq!(flash(&mut sink, &image), Ok(60));
    assert_eq!(sink.data, image);
    let mut exact = PartitionSink::new(60);
    assert_eq!(flash(&mut exact, &image), Ok(60));
}

#[test]
fn flash_past_capacity_is_incomplete() {
    let mut sink = PartitionSink::new(50);
    let image: Vec<u8> = (0..60).collect();
    assert_eq!(flash(&mut sink, &image), Err(PatchError::FlashIncomplete { expected: 60, written: 50 }));
    assert_eq!(sink.data.len(), 50);
    assert_eq!(&sink.data[..], &image[..50]);
}

#[test]
fn short_write_check() {
    assert_eq!(check_written(10, 10), Ok(()));
    assert_eq!(check_written(10, 9), Err(PatchError::FlashIncomplete { expected: 10, written: 9 }));
}

#[test]
fn plan_module_without_init_is_rejected() {
    let mut p = plan();
    p.module = Some("m.ko".to_string());
    assert_eq!(validate(&p), Err(PatchError::UnpairedModuleInit));
    let mut q = plan();
    q.init = Some("init".to_string());
    assert_eq!(validate(&q), Err(PatchError::UnpairedModuleInit));
}

#[test]
fn plan_strategies() {
    assert_eq!(validate(&plan()), Err(PatchError::NoPatchSpecified));
    let mut k = plan();
    k.kernel = Some("Image".to_string());
    assert_eq!(validate(&k), Ok(Strategy::ReplaceKernel { kernel: "Image".to_string() }));
    let mut m = plan();
    m.module = Some("m.ko".to_string());
    m.init = Some("ksuinit".to_string());
    assert_eq!(
        validate(&m),
        Ok(Strategy::InjectModule { module: "m.ko".to_string(), init: "ksuinit".to_string() })
    );
    m.kernel = Some("Image".to_string());
    assert_eq!(validate(&m), Err(PatchError::ConflictingStrategies));
}

#[test]
fn slots() {
    assert_eq!(slot_from_suffix(&b"_a".to_vec()), Slot::A);
    assert_eq!(slot_from_suffix(&b"_b".to_vec()), Slot::B);
    assert_eq!(slot_from_suffix(&b"".to_vec()), Slot::Unslotted);
    assert_eq!(target_slot(Slot::A, true), Slot::B);
    assert_eq!(target_slot(Slot::B, true), Slot::A);
    assert_eq!(target_slot(Slot::A, false), Slot::A);
    assert_eq!(target_slot(Slot::Unslotted, true), Slot::Unslotted);
}

#[test]
fn device_paths() {
    assert_eq!(device_path(PartitionKind::InitBoot, Slot::B), b"/dev/block/by-name/init_boot_b".to_vec());
    assert_eq!(device_path(PartitionKind::Boot, Slot::Unslotted), b"/dev/block/by-name/boot".to_vec());
}

#[test]
fn locate_sources() {
    let file = Some("boot.img".to_string());
    assert_eq!(locate(&file, None, false, true, true), Ok(Source::File("boot.img".to_string())));
    assert_eq!(locate(&None, None, false, true, true), Err(PatchError::AmbiguousTarget));
    assert_eq!(locate(&None, None, true, true, true), Ok(Source::Device(PartitionKind::Boot)));
    assert_eq!(locate(&None, None, false, false, true), Ok(Source::Device(PartitionKind::InitBoot)));
    assert_eq!(
        locate(&None, Some(PartitionKind::InitBoot), false, true, true),
        Ok(Source::Device(PartitionKind::InitBoot))
    );
    assert_eq!(
        locate(&None, Some(PartitionKind::InitBoot), true, true, true),
        Err(PatchError::SourceNotFound { partition: Some(PartitionKind::InitBoot) })
    );
    assert_eq!(locate(&None, None, false, false, false), Err(PatchError::SourceNotFound { partition: None }));
}

#[test]
fn flash_targets() {
    let dev = Source::Device(PartitionKind::InitBoot);
    assert_eq!(flash_target(&dev, None, false, true, true), Ok(PartitionKind::InitBoot));
    let file = Source::File("boot.img".to_string());
    assert_eq!(flash_target(&file, None, false, true, true), Err(PatchError::AmbiguousTarget));
    assert_eq!(flash_target(&file, None, true, true, true), Ok(PartitionKind::Boot));
    assert_eq!(flash_target(&file, Some(PartitionKind::InitBoot), false, true, true), Ok(PartitionKind::InitBoot));
    assert_eq!(flash_target(&file, None, false, false, false), Err(PatchError::SourceNotFound { partition: None }));
}
