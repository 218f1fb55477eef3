use vstd::prelude::*;

use crate::plan::PartitionKind;

verus! {

/// Why one run of the patch engine stopped. Every kind is fatal to that run.
#[derive(Debug, Clone, PartialEq, Eq)]
pub enum PatchError {
    /// Neither an explicit image nor a readable partition device could be
    /// found; `partition` is the one asked for, if any.
    SourceNotFound { partition: Option<PartitionKind> },
    /// Both the boot and the init_boot partition could be patched and the plan picks neither.
    AmbiguousTarget,
    /// The image is not in a layout this engine knows; `offset` is where reading stopped.
    InvalidFormat { offset: usize },
    /// The ramdisk starts with no known codec signature.
    UnsupportedCompression,
    /// A ramdisk archive entry is malformed or truncated at `offset`.
    CorruptRamdisk { offset: usize },
    /// The plan asks for neither kernel replacement nor module injection.
    NoPatchSpecified,
    /// The plan asks for kernel replacement and module injection at once.
    ConflictingStrategies,
    /// The plan names a module without an init, or an init without a module.
    UnpairedModuleInit,
    /// The replacement kernel could not be read.
    KernelReadError { path: String },
    /// The image has no kernel component to replace.
    NoKernelSlot,
    /// The kernel module could not be read.
    ModuleReadError { path: String },
    /// The ramdisk holds no init entry.
    InitEntryMissing,
    /// The ramdisk already holds `init.real` or `kernelsu.ko`: it was patched before.
    AlreadyPatched,
    /// Component `component` is `size` bytes long, more than its size field can hold.
    SerializationOverflow { component: usize, size: usize },
    /// The partition device could not be opened for writing.
    FlashPermission { device: String },
    /// Only `written` of the image's `expected` bytes reached the device.
    FlashIncomplete { expected: usize, written: usize },
}

} // verus!
