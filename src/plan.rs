use vstd::prelude::*;

use crate::error::PatchError;

verus! {

/// The two partitions an image can come from.
#[derive(Debug, Clone, Copy, PartialEq, Eq, Structural)]
pub enum PartitionKind {
    Boot,
    InitBoot,
}

/// What a caller asks the engine to do.
#[derive(Debug, Clone)]
pub struct PatchPlan {
    /// The image to patch; `None` asks for the running device's partition.
    pub image: Option<String>,
    /// A kernel to put in place of the image's own.
    pub kernel: Option<String>,
    /// A kernel module to load before init; goes with `init`.
    pub module: Option<String>,
    /// The init that loads `module`; goes with `module`.
    pub init: Option<String>,
    /// Patch the other A/B slot than the running one.
    pub ota: bool,
    /// Write the result to the partition it came from.
    pub flash: bool,
    /// Where to write the patched image.
    pub out: Option<String>,
    /// An external helper for the ramdisk codecs.
    pub helper: Option<String>,
    /// Which partition to take when both could be patched.
    pub partition: Option<PartitionKind>,
}

/// How the image will be changed.
#[derive(Debug, Clone, PartialEq, Eq)]
pub enum Strategy {
    /// Put the kernel at this path in place of the image's own.
    ReplaceKernel { kernel: String },
    /// Add the module at `module` to the ramdisk and run the init at `init` first.
    InjectModule { module: String, init: String },
}

/// Checks a plan before any file is read, and says which strategy it asks for.
pub fn validate(plan: &PatchPlan) -> (r: Result<Strategy, PatchError>)
    ensures
        plan.module.is_some() != plan.init.is_some() ==> r == Err::<Strategy, PatchError>(
            PatchError::UnpairedModuleInit,
        ),
        plan.module.is_some() == plan.init.is_some() && plan.kernel.is_some()
            && plan.module.is_some() ==> r == Err::<Strategy, PatchError>(
            PatchError::ConflictingStrategies,
        ),
        plan.module.is_none() && plan.init.is_none() && plan.kernel.is_none() ==> r == Err::<
            Strategy,
            PatchError,
        >(PatchError::NoPatchSpecified),
        plan.module.is_none() && plan.init.is_none() && plan.kernel.is_some() ==> r == Ok::<
            Strategy,
            PatchError,
        >(Strategy::ReplaceKernel { kernel: plan.kernel.unwrap() }),
        plan.module.is_some() && plan.init.is_some() && plan.kernel.is_none() ==> r == Ok::<
            Strategy,
            PatchError,
        >(Strategy::InjectModule { module: plan.module.unwrap(), init: plan.init.unwrap() }),
{
    match (&plan.module, &plan.init) {
        (Some(m), Some(i)) => {
            if plan.kernel.is_some() {
                Err(PatchError::ConflictingStrategies)
            } else {
                Ok(Strategy::InjectModule { module: m.clone(), init: i.clone() })
            }
        },
        (None, None) => match &plan.kernel {
            Some(k) => Ok(Strategy::ReplaceKernel { kernel: k.clone() }),
            None => Err(PatchError::NoPatchSpecified),
        },
        _ => Err(PatchError::UnpairedModuleInit),
    }
}

} // verus!
