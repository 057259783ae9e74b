//! Configuration of the virtualiser.

use vstd::prelude::*;

use crate::common::{StorageAccess, StorageId, StorageTable, VIRT_BYTECODE};
use crate::virt::adaptive_cfg::AdaptiveSplitConfig;

verus! {

/// How control reaches the handler of a step.
#[derive(Clone, Copy, PartialEq, Eq, Debug, Structural)]
pub enum DispatchMode {
    /// By a jump on the handler index, which is public.
    Public,
    /// By running every handler and selecting outputs. No pass here emits it:
    /// modules are virtualised for public dispatch.
    Oblivious,
}

/// What is lifted out of a block before blocks are compared.
#[derive(Clone, Copy, PartialEq, Eq, Debug, Structural)]
pub enum DedupPolicy {
    /// Constants, constant terms of polynomials and jump targets.
    ConstantsAndTargets,
    /// Scalar parameters too. Reserved.
    Maximal,
}

/// The knobs of the virtualiser.
#[derive(Debug)]
pub struct VirtualizeConfig {
    pub dispatch: DispatchMode,
    pub dedup: DedupPolicy,
    /// The first storage of the bytecode table. The table, and the register
    /// file behind it, must not meet a storage of the input.
    pub bytecode_storage: StorageId,
    /// Let each handler jump to its successor itself. Typed modules only.
    pub direct_dispatch: bool,
    pub adaptive_split: AdaptiveSplitConfig,
    /// What the caller declares of its storages.
    pub storage_access: StorageTable,
}

impl Default for VirtualizeConfig {
    fn default() -> (r: Self)
        ensures
            r.dispatch == DispatchMode::Public,
            r.dedup == DedupPolicy::ConstantsAndTargets,
            r.bytecode_storage == StorageId(VIRT_BYTECODE),
            !r.direct_dispatch,
            !r.adaptive_split.enabled,
            forall|s: StorageId| #[trigger] r.storage_access.access(s) == StorageAccess::ReadWrite,
    {
        VirtualizeConfig {
            dispatch: DispatchMode::Public,
            dedup: DedupPolicy::ConstantsAndTargets,
            bytecode_storage: StorageId(VIRT_BYTECODE),
            direct_dispatch: false,
            adaptive_split: AdaptiveSplitConfig::default(),
            storage_access: StorageTable::new(),
        }
    }
}

} // verus!
