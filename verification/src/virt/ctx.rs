//! Deduplication of canonical blocks, and checks of declared storage access.

use vstd::prelude::*;

use crate::boolar::{BIrBlockView, BIrBlocks, BIrStmt, BIrStmtView};
use crate::common::{Constant, StorageAccess, StorageId, StorageTable};
use crate::ir::{ActionTarget, IRBlockView, IRBlocks, IRTypeId, Stmt, StmtView};
use crate::virt::bytecode::{
    entry_views, schema_views, BytecodeEntry, BytecodeRowKind, BytecodeView, EntryView,
    HandlerImmSchema, VirtBytecode,
};
use crate::virt::canon::{BlockImmediates, HandlerKey, ImmediatesView};

verus! {

// ---------------------------------------------------------------------------
// Declared storage access
// ---------------------------------------------------------------------------

/// A statement writes a storage that is declared read-only.
#[derive(Clone, Copy, PartialEq, Eq, Debug)]
pub struct StorageAccessViolation {
    pub storage: StorageId,
    pub operation: &'static str,
}

/// What a [`StorageAccessViolation`] denotes.
#[verifier::ext_equal]
pub struct ViolationView {
    pub storage: StorageId,
    pub operation: Seq<char>,
}

impl View for StorageAccessViolation {
    type V = ViolationView;

    open spec fn view(&self) -> ViolationView {
        ViolationView { storage: self.storage, operation: self.operation@ }
    }
}

/// The first of a list of cells whose storage is read-only.
pub open spec fn targets_violation(targets: Seq<ActionTarget>, table: StorageTable) -> Option<
    ViolationView,
>
    decreases targets.len(),
{
    if targets.len() == 0 {
        None
    } else if table.access(targets[0].storage) == StorageAccess::ReadOnly {
        Some(ViolationView { storage: targets[0].storage, operation: "ActionStore"@ })
    } else {
        targets_violation(targets.drop_first(), table)
    }
}

/// How a typed statement breaks the declared access, if it does.
pub open spec fn stmt_violation(s: StmtView, table: StorageTable) -> Option<ViolationView> {
    match s {
        StmtView::StorageWrite { storage, .. } => if table.access(storage)
            == StorageAccess::ReadOnly {
            Some(ViolationView { storage, operation: "StorageWrite"@ })
        } else {
            None
        },
        StmtView::ActionStore { targets, .. } => targets_violation(targets, table),
        _ => None,
    }
}

/// How the first offending statement breaks the declared access.
pub open spec fn stmts_violation(s: Seq<StmtView>, table: StorageTable) -> Option<ViolationView>
    decreases s.len(),
{
    if s.len() == 0 {
        None
    } else {
        match stmt_violation(s[0], table) {
            Some(v) => Some(v),
            None => stmts_violation(s.drop_first(), table),
        }
    }
}

/// How the first offending block breaks the declared access.
pub open spec fn blocks_violation(b: Seq<IRBlockView>, table: StorageTable) -> Option<ViolationView>
    decreases b.len(),
{
    if b.len() == 0 {
        None
    } else {
        match stmts_violation(b[0].stmts, table) {
            Some(v) => Some(v),
            None => blocks_violation(b.drop_first(), table),
        }
    }
}

/// How a boolean statement breaks the declared access, if it does.
pub open spec fn bir_stmt_violation(s: BIrStmtView, table: StorageTable) -> Option<ViolationView> {
    match s {
        BIrStmtView::StorageWrite { storage, .. } => if table.access(storage)
            == StorageAccess::ReadOnly {
            Some(ViolationView { storage, operation: "StorageWrite"@ })
        } else {
            None
        },
        BIrStmtView::ActionStoreBit { storage, .. } => if table.access(storage)
            == StorageAccess::ReadOnly {
            Some(ViolationView { storage, operation: "ActionStoreBit"@ })
        } else {
            None
        },
        _ => None,
    }
}

/// How the first offending boolean statement breaks the declared access.
pub open spec fn bir_stmts_violation(s: Seq<BIrStmtView>, table: StorageTable) -> Option<
    ViolationView,
>
    decreases s.len(),
{
    if s.len() == 0 {
        None
    } else {
        match bir_stmt_violation(s[0], table) {
            Some(v) => Some(v),
            None => bir_stmts_violation(s.drop_first(), table),
        }
    }
}

/// How the first offending boolean block breaks the declared access.
pub open spec fn bir_blocks_violation(b: Seq<BIrBlockView>, table: StorageTable) -> Option<
    ViolationView,
>
    decreases b.len(),
{
    if b.len() == 0 {
        None
    } else {
        match bir_stmts_violation(b[0].stmts, table) {
            Some(v) => Some(v),
            None => bir_blocks_violation(b.drop_first(), table),
        }
    }
}

/// Check one typed statement.
fn check_stmt(s: &Stmt, table: &StorageTable) -> (r: Result<(), StorageAccessViolation>)
    ensures
        match r {
            Ok(_) => stmt_violation(s@, *table) is None,
            Err(e) => stmt_violation(s@, *table) == Some(e@),
        },
{
    match s {
        Stmt::StorageWrite { storage, .. } => {
            if table.access_of(*storage) == StorageAccess::ReadOnly {
                return Err(
                    StorageAccessViolation { storage: *storage, operation: "StorageWrite" },
                );
            }
            Ok(())
        },
        Stmt::ActionStore { targets, .. } => {
            let mut i: usize = 0;
            assert(targets@.skip(0) =~= targets@);
            while i < targets.len()
                invariant
                    i <= targets.len(),
                    s@ matches StmtView::ActionStore { targets: ts, .. } && ts == targets@,
                    targets_violation(targets@, *table) == targets_violation(
                        targets@.skip(i as int),
                        *table,
                    ),
                decreases targets.len() - i,
            {
                assert(targets@.skip(i as int)[0] == targets@[i as int]);
                assert(targets@.skip(i as int).drop_first() =~= targets@.skip(i + 1));
                if table.access_of(targets[i].storage) == StorageAccess::ReadOnly {
                    return Err(
                        StorageAccessViolation {
                            storage: targets[i].storage,
                            operation: "ActionStore",
                        },
                    );
                }
                i += 1;
            }
            Ok(())
        },
        _ => Ok(()),
    }
}

/// Check that no statement of a typed module writes a storage that is declared
/// read-only.
pub fn validate_ir_storage_access<P>(blocks: &IRBlocks<P>, storage_access: &StorageTable) -> (r:
    Result<(), StorageAccessViolation>)
    ensures
        match r {
            Ok(_) => blocks_violation(blocks@.blocks, *storage_access) is None,
            Err(e) => blocks_violation(blocks@.blocks, *storage_access) == Some(e@),
        },
{
    let ghost bv = blocks@.blocks;
    let mut b: usize = 0;
    assert(bv.skip(0) =~= bv);
    while b < blocks.blocks.len()
        invariant
            b <= blocks.blocks.len(),
            bv == blocks@.blocks,
            blocks_violation(bv, *storage_access) == blocks_violation(
                bv.skip(b as int),
                *storage_access,
            ),
        decreases blocks.blocks.len() - b,
    {
        let block = &blocks.blocks[b];
        assert(bv.skip(b as int)[0] == block@);
        assert(bv.skip(b as int).drop_first() =~= bv.skip(b + 1));
        let ghost sv = block@.stmts;
        let mut i: usize = 0;
        assert(sv.skip(0) =~= sv);
        while i < block.stmts.len()
            invariant
                i <= block.stmts.len(),
                b < blocks.blocks.len(),
                sv == block@.stmts,
                bv.skip(b as int).len() > 0,
                bv.skip(b as int)[0] == block@,
                bv == blocks@.blocks,
                blocks_violation(bv, *storage_access) == blocks_violation(
                    bv.skip(b as int),
                    *storage_access,
                ),
                stmts_violation(sv, *storage_access) == stmts_violation(
                    sv.skip(i as int),
                    *storage_access,
                ),
            decreases block.stmts.len() - i,
        {
            assert(sv.skip(i as int)[0] == block.stmts@[i as int].kind@);
            assert(sv.skip(i as int).drop_first() =~= sv.skip(i + 1));
            match check_stmt(&block.stmts[i].kind, storage_access) {
                Ok(_) => {},
                Err(e) => {
                    return Err(e);
                },
            }
            i += 1;
        }
        b += 1;
    }
    Ok(())
}

/// Check one boolean statement.
fn check_bir_stmt(s: &BIrStmt, table: &StorageTable) -> (r: Result<(), StorageAccessViolation>)
    ensures
        match r {
            Ok(_) => bir_stmt_violation(s@, *table) is None,
            Err(e) => bir_stmt_violation(s@, *table) == Some(e@),
        },
{
    match s {
        BIrStmt::StorageWrite { storage, .. } => {
            if table.access_of(*storage) == StorageAccess::ReadOnly {
                return Err(
                    StorageAccessViolation { storage: *storage, operation: "StorageWrite" },
                );
            }
            Ok(())
        },
        BIrStmt::ActionStoreBit { storage, .. } => {
            if table.access_of(*storage) == StorageAccess::ReadOnly {
                return Err(
                    StorageAccessViolation { storage: *storage, operation: "ActionStoreBit" },
                );
            }
            Ok(())
        },
        _ => Ok(()),
    }
}

/// Check that no statement of a boolean module writes a storage that is
/// declared read-only.
pub fn validate_bir_storage_access<P>(blocks: &BIrBlocks<P>, storage_access: &StorageTable) -> (r:
    Result<(), StorageAccessViolation>)
    ensures
        match r {
            Ok(_) => bir_blocks_violation(blocks@.blocks, *storage_access) is None,
            Err(e) => bir_blocks_violation(blocks@.blocks, *storage_access) == Some(e@),
        },
{
    let ghost bv = blocks@.blocks;
    let mut b: usize = 0;
    assert(bv.skip(0) =~= bv);
    while b < blocks.blocks.len()
        invariant
            b <= blocks.blocks.len(),
            bv == blocks@.blocks,
            bir_blocks_violation(bv, *storage_access) == bir_blocks_violation(
                bv.skip(b as int),
                *storage_access,
            ),
        decreases blocks.blocks.len() - b,
    {
        let block = &blocks.blocks[b];
        assert(bv.skip(b as int)[0] == block@);
        assert(bv.skip(b as int).drop_first() =~= bv.skip(b + 1));
        let ghost sv = block@.stmts;
        let mut i: usize = 0;
        assert(sv.skip(0) =~= sv);
        while i < block.stmts.len()
            invariant
                i <= block.stmts.len(),
                b < blocks.blocks.len(),
                sv == block@.stmts,
                bv.skip(b as int).len() > 0,
                bv.skip(b as int)[0] == block@,
                bv == blocks@.blocks,
                bir_blocks_violation(bv, *storage_access) == bir_blocks_violation(
                    bv.skip(b as int),
                    *storage_access,
                ),
                bir_stmts_violation(sv, *storage_access) == bir_stmts_violation(
                    sv.skip(i as int),
                    *storage_access,
                ),
            decreases block.stmts.len() - i,
        {
            assert(sv.skip(i as int)[0] == block.stmts@[i as int].kind@);
            assert(sv.skip(i as int).drop_first() =~= sv.skip(i + 1));
            match check_bir_stmt(&block.stmts[i].kind, storage_access) {
                Ok(_) => {},
                Err(e) => {
                    return Err(e);
                },
            }
            i += 1;
        }
        b += 1;
    }
    Ok(())
}

// ---------------------------------------------------------------------------
// Deduplication
// ---------------------------------------------------------------------------

/// The outcome of a virtualisation.
#[derive(Debug)]
pub struct VirtOutput<B> {
    /// The rewritten module.
    pub blocks: B,
    /// Which storages the module may write.
    pub storage_access: StorageTable,
    /// The bytecode table, which the initial storage of the module encodes.
    pub bytecode: Option<VirtBytecode>,
    pub n_handlers: usize,
    /// The number of blocks of the input.
    pub blocks_in: usize,
    pub n_appended_regions: usize,
    /// Values that the caller passes before the arguments of the entry block.
    pub key_params: Vec<(Constant, IRTypeId)>,
}

/// The distinct elements of a list, in order of first occurrence.
pub open spec fn distinct<T>(s: Seq<T>) -> Seq<T>
    decreases s.len(),
{
    if s.len() == 0 {
        Seq::empty()
    } else {
        let d = distinct(s.drop_last());
        if d.contains(s.last()) {
            d
        } else {
            d.push(s.last())
        }
    }
}

/// The views of a list of keys.
pub open spec fn key_views<K: HandlerKey>(s: Seq<K>) -> Seq<K::V> {
    s.map_values(|k: K| k@)
}

/// The keys of a list of canonical blocks.
pub open spec fn canon_keys<K: HandlerKey>(s: Seq<(K, BlockImmediates)>) -> Seq<K::V> {
    s.map_values(|c: (K, BlockImmediates)| c.0@)
}

/// Distinct elements are distinct, and they are exactly the elements of the
/// list.
pub proof fn law_distinct<T>(s: Seq<T>)
    ensures
        distinct(s).no_duplicates(),
        forall|x: T| #[trigger] distinct(s).contains(x) <==> s.contains(x),
        distinct(s).len() <= s.len(),
        s.len() > 0 ==> distinct(s).len() > 0,
    decreases s.len(),
{
    if s.len() > 0 {
        let rest = s.drop_last();
        law_distinct(rest);
        let d = distinct(rest);
        let r = distinct(s);
        assert forall|x: T| #[trigger] r.contains(x) <==> s.contains(x) by {
            if s.contains(x) {
                let i = choose|i: int| 0 <= i < s.len() && s[i] == x;
                if i < rest.len() {
                    assert(rest[i] == x);
                    assert(d.contains(x));
                    let j = choose|j: int| 0 <= j < d.len() && d[j] == x;
                    assert(r[j] == x);
                } else {
                    assert(x == s.last());
                    if d.contains(x) {
                        let j = choose|j: int| 0 <= j < d.len() && d[j] == x;
                        assert(r[j] == x);
                    } else {
                        assert(r[d.len() as int] == x);
                    }
                }
            }
            if r.contains(x) {
                let j = choose|j: int| 0 <= j < r.len() && r[j] == x;
                if j < d.len() {
                    assert(d[j] == x);
                    assert(d.contains(x));
                    assert(rest.contains(x));
                    let i = choose|i: int| 0 <= i < rest.len() && rest[i] == x;
                    assert(s[i] == x);
                } else {
                    assert(s[s.len() - 1] == x);
                }
            }
        }
    }
}

/// A longer list has more distinct elements, behind the same first ones.
proof fn lemma_distinct_prefix<T>(s: Seq<T>, n: int)
    requires
        0 <= n <= s.len(),
    ensures
        distinct(s.take(n)).len() <= distinct(s).len(),
        distinct(s).take(distinct(s.take(n)).len() as int) == distinct(s.take(n)),
    decreases s.len(),
{
    if n == s.len() {
        assert(s.take(n) =~= s);
        assert(distinct(s).take(distinct(s).len() as int) =~= distinct(s));
    } else {
        lemma_distinct_prefix(s.drop_last(), n);
        assert(s.drop_last().take(n) =~= s.take(n));
        let d = distinct(s.drop_last());
        let m = distinct(s.take(n)).len() as int;
        assert(distinct(s).take(m) =~= d.take(m));
    }
}

/// Blocks grouped by canonical form: one handler for each distinct key.
#[derive(Debug)]
pub struct DedupTable<K> {
    /// For each block its handler and the values lifted out of it.
    pub per_block: Vec<(u32, BlockImmediates)>,
    pub handler_keys: Vec<K>,
}

impl<K: HandlerKey> DedupTable<K> {
    /// Whether this is the table of the blocks with the given keys and lifted
    /// values: the handlers are the distinct keys in order of first
    /// occurrence, and each block has the handler of its key.
    pub open spec fn groups(&self, keys: Seq<K::V>, imms: Seq<ImmediatesView>) -> bool {
        &&& key_views(self.handler_keys@) == distinct(keys)
        &&& self.per_block@.len() == keys.len()
        &&& imms.len() == keys.len()
        &&& forall|i: int|
            0 <= i < keys.len() ==> {
                &&& (#[trigger] self.per_block@[i]).0 < self.handler_keys@.len()
                &&& self.handler_keys@[self.per_block@[i].0 as int]@ == keys[i]
                &&& self.per_block@[i].1@ == imms[i]
            }
    }

    /// Group canonical blocks.
    pub fn build(per_block_canon: Vec<(K, BlockImmediates)>) -> (r: Self)
        requires
            per_block_canon@.len() <= u32::MAX,
        ensures
            r.groups(
                canon_keys(per_block_canon@),
                per_block_canon@.map_values(|c: (K, BlockImmediates)| c.1@),
            ),
    {
        let ghost keys = canon_keys(per_block_canon@);
        let ghost imms = per_block_canon@.map_values(|c: (K, BlockImmediates)| c.1@);
        let mut handler_keys: Vec<K> = Vec::new();
        let mut per_block: Vec<(u32, BlockImmediates)> = Vec::new();
        let mut b: usize = 0;
        assert(key_views(handler_keys@) =~= distinct(keys.take(0)));
        while b < per_block_canon.len()
            invariant
                b <= per_block_canon.len(),
                per_block_canon@.len() <= u32::MAX,
                keys == canon_keys(per_block_canon@),
                imms == per_block_canon@.map_values(|c: (K, BlockImmediates)| c.1@),
                key_views(handler_keys@) == distinct(keys.take(b as int)),
                handler_keys@.len() <= b,
                per_block@.len() == b,
                forall|i: int|
                    0 <= i < b ==> {
                        &&& (#[trigger] per_block@[i]).0 < handler_keys@.len()
                        &&& handler_keys@[per_block@[i].0 as int]@ == keys[i]
                        &&& per_block@[i].1@ == imms[i]
                    },
            decreases per_block_canon.len() - b,
        {
            let key = &per_block_canon[b].0;
            proof {
                let longer = keys.take(b + 1);
                assert(longer.drop_last() =~= keys.take(b as int));
                assert(longer.last() == keys[b as int]);
                assert(keys[b as int] == key@);
            }
            let ghost before = handler_keys@;
            let mut idx: usize = 0;
            while idx < handler_keys.len() && !handler_keys[idx].same_key(key)
                invariant
                    idx <= handler_keys.len(),
                    handler_keys@ == before,
                    forall|j: int| 0 <= j < idx ==> (#[trigger] handler_keys@[j])@ != key@,
                decreases handler_keys.len() - idx,
            {
                idx += 1;
            }
            if idx == handler_keys.len() {
                proof {
                    assert forall|j: int| 0 <= j < key_views(before).len() implies #[trigger]
                        key_views(before)[j] != key@ by {
                        assert(before[j]@ != key@);
                    }
                    assert(!key_views(before).contains(key@));
                }
                handler_keys.push(key.clone_key());
                assert(key_views(handler_keys@) =~= key_views(before).push(key@));
            } else {
                assert(key_views(before)[idx as int] == key@);
                assert(key_views(before).contains(key@));
            }
            per_block.push((idx as u32, per_block_canon[b].1.clone()));
            b += 1;
        }
        assert(keys.take(b as int) =~= keys);
        DedupTable { per_block, handler_keys }
    }

    /// The number of handlers.
    pub fn n_handlers(&self) -> (r: usize)
        ensures
            r == self.handler_keys@.len(),
    {
        self.handler_keys.len()
    }

    /// The bytecode table of the blocks.
    pub open spec fn bytecode(&self) -> BytecodeView {
        BytecodeView {
            n_handlers: self.handler_keys@.len() as usize,
            handler_schemas: self.handler_keys@.map_values(|k: K| k.schema()),
            entries: self.per_block@.map_values(
                |p: (u32, BlockImmediates)|
                    EntryView {
                        handler_idx: p.0,
                        consts: p.1@.consts,
                        targets: p.1@.targets,
                        row_kind: BytecodeRowKind::Outer,
                    },
            ),
            outer_block_count: self.per_block@.len() as usize,
            regions: Seq::empty(),
        }
    }

    /// The schemas of the handlers, in order.
    pub fn handler_schemas(&self) -> (r: Vec<HandlerImmSchema>)
        ensures
            schema_views(r@) == self.bytecode().handler_schemas,
    {
        let mut out: Vec<HandlerImmSchema> = Vec::new();
        let mut i: usize = 0;
        while i < self.handler_keys.len()
            invariant
                i <= self.handler_keys.len(),
                out@.len() == i,
                forall|j: int| 0 <= j < i ==> (#[trigger] out@[j])@ == self.handler_keys@[j].schema(),
            decreases self.handler_keys.len() - i,
        {
            out.push(HandlerImmSchema { kinds: self.handler_keys[i].immediate_schema() });
            i += 1;
        }
        assert(schema_views(out@) =~= self.bytecode().handler_schemas);
        out
    }

    /// The rows of the blocks, in order.
    pub fn outer_entries(&self) -> (r: Vec<BytecodeEntry>)
        ensures
            entry_views(r@) == self.bytecode().entries,
    {
        let mut out: Vec<BytecodeEntry> = Vec::new();
        let mut i: usize = 0;
        while i < self.per_block.len()
            invariant
                i <= self.per_block.len(),
                out@.len() == i,
                forall|j: int|
                    0 <= j < i ==> (#[trigger] out@[j])@ == (EntryView {
                        handler_idx: self.per_block@[j].0,
                        consts: self.per_block@[j].1@.consts,
                        targets: self.per_block@[j].1@.targets,
                        row_kind: BytecodeRowKind::Outer,
                    }),
            decreases self.per_block.len() - i,
        {
            let imm = &self.per_block[i].1;
            out.push(
                BytecodeEntry::outer(self.per_block[i].0, imm.consts.clone(), imm.targets.clone()),
            );
            i += 1;
        }
        assert(entry_views(out@) =~= self.bytecode().entries);
        out
    }

    /// The bytecode table of the blocks.
    pub fn to_bytecode(&self) -> (r: VirtBytecode)
        ensures
            r@ == self.bytecode(),
    {
        let handler_schemas = self.handler_schemas();
        let entries = self.outer_entries();
        let outer_block_count = entries.len();
        let r = VirtBytecode {
            n_handlers: self.handler_keys.len(),
            handler_schemas,
            entries,
            outer_block_count,
            regions: Vec::new(),
        };
        proof {
            assert(entry_views(r.entries@).len() == r.entries@.len());
            assert(r@.regions =~= self.bytecode().regions);
            assert(r@ =~= self.bytecode());
        }
        r
    }
}

/// Two blocks share a handler exactly if they have the same key.
pub proof fn law_same_handler_iff_same_key<K: HandlerKey>(
    table: DedupTable<K>,
    keys: Seq<K::V>,
    imms: Seq<ImmediatesView>,
    a: int,
    b: int,
)
    requires
        table.groups(keys, imms),
        0 <= a < keys.len(),
        0 <= b < keys.len(),
    ensures
        table.per_block@[a].0 == table.per_block@[b].0 <==> keys[a] == keys[b],
{
    law_distinct(keys);
    let d = key_views(table.handler_keys@);
    let ha = table.per_block@[a].0 as int;
    let hb = table.per_block@[b].0 as int;
    assert(d[ha] == keys[a]);
    assert(d[hb] == keys[b]);
}

} // verus!
