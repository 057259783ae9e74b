//! Boolean statements as text.

use vstd::prelude::*;

use crate::boolar::{BIrStmt, BIrStmtView, LaneId};
use crate::common::StorageId;
use crate::ir::IRVarId;
use crate::text::error::ParseError;
use crate::text::fields::{
    field, get_lane_field, get_name, get_storage_field, get_u64_field, get_usize_field,
    get_var_field, get_var_id, get_vars_field, lane_text, lemma_field_blank, lemma_fields_shrink,
    lemma_lane_field, lemma_spaced_name, lemma_spaced_var, lemma_storage_field, lemma_u64_field,
    lemma_usize_field, lemma_values_shrink, lemma_var_field, lemma_vars_field, name_text,
    put_lane_field, put_spaced_name, put_spaced_var, put_storage_field, put_u64_field,
    put_usize_field, put_var_field, put_vars_field, read_lane_field, read_name, read_storage_field,
    read_u64_field, read_usize_field, read_var_field, read_var_id, read_vars_field, spaced,
    storage_text, u64_text, usize_text, var_text, vars_text,
};
use crate::text::lexer::{
    get_ident, gives_view, group_shrinks, is_word, LexView, Lexer, Parsed,
};
use crate::text::pieces::{at_blank, is_name, lemma_joined, lemma_past_blank, reads};

verus! {

// ---------------------------------------------------------------------------
// Texts
// ---------------------------------------------------------------------------

/// A statement.
#[verifier::opaque]
pub open spec fn bir_stmt_text(s: BIrStmtView) -> Seq<char> {
    match s {
        BIrStmtView::Zero => "zero"@,
        BIrStmtView::One => "one"@,
        BIrStmtView::And(a, b) => "and"@ + spaced(var_text(a)) + spaced(var_text(b)),
        BIrStmtView::Or(a, b) => "or"@ + spaced(var_text(a)) + spaced(var_text(b)),
        BIrStmtView::Xor(a, b) => "xor"@ + spaced(var_text(a)) + spaced(var_text(b)),
        BIrStmtView::Not(a) => "not"@ + spaced(var_text(a)),
        BIrStmtView::OracleCall { name, args, num_bits } => "oracle_call"@ + spaced(name_text(name)) + field("args"@, vars_text(args)) + field("num_bits"@, usize_text(num_bits)),
        BIrStmtView::OracleBit { name, args, bit, occurrence } => "oracle_bit"@ + spaced(name_text(name)) + field("args"@, vars_text(args)) + field("bit"@, usize_text(bit)) + field("occurrence"@, u64_text(occurrence)),
        BIrStmtView::OracleProjectedBit { call, bit } => "oracle_bit"@ + field("call"@, var_text(call)) + field("bit"@, usize_text(bit)),
        BIrStmtView::ActionCall { name, guard, args, fallback, num_bits } => "action_call"@ + spaced(name_text(name)) + field("guard"@, var_text(guard)) + field("args"@, vars_text(args)) + field("fallback"@, vars_text(fallback)) + field("num_bits"@, usize_text(num_bits)),
        BIrStmtView::ActionBit { call, bit } => "action_bit"@ + field("call"@, var_text(call)) + field("bit"@, usize_text(bit)),
        BIrStmtView::ActionStoreBit { name, guard, args, fallback, storage, lane, addr, bit, occurrence } => "action_store_bit"@ + spaced(name_text(name)) + field("guard"@, var_text(guard)) + field("args"@, vars_text(args)) + field("fallback"@, var_text(fallback)) + field("storage"@, storage_text(storage)) + field("lane"@, lane_text(lane)) + field("addr"@, vars_text(addr)) + field("bit"@, usize_text(bit)) + field("occurrence"@, u64_text(occurrence)),
        BIrStmtView::Rng { name } => "rng"@ + spaced(name_text(name)),
        BIrStmtView::RngBit { name, bit, occurrence } => "rng_bit"@ + spaced(name_text(name)) + field("bit"@, usize_text(bit)) + field("occurrence"@, u64_text(occurrence)),
        BIrStmtView::StorageRead { storage, lane, addr } => "storage_read"@ + field("storage"@, storage_text(storage)) + field("lane"@, lane_text(lane)) + field("addr"@, vars_text(addr)),
        BIrStmtView::StorageWrite { storage, lane, src, addr } => "storage_write"@ + field("storage"@, storage_text(storage)) + field("lane"@, lane_text(lane)) + field("src"@, var_text(src)) + field("addr"@, vars_text(addr)),
    }
}

/// Whether a statement can be read back: sizes fit 32 bits.
#[verifier::opaque]
pub open spec fn bir_stmt_writable(s: BIrStmtView) -> bool {
    match s {
        BIrStmtView::OracleCall { num_bits, .. } => num_bits <= u32::MAX,
        BIrStmtView::OracleBit { bit, .. } => bit <= u32::MAX,
        BIrStmtView::OracleProjectedBit { bit, .. } => bit <= u32::MAX,
        BIrStmtView::ActionCall { num_bits, .. } => num_bits <= u32::MAX,
        BIrStmtView::ActionBit { bit, .. } => bit <= u32::MAX,
        BIrStmtView::ActionStoreBit { bit, .. } => bit <= u32::MAX,
        BIrStmtView::RngBit { bit, .. } => bit <= u32::MAX,
        _ => true,
    }
}

/// Append a statement.
pub fn write_bir_stmt(w: &mut String, stmt: &BIrStmt)
    ensures
        final(w)@ == old(w)@ + bir_stmt_text(stmt@),
{
    reveal(bir_stmt_text);
    let ghost b0 = w@;
    match stmt {
        BIrStmt::Zero => {
            w.push_str("zero");
        },
        BIrStmt::One => {
            w.push_str("one");
        },
        BIrStmt::And(a, b) => {
            w.push_str("and");
            put_spaced_var(w, *a);
            put_spaced_var(w, *b);
            proof {
                let f1 = spaced(var_text(*a));
                let f2 = spaced(var_text(*b));
                lemma_joined(b0, "and"@, f1);
                lemma_joined(b0, "and"@ + f1, f2);
            }
        },
        BIrStmt::Or(a, b) => {
            w.push_str("or");
            put_spaced_var(w, *a);
            put_spaced_var(w, *b);
            proof {
                let f1 = spaced(var_text(*a));
                let f2 = spaced(var_text(*b));
                lemma_joined(b0, "or"@, f1);
                lemma_joined(b0, "or"@ + f1, f2);
            }
        },
        BIrStmt::Xor(a, b) => {
            w.push_str("xor");
            put_spaced_var(w, *a);
            put_spaced_var(w, *b);
            proof {
                let f1 = spaced(var_text(*a));
                let f2 = spaced(var_text(*b));
                lemma_joined(b0, "xor"@, f1);
                lemma_joined(b0, "xor"@ + f1, f2);
            }
        },
        BIrStmt::Not(a) => {
            w.push_str("not");
            put_spaced_var(w, *a);
            proof {
                let f1 = spaced(var_text(*a));
                lemma_joined(b0, "not"@, f1);
            }
        },
        BIrStmt::OracleCall { name, args, num_bits } => {
            w.push_str("oracle_call");
            put_spaced_name(w, name);
            put_vars_field(w, "args", args);
            put_usize_field(w, "num_bits", *num_bits);
            proof {
                let f1 = spaced(name_text(name@));
                let f2 = field("args"@, vars_text(args@));
                let f3 = field("num_bits"@, usize_text(*num_bits));
                lemma_joined(b0, "oracle_call"@, f1);
                lemma_joined(b0, "oracle_call"@ + f1, f2);
                lemma_joined(b0, "oracle_call"@ + f1 + f2, f3);
            }
        },
        BIrStmt::OracleBit { name, args, bit, occurrence } => {
            w.push_str("oracle_bit");
            put_spaced_name(w, name);
            put_vars_field(w, "args", args);
            put_usize_field(w, "bit", *bit);
            put_u64_field(w, "occurrence", *occurrence);
            proof {
                let f1 = spaced(name_text(name@));
                let f2 = field("args"@, vars_text(args@));
                let f3 = field("bit"@, usize_text(*bit));
                let f4 = field("occurrence"@, u64_text(*occurrence));
                lemma_joined(b0, "oracle_bit"@, f1);
                lemma_joined(b0, "oracle_bit"@ + f1, f2);
                lemma_joined(b0, "oracle_bit"@ + f1 + f2, f3);
                lemma_joined(b0, "oracle_bit"@ + f1 + f2 + f3, f4);
            }
        },
        BIrStmt::OracleProjectedBit { call, bit } => {
            w.push_str("oracle_bit");
            put_var_field(w, "call", *call);
            put_usize_field(w, "bit", *bit);
            proof {
                let f1 = field("call"@, var_text(*call));
                let f2 = field("bit"@, usize_text(*bit));
                lemma_joined(b0, "oracle_bit"@, f1);
                lemma_joined(b0, "oracle_bit"@ + f1, f2);
            }
        },
        BIrStmt::ActionCall { name, guard, args, fallback, num_bits } => {
            w.push_str("action_call");
            put_spaced_name(w, name);
            put_var_field(w, "guard", *guard);
            put_vars_field(w, "args", args);
            put_vars_field(w, "fallback", fallback);
            put_usize_field(w, "num_bits", *num_bits);
            proof {
                let f1 = spaced(name_text(name@));
                let f2 = field("guard"@, var_text(*guard));
                let f3 = field("args"@, vars_text(args@));
                let f4 = field("fallback"@, vars_text(fallback@));
                let f5 = field("num_bits"@, usize_text(*num_bits));
                lemma_joined(b0, "action_call"@, f1);
                lemma_joined(b0, "action_call"@ + f1, f2);
                lemma_joined(b0, "action_call"@ + f1 + f2, f3);
                lemma_joined(b0, "action_call"@ + f1 + f2 + f3, f4);
                lemma_joined(b0, "action_call"@ + f1 + f2 + f3 + f4, f5);
            }
        },
        BIrStmt::ActionBit { call, bit } => {
            w.push_str("action_bit");
            put_var_field(w, "call", *call);
            put_usize_field(w, "bit", *bit);
            proof {
                let f1 = field("call"@, var_text(*call));
                let f2 = field("bit"@, usize_text(*bit));
                lemma_joined(b0, "action_bit"@, f1);
                lemma_joined(b0, "action_bit"@ + f1, f2);
            }
        },
        BIrStmt::ActionStoreBit { name, guard, args, fallback, storage, lane, addr, bit, occurrence } => {
            w.push_str("action_store_bit");
            put_spaced_name(w, name);
            put_var_field(w, "guard", *guard);
            put_vars_field(w, "args", args);
            put_var_field(w, "fallback", *fallback);
            put_storage_field(w, "storage", *storage);
            put_lane_field(w, "lane", *lane);
            put_vars_field(w, "addr", addr);
            put_usize_field(w, "bit", *bit);
            put_u64_field(w, "occurrence", *occurrence);
            proof {
                let f1 = spaced(name_text(name@));
                let f2 = field("guard"@, var_text(*guard));
                let f3 = field("args"@, vars_text(args@));
                let f4 = field("fallback"@, var_text(*fallback));
                let f5 = field("storage"@, storage_text(*storage));
                let f6 = field("lane"@, lane_text(*lane));
                let f7 = field("addr"@, vars_text(addr@));
                let f8 = field("bit"@, usize_text(*bit));
                let f9 = field("occurrence"@, u64_text(*occurrence));
                lemma_joined(b0, "action_store_bit"@, f1);
                lemma_joined(b0, "action_store_bit"@ + f1, f2);
                lemma_joined(b0, "action_store_bit"@ + f1 + f2, f3);
                lemma_joined(b0, "action_store_bit"@ + f1 + f2 + f3, f4);
                lemma_joined(b0, "action_store_bit"@ + f1 + f2 + f3 + f4, f5);
                lemma_joined(b0, "action_store_bit"@ + f1 + f2 + f3 + f4 + f5, f6);
                lemma_joined(b0, "action_store_bit"@ + f1 + f2 + f3 + f4 + f5 + f6, f7);
                lemma_joined(b0, "action_store_bit"@ + f1 + f2 + f3 + f4 + f5 + f6 + f7, f8);
                lemma_joined(b0, "action_store_bit"@ + f1 + f2 + f3 + f4 + f5 + f6 + f7 + f8, f9);
            }
        },
        BIrStmt::Rng { name } => {
            w.push_str("rng");
            put_spaced_name(w, name);
            proof {
                let f1 = spaced(name_text(name@));
                lemma_joined(b0, "rng"@, f1);
            }
        },
        BIrStmt::RngBit { name, bit, occurrence } => {
            w.push_str("rng_bit");
            put_spaced_name(w, name);
            put_usize_field(w, "bit", *bit);
            put_u64_field(w, "occurrence", *occurrence);
            proof {
                let f1 = spaced(name_text(name@));
                let f2 = field("bit"@, usize_text(*bit));
                let f3 = field("occurrence"@, u64_text(*occurrence));
                lemma_joined(b0, "rng_bit"@, f1);
                lemma_joined(b0, "rng_bit"@ + f1, f2);
                lemma_joined(b0, "rng_bit"@ + f1 + f2, f3);
            }
        },
        BIrStmt::StorageRead { storage, lane, addr } => {
            w.push_str("storage_read");
            put_storage_field(w, "storage", *storage);
            put_lane_field(w, "lane", *lane);
            put_vars_field(w, "addr", addr);
            proof {
                let f1 = field("storage"@, storage_text(*storage));
                let f2 = field("lane"@, lane_text(*lane));
                let f3 = field("addr"@, vars_text(addr@));
                lemma_joined(b0, "storage_read"@, f1);
                lemma_joined(b0, "storage_read"@ + f1, f2);
                lemma_joined(b0, "storage_read"@ + f1 + f2, f3);
            }
        },
        BIrStmt::StorageWrite { storage, lane, src, addr } => {
            w.push_str("storage_write");
            put_storage_field(w, "storage", *storage);
            put_lane_field(w, "lane", *lane);
            put_var_field(w, "src", *src);
            put_vars_field(w, "addr", addr);
            proof {
                let f1 = field("storage"@, storage_text(*storage));
                let f2 = field("lane"@, lane_text(*lane));
                let f3 = field("src"@, var_text(*src));
                let f4 = field("addr"@, vars_text(addr@));
                lemma_joined(b0, "storage_write"@, f1);
                lemma_joined(b0, "storage_write"@ + f1, f2);
                lemma_joined(b0, "storage_write"@ + f1 + f2, f3);
                lemma_joined(b0, "storage_write"@ + f1 + f2 + f3, f4);
            }
        },
    }
}

// ---------------------------------------------------------------------------
// Reading
// ---------------------------------------------------------------------------

/// A conjunction.
pub open spec fn get_bir_and(l: LexView) -> Parsed<BIrStmtView> {
    match get_var_id(l) {
        Err(e) => Err(e),
        Ok((a, l)) => 
        match get_var_id(l) {
            Err(e) => Err(e),
            Ok((b, l)) => Ok((BIrStmtView::And(a, b), l)),
        },
    }
}

/// A disjunction.
pub open spec fn get_bir_or(l: LexView) -> Parsed<BIrStmtView> {
    match get_var_id(l) {
        Err(e) => Err(e),
        Ok((a, l)) => 
        match get_var_id(l) {
            Err(e) => Err(e),
            Ok((b, l)) => Ok((BIrStmtView::Or(a, b), l)),
        },
    }
}

/// An exclusive or.
pub open spec fn get_bir_xor(l: LexView) -> Parsed<BIrStmtView> {
    match get_var_id(l) {
        Err(e) => Err(e),
        Ok((a, l)) => 
        match get_var_id(l) {
            Err(e) => Err(e),
            Ok((b, l)) => Ok((BIrStmtView::Xor(a, b), l)),
        },
    }
}

/// A negation.
pub open spec fn get_bir_not(l: LexView) -> Parsed<BIrStmtView> {
    match get_var_id(l) {
        Err(e) => Err(e),
        Ok((a, l)) => Ok((BIrStmtView::Not(a), l)),
    }
}

/// An oracle call.
pub open spec fn get_bir_oracle_call(l: LexView) -> Parsed<BIrStmtView> {
    match get_name(l) {
        Err(e) => Err(e),
        Ok((name, l)) => 
        match get_vars_field(l, "args"@) {
            Err(e) => Err(e),
            Ok((args, l)) => 
            match get_usize_field(l, "num_bits"@) {
                Err(e) => Err(e),
                Ok((num_bits, l)) => Ok((BIrStmtView::OracleCall { name, args, num_bits }, l)),
            },
        },
    }
}

/// An output bit of an oracle by name.
pub open spec fn get_bir_oracle_bit(l: LexView) -> Parsed<BIrStmtView> {
    match get_name(l) {
        Err(e) => Err(e),
        Ok((name, l)) => 
        match get_vars_field(l, "args"@) {
            Err(e) => Err(e),
            Ok((args, l)) => 
            match get_usize_field(l, "bit"@) {
                Err(e) => Err(e),
                Ok((bit, l)) => 
                match get_u64_field(l, "occurrence"@) {
                    Err(e) => Err(e),
                    Ok((occurrence, l)) => Ok((BIrStmtView::OracleBit { name, args, bit, occurrence }, l)),
                },
            },
        },
    }
}

/// An output bit of an oracle call.
pub open spec fn get_bir_projected_bit(l: LexView) -> Parsed<BIrStmtView> {
    match get_var_field(l, "call"@) {
        Err(e) => Err(e),
        Ok((call, l)) => 
        match get_usize_field(l, "bit"@) {
            Err(e) => Err(e),
            Ok((bit, l)) => Ok((BIrStmtView::OracleProjectedBit { call, bit }, l)),
        },
    }
}

/// An action call.
pub open spec fn get_bir_action_call(l: LexView) -> Parsed<BIrStmtView> {
    match get_name(l) {
        Err(e) => Err(e),
        Ok((name, l)) => 
        match get_var_field(l, "guard"@) {
            Err(e) => Err(e),
            Ok((guard, l)) => 
            match get_vars_field(l, "args"@) {
                Err(e) => Err(e),
                Ok((args, l)) => 
                match get_vars_field(l, "fallback"@) {
                    Err(e) => Err(e),
                    Ok((fallback, l)) => 
                    match get_usize_field(l, "num_bits"@) {
                        Err(e) => Err(e),
                        Ok((num_bits, l)) => Ok((BIrStmtView::ActionCall { name, guard, args, fallback, num_bits }, l)),
                    },
                },
            },
        },
    }
}

/// An output bit of an action call.
pub open spec fn get_bir_action_bit(l: LexView) -> Parsed<BIrStmtView> {
    match get_var_field(l, "call"@) {
        Err(e) => Err(e),
        Ok((call, l)) => 
        match get_usize_field(l, "bit"@) {
            Err(e) => Err(e),
            Ok((bit, l)) => Ok((BIrStmtView::ActionBit { call, bit }, l)),
        },
    }
}

/// A stored output bit of an action.
pub open spec fn get_bir_action_store_bit(l: LexView) -> Parsed<BIrStmtView> {
    match get_name(l) {
        Err(e) => Err(e),
        Ok((name, l)) => 
        match get_var_field(l, "guard"@) {
            Err(e) => Err(e),
            Ok((guard, l)) => 
            match get_vars_field(l, "args"@) {
                Err(e) => Err(e),
                Ok((args, l)) => 
                match get_var_field(l, "fallback"@) {
                    Err(e) => Err(e),
                    Ok((fallback, l)) => 
                    match get_storage_field(l, "storage"@) {
                        Err(e) => Err(e),
                        Ok((storage, l)) => 
                        match get_lane_field(l, "lane"@) {
                            Err(e) => Err(e),
                            Ok((lane, l)) => 
                            match get_vars_field(l, "addr"@) {
                                Err(e) => Err(e),
                                Ok((addr, l)) => 
                                match get_usize_field(l, "bit"@) {
                                    Err(e) => Err(e),
                                    Ok((bit, l)) => 
                                    match get_u64_field(l, "occurrence"@) {
                                        Err(e) => Err(e),
                                        Ok((occurrence, l)) => Ok((BIrStmtView::ActionStoreBit { name, guard, args, fallback, storage, lane, addr, bit, occurrence }, l)),
                                    },
                                },
                            },
                        },
                    },
                },
            },
        },
    }
}

/// A random bit.
pub open spec fn get_bir_rng(l: LexView) -> Parsed<BIrStmtView> {
    match get_name(l) {
        Err(e) => Err(e),
        Ok((name, l)) => Ok((BIrStmtView::Rng { name }, l)),
    }
}

/// A replayable random bit.
pub open spec fn get_bir_rng_bit(l: LexView) -> Parsed<BIrStmtView> {
    match get_name(l) {
        Err(e) => Err(e),
        Ok((name, l)) => 
        match get_usize_field(l, "bit"@) {
            Err(e) => Err(e),
            Ok((bit, l)) => 
            match get_u64_field(l, "occurrence"@) {
                Err(e) => Err(e),
                Ok((occurrence, l)) => Ok((BIrStmtView::RngBit { name, bit, occurrence }, l)),
            },
        },
    }
}

/// A read.
pub open spec fn get_bir_storage_read(l: LexView) -> Parsed<BIrStmtView> {
    match get_storage_field(l, "storage"@) {
        Err(e) => Err(e),
        Ok((storage, l)) => 
        match get_lane_field(l, "lane"@) {
            Err(e) => Err(e),
            Ok((lane, l)) => 
            match get_vars_field(l, "addr"@) {
                Err(e) => Err(e),
                Ok((addr, l)) => Ok((BIrStmtView::StorageRead { storage, lane, addr }, l)),
            },
        },
    }
}

/// A write.
pub open spec fn get_bir_storage_write(l: LexView) -> Parsed<BIrStmtView> {
    match get_storage_field(l, "storage"@) {
        Err(e) => Err(e),
        Ok((storage, l)) => 
        match get_lane_field(l, "lane"@) {
            Err(e) => Err(e),
            Ok((lane, l)) => 
            match get_var_field(l, "src"@) {
                Err(e) => Err(e),
                Ok((src, l)) => 
                match get_vars_field(l, "addr"@) {
                    Err(e) => Err(e),
                    Ok((addr, l)) => Ok((BIrStmtView::StorageWrite { storage, lane, src, addr }, l)),
                },
            },
        },
    }
}

/// A statement behind its word.
#[verifier::opaque]
pub open spec fn get_bir_stmt(kw: Seq<char>, l: LexView) -> Parsed<BIrStmtView> {
    if kw == "zero"@ {
        Ok((BIrStmtView::Zero, l))
    } else if kw == "one"@ {
        Ok((BIrStmtView::One, l))
    } else if kw == "and"@ {
        get_bir_and(l)
    } else if kw == "or"@ {
        get_bir_or(l)
    } else if kw == "xor"@ {
        get_bir_xor(l)
    } else if kw == "not"@ {
        get_bir_not(l)
    } else if kw == "oracle_call"@ {
        get_bir_oracle_call(l)
    } else if kw == "oracle_bit"@ {
        if l.skipped().at('"') {
            get_bir_oracle_bit(l.skipped())
        } else {
            get_bir_projected_bit(l.skipped())
        }
    } else if kw == "action_call"@ {
        get_bir_action_call(l)
    } else if kw == "action_bit"@ {
        get_bir_action_bit(l)
    } else if kw == "action_store_bit"@ {
        get_bir_action_store_bit(l)
    } else if kw == "rng"@ {
        get_bir_rng(l)
    } else if kw == "rng_bit"@ {
        get_bir_rng_bit(l)
    } else if kw == "storage_read"@ {
        get_bir_storage_read(l)
    } else if kw == "storage_write"@ {
        get_bir_storage_write(l)
    } else {
        Err(l.error("unknown BIR stmt '"@ + kw + "'"@))
    }
}

proof fn lemma_bir_and_shrinks(l: LexView)
    ensures
        get_bir_and(l) matches Ok((_, m)) ==> m.rest.len() <= l.rest.len(),
{
    broadcast use {group_shrinks, lemma_values_shrink, lemma_fields_shrink};

}

proof fn lemma_bir_or_shrinks(l: LexView)
    ensures
        get_bir_or(l) matches Ok((_, m)) ==> m.rest.len() <= l.rest.len(),
{
    broadcast use {group_shrinks, lemma_values_shrink, lemma_fields_shrink};

}

proof fn lemma_bir_xor_shrinks(l: LexView)
    ensures
        get_bir_xor(l) matches Ok((_, m)) ==> m.rest.len() <= l.rest.len(),
{
    broadcast use {group_shrinks, lemma_values_shrink, lemma_fields_shrink};

}

proof fn lemma_bir_not_shrinks(l: LexView)
    ensures
        get_bir_not(l) matches Ok((_, m)) ==> m.rest.len() <= l.rest.len(),
{
    broadcast use {group_shrinks, lemma_values_shrink, lemma_fields_shrink};

}

proof fn lemma_bir_oracle_call_shrinks(l: LexView)
    ensures
        get_bir_oracle_call(l) matches Ok((_, m)) ==> m.rest.len() <= l.rest.len(),
{
    broadcast use {group_shrinks, lemma_values_shrink, lemma_fields_shrink};

}

proof fn lemma_bir_oracle_bit_shrinks(l: LexView)
    ensures
        get_bir_oracle_bit(l) matches Ok((_, m)) ==> m.rest.len() <= l.rest.len(),
{
    broadcast use {group_shrinks, lemma_values_shrink, lemma_fields_shrink};

}

proof fn lemma_bir_projected_bit_shrinks(l: LexView)
    ensures
        get_bir_projected_bit(l) matches Ok((_, m)) ==> m.rest.len() <= l.rest.len(),
{
    broadcast use {group_shrinks, lemma_values_shrink, lemma_fields_shrink};

}

proof fn lemma_bir_action_call_shrinks(l: LexView)
    ensures
        get_bir_action_call(l) matches Ok((_, m)) ==> m.rest.len() <= l.rest.len(),
{
    broadcast use {group_shrinks, lemma_values_shrink, lemma_fields_shrink};

}

proof fn lemma_bir_action_bit_shrinks(l: LexView)
    ensures
        get_bir_action_bit(l) matches Ok((_, m)) ==> m.rest.len() <= l.rest.len(),
{
    broadcast use {group_shrinks, lemma_values_shrink, lemma_fields_shrink};

}

proof fn lemma_bir_action_store_bit_shrinks(l: LexView)
    ensures
        get_bir_action_store_bit(l) matches Ok((_, m)) ==> m.rest.len() <= l.rest.len(),
{
    broadcast use {group_shrinks, lemma_values_shrink, lemma_fields_shrink};

}

proof fn lemma_bir_rng_shrinks(l: LexView)
    ensures
        get_bir_rng(l) matches Ok((_, m)) ==> m.rest.len() <= l.rest.len(),
{
    broadcast use {group_shrinks, lemma_values_shrink, lemma_fields_shrink};

}

proof fn lemma_bir_rng_bit_shrinks(l: LexView)
    ensures
        get_bir_rng_bit(l) matches Ok((_, m)) ==> m.rest.len() <= l.rest.len(),
{
    broadcast use {group_shrinks, lemma_values_shrink, lemma_fields_shrink};

}

proof fn lemma_bir_storage_read_shrinks(l: LexView)
    ensures
        get_bir_storage_read(l) matches Ok((_, m)) ==> m.rest.len() <= l.rest.len(),
{
    broadcast use {group_shrinks, lemma_values_shrink, lemma_fields_shrink};

}

proof fn lemma_bir_storage_write_shrinks(l: LexView)
    ensures
        get_bir_storage_write(l) matches Ok((_, m)) ==> m.rest.len() <= l.rest.len(),
{
    broadcast use {group_shrinks, lemma_values_shrink, lemma_fields_shrink};

}

/// A statement ends no further on than the text is long.
pub proof fn lemma_bir_stmt_shrinks(kw: Seq<char>, l: LexView)
    ensures
        get_bir_stmt(kw, l) matches Ok((_, m)) ==> m.rest.len() <= l.rest.len(),
{
    reveal(get_bir_stmt);
    lemma_values_shrink(l);
    lemma_bir_and_shrinks(l);
    lemma_bir_or_shrinks(l);
    lemma_bir_xor_shrinks(l);
    lemma_bir_not_shrinks(l);
    lemma_bir_oracle_call_shrinks(l);
    lemma_bir_oracle_bit_shrinks(l.skipped());
    lemma_bir_projected_bit_shrinks(l.skipped());
    lemma_bir_action_call_shrinks(l);
    lemma_bir_action_bit_shrinks(l);
    lemma_bir_action_store_bit_shrinks(l);
    lemma_bir_rng_shrinks(l);
    lemma_bir_rng_bit_shrinks(l);
    lemma_bir_storage_read_shrinks(l);
    lemma_bir_storage_write_shrinks(l);
}

fn read_bir_and(lex: &mut Lexer) -> (r: Result<BIrStmt, ParseError>)
    ensures
        gives_view(r, final(lex)@, get_bir_and(old(lex)@)),
{
    let a: IRVarId = match read_var_id(lex) {
        Ok(x) => x,
        Err(e) => {
            return Err(e);
        },
    };
    match read_var_id(lex) {
        Ok(b) => Ok(BIrStmt::And(a, b)),
        Err(e) => Err(e),
    }
}

fn read_bir_or(lex: &mut Lexer) -> (r: Result<BIrStmt, ParseError>)
    ensures
        gives_view(r, final(lex)@, get_bir_or(old(lex)@)),
{
    let a: IRVarId = match read_var_id(lex) {
        Ok(x) => x,
        Err(e) => {
            return Err(e);
        },
    };
    match read_var_id(lex) {
        Ok(b) => Ok(BIrStmt::Or(a, b)),
        Err(e) => Err(e),
    }
}

fn read_bir_xor(lex: &mut Lexer) -> (r: Result<BIrStmt, ParseError>)
    ensures
        gives_view(r, final(lex)@, get_bir_xor(old(lex)@)),
{
    let a: IRVarId = match read_var_id(lex) {
        Ok(x) => x,
        Err(e) => {
            return Err(e);
        },
    };
    match read_var_id(lex) {
        Ok(b) => Ok(BIrStmt::Xor(a, b)),
        Err(e) => Err(e),
    }
}

fn read_bir_not(lex: &mut Lexer) -> (r: Result<BIrStmt, ParseError>)
    ensures
        gives_view(r, final(lex)@, get_bir_not(old(lex)@)),
{
    match read_var_id(lex) {
        Ok(a) => Ok(BIrStmt::Not(a)),
        Err(e) => Err(e),
    }
}

fn read_bir_oracle_call(lex: &mut Lexer) -> (r: Result<BIrStmt, ParseError>)
    ensures
        gives_view(r, final(lex)@, get_bir_oracle_call(old(lex)@)),
{
    let name: String = match read_name(lex) {
        Ok(x) => x,
        Err(e) => {
            return Err(e);
        },
    };
    let args: Vec<IRVarId> = match read_vars_field(lex, "args") {
        Ok(x) => x,
        Err(e) => {
            return Err(e);
        },
    };
    match read_usize_field(lex, "num_bits") {
        Ok(num_bits) => Ok(BIrStmt::OracleCall { name, args, num_bits }),
        Err(e) => Err(e),
    }
}

fn read_bir_oracle_bit(lex: &mut Lexer) -> (r: Result<BIrStmt, ParseError>)
    ensures
        gives_view(r, final(lex)@, get_bir_oracle_bit(old(lex)@)),
{
    let name: String = match read_name(lex) {
        Ok(x) => x,
        Err(e) => {
            return Err(e);
        },
    };
    let args: Vec<IRVarId> = match read_vars_field(lex, "args") {
        Ok(x) => x,
        Err(e) => {
            return Err(e);
        },
    };
    let bit: usize = match read_usize_field(lex, "bit") {
        Ok(x) => x,
        Err(e) => {
            return Err(e);
        },
    };
    match read_u64_field(lex, "occurrence") {
        Ok(occurrence) => Ok(BIrStmt::OracleBit { name, args, bit, occurrence }),
        Err(e) => Err(e),
    }
}

fn read_bir_projected_bit(lex: &mut Lexer) -> (r: Result<BIrStmt, ParseError>)
    ensures
        gives_view(r, final(lex)@, get_bir_projected_bit(old(lex)@)),
{
    let call: IRVarId = match read_var_field(lex, "call") {
        Ok(x) => x,
        Err(e) => {
            return Err(e);
        },
    };
    match read_usize_field(lex, "bit") {
        Ok(bit) => Ok(BIrStmt::OracleProjectedBit { call, bit }),
        Err(e) => Err(e),
    }
}

fn read_bir_action_call(lex: &mut Lexer) -> (r: Result<BIrStmt, ParseError>)
    ensures
        gives_view(r, final(lex)@, get_bir_action_call(old(lex)@)),
{
    let name: String = match read_name(lex) {
        Ok(x) => x,
        Err(e) => {
            return Err(e);
        },
    };
    let guard: IRVarId = match read_var_field(lex, "guard") {
        Ok(x) => x,
        Err(e) => {
            return Err(e);
        },
    };
    let args: Vec<IRVarId> = match read_vars_field(lex, "args") {
        Ok(x) => x,
        Err(e) => {
            return Err(e);
        },
    };
    let fallback: Vec<IRVarId> = match read_vars_field(lex, "fallback") {
        Ok(x) => x,
        Err(e) => {
            return Err(e);
        },
    };
    match read_usize_field(lex, "num_bits") {
        Ok(num_bits) => Ok(BIrStmt::ActionCall { name, guard, args, fallback, num_bits }),
        Err(e) => Err(e),
    }
}

fn read_bir_action_bit(lex: &mut Lexer) -> (r: Result<BIrStmt, ParseError>)
    ensures
        gives_view(r, final(lex)@, get_bir_action_bit(old(lex)@)),
{
    let call: IRVarId = match read_var_field(lex, "call") {
        Ok(x) => x,
        Err(e) => {
            return Err(e);
        },
    };
    match read_usize_field(lex, "bit") {
        Ok(bit) => Ok(BIrStmt::ActionBit { call, bit }),
        Err(e) => Err(e),
    }
}

fn read_bir_action_store_bit(lex: &mut Lexer) -> (r: Result<BIrStmt, ParseError>)
    ensures
        gives_view(r, final(lex)@, get_bir_action_store_bit(old(lex)@)),
{
    let name: String = match read_name(lex) {
        Ok(x) => x,
        Err(e) => {
            return Err(e);
        },
    };
    let guard: IRVarId = match read_var_field(lex, "guard") {
        Ok(x) => x,
        Err(e) => {
            return Err(e);
        },
    };
    let args: Vec<IRVarId> = match read_vars_field(lex, "args") {
        Ok(x) => x,
        Err(e) => {
            return Err(e);
        },
    };
    let fallback: IRVarId = match read_var_field(lex, "fallback") {
        Ok(x) => x,
        Err(e) => {
            return Err(e);
        },
    };
    let storage: StorageId = match read_storage_field(lex, "storage") {
        Ok(x) => x,
        Err(e) => {
            return Err(e);
        },
    };
    let lane: LaneId = match read_lane_field(lex, "lane") {
        Ok(x) => x,
        Err(e) => {
            return Err(e);
        },
    };
    let addr: Vec<IRVarId> = match read_vars_field(lex, "addr") {
        Ok(x) => x,
        Err(e) => {
            return Err(e);
        },
    };
    let bit: usize = match read_usize_field(lex, "bit") {
        Ok(x) => x,
        Err(e) => {
            return Err(e);
        },
    };
    match read_u64_field(lex, "occurrence") {
        Ok(occurrence) => Ok(BIrStmt::ActionStoreBit { name, guard, args, fallback, storage, lane, addr, bit, occurrence }),
        Err(e) => Err(e),
    }
}

fn read_bir_rng(lex: &mut Lexer) -> (r: Result<BIrStmt, ParseError>)
    ensures
        gives_view(r, final(lex)@, get_bir_rng(old(lex)@)),
{
    match read_name(lex) {
        Ok(name) => Ok(BIrStmt::Rng { name }),
        Err(e) => Err(e),
    }
}

fn read_bir_rng_bit(lex: &mut Lexer) -> (r: Result<BIrStmt, ParseError>)
    ensures
        gives_view(r, final(lex)@, get_bir_rng_bit(old(lex)@)),
{
    let name: String = match read_name(lex) {
        Ok(x) => x,
        Err(e) => {
            return Err(e);
        },
    };
    let bit: usize = match read_usize_field(lex, "bit") {
        Ok(x) => x,
        Err(e) => {
            return Err(e);
        },
    };
    match read_u64_field(lex, "occurrence") {
        Ok(occurrence) => Ok(BIrStmt::RngBit { name, bit, occurrence }),
        Err(e) => Err(e),
    }
}

fn read_bir_storage_read(lex: &mut Lexer) -> (r: Result<BIrStmt, ParseError>)
    ensures
        gives_view(r, final(lex)@, get_bir_storage_read(old(lex)@)),
{
    let storage: StorageId = match read_storage_field(lex, "storage") {
        Ok(x) => x,
        Err(e) => {
            return Err(e);
        },
    };
    let lane: LaneId = match read_lane_field(lex, "lane") {
        Ok(x) => x,
        Err(e) => {
            return Err(e);
        },
    };
    match read_vars_field(lex, "addr") {
        Ok(addr) => Ok(BIrStmt::StorageRead { storage, lane, addr }),
        Err(e) => Err(e),
    }
}

fn read_bir_storage_write(lex: &mut Lexer) -> (r: Result<BIrStmt, ParseError>)
    ensures
        gives_view(r, final(lex)@, get_bir_storage_write(old(lex)@)),
{
    let storage: StorageId = match read_storage_field(lex, "storage") {
        Ok(x) => x,
        Err(e) => {
            return Err(e);
        },
    };
    let lane: LaneId = match read_lane_field(lex, "lane") {
        Ok(x) => x,
        Err(e) => {
            return Err(e);
        },
    };
    let src: IRVarId = match read_var_field(lex, "src") {
        Ok(x) => x,
        Err(e) => {
            return Err(e);
        },
    };
    match read_vars_field(lex, "addr") {
        Ok(addr) => Ok(BIrStmt::StorageWrite { storage, lane, src, addr }),
        Err(e) => Err(e),
    }
}

/// Read a statement behind its word.
pub fn parse_bir_stmt(kw: &String, lex: &mut Lexer) -> (r: Result<BIrStmt, ParseError>)
    ensures
        gives_view(r, final(lex)@, get_bir_stmt(kw@, old(lex)@)),
{
    reveal(get_bir_stmt);
    if is_word(kw, "zero") {
        Ok(BIrStmt::Zero)
    } else if is_word(kw, "one") {
        Ok(BIrStmt::One)
    } else if is_word(kw, "and") {
        read_bir_and(lex)
    } else if is_word(kw, "or") {
        read_bir_or(lex)
    } else if is_word(kw, "xor") {
        read_bir_xor(lex)
    } else if is_word(kw, "not") {
        read_bir_not(lex)
    } else if is_word(kw, "oracle_call") {
        read_bir_oracle_call(lex)
    } else if is_word(kw, "oracle_bit") {
        if lex.peek_is('"') {
            read_bir_oracle_bit(lex)
        } else {
            read_bir_projected_bit(lex)
        }
    } else if is_word(kw, "action_call") {
        read_bir_action_call(lex)
    } else if is_word(kw, "action_bit") {
        read_bir_action_bit(lex)
    } else if is_word(kw, "action_store_bit") {
        read_bir_action_store_bit(lex)
    } else if is_word(kw, "rng") {
        read_bir_rng(lex)
    } else if is_word(kw, "rng_bit") {
        read_bir_rng_bit(lex)
    } else if is_word(kw, "storage_read") {
        read_bir_storage_read(lex)
    } else if is_word(kw, "storage_write") {
        read_bir_storage_write(lex)
    } else {
        let at = lex.pos();
        let mut got: String = String::new();
        got.push_str("unknown BIR stmt '");
        got.push_str(kw.as_str());
        got.push_str("'");
        assert(got@ =~= "unknown BIR stmt '"@ + kw@ + "'"@);
        Err(ParseError::UnexpectedToken { line: at.line, col: at.col, got })
    }
}

// ---------------------------------------------------------------------------
// Reading back
// ---------------------------------------------------------------------------

/// The keys of fields are words.
pub proof fn lemma_bir_keys()
    ensures
        is_name("addr"@),
        is_name("args"@),
        is_name("bit"@),
        is_name("call"@),
        is_name("fallback"@),
        is_name("guard"@),
        is_name("lane"@),
        is_name("num_bits"@),
        is_name("occurrence"@),
        is_name("src"@),
        is_name("storage"@),
{
    reveal_strlit("addr");
    reveal_strlit("args");
    reveal_strlit("bit");
    reveal_strlit("call");
    reveal_strlit("fallback");
    reveal_strlit("guard");
    reveal_strlit("lane");
    reveal_strlit("num_bits");
    reveal_strlit("occurrence");
    reveal_strlit("src");
    reveal_strlit("storage");
}

/// The words of statements are words, and no two are the same.
pub proof fn lemma_bir_stmt_words()
    ensures
        is_name("zero"@),
        is_name("one"@),
        is_name("and"@),
        is_name("or"@),
        is_name("xor"@),
        is_name("not"@),
        is_name("oracle_call"@),
        is_name("oracle_bit"@),
        is_name("action_call"@),
        is_name("action_bit"@),
        is_name("action_store_bit"@),
        is_name("rng"@),
        is_name("rng_bit"@),
        is_name("storage_read"@),
        is_name("storage_write"@),
        "one"@ != "zero"@,
        "and"@ != "zero"@,
        "and"@ != "one"@,
        "or"@ != "zero"@,
        "or"@ != "one"@,
        "or"@ != "and"@,
        "xor"@ != "zero"@,
        "xor"@ != "one"@,
        "xor"@ != "and"@,
        "xor"@ != "or"@,
        "not"@ != "zero"@,
        "not"@ != "one"@,
        "not"@ != "and"@,
        "not"@ != "or"@,
        "not"@ != "xor"@,
        "oracle_call"@ != "zero"@,
        "oracle_call"@ != "one"@,
        "oracle_call"@ != "and"@,
        "oracle_call"@ != "or"@,
        "oracle_call"@ != "xor"@,
        "oracle_call"@ != "not"@,
        "oracle_bit"@ != "zero"@,
        "oracle_bit"@ != "one"@,
        "oracle_bit"@ != "and"@,
        "oracle_bit"@ != "or"@,
        "oracle_bit"@ != "xor"@,
        "oracle_bit"@ != "not"@,
        "oracle_bit"@ != "oracle_call"@,
        "action_call"@ != "zero"@,
        "action_call"@ != "one"@,
        "action_call"@ != "and"@,
        "action_call"@ != "or"@,
        "action_call"@ != "xor"@,
        "action_call"@ != "not"@,
        "action_call"@ != "oracle_call"@,
        "action_call"@ != "oracle_bit"@,
        "action_bit"@ != "zero"@,
        "action_bit"@ != "one"@,
        "action_bit"@ != "and"@,
        "action_bit"@ != "or"@,
        "action_bit"@ != "xor"@,
        "action_bit"@ != "not"@,
        "action_bit"@ != "oracle_call"@,
        "action_bit"@ != "oracle_bit"@,
        "action_bit"@ != "action_call"@,
        "action_store_bit"@ != "zero"@,
        "action_store_bit"@ != "one"@,
        "action_store_bit"@ != "and"@,
        "action_store_bit"@ != "or"@,
        "action_store_bit"@ != "xor"@,
        "action_store_bit"@ != "not"@,
        "action_store_bit"@ != "oracle_call"@,
        "action_store_bit"@ != "oracle_bit"@,
        "action_store_bit"@ != "action_call"@,
        "action_store_bit"@ != "action_bit"@,
        "rng"@ != "zero"@,
        "rng"@ != "one"@,
        "rng"@ != "and"@,
        "rng"@ != "or"@,
        "rng"@ != "xor"@,
        "rng"@ != "not"@,
        "rng"@ != "oracle_call"@,
        "rng"@ != "oracle_bit"@,
        "rng"@ != "action_call"@,
        "rng"@ != "action_bit"@,
        "rng"@ != "action_store_bit"@,
        "rng_bit"@ != "zero"@,
        "rng_bit"@ != "one"@,
        "rng_bit"@ != "and"@,
        "rng_bit"@ != "or"@,
        "rng_bit"@ != "xor"@,
        "rng_bit"@ != "not"@,
        "rng_bit"@ != "oracle_call"@,
        "rng_bit"@ != "oracle_bit"@,
        "rng_bit"@ != "action_call"@,
        "rng_bit"@ != "action_bit"@,
        "rng_bit"@ != "action_store_bit"@,
        "rng_bit"@ != "rng"@,
        "storage_read"@ != "zero"@,
        "storage_read"@ != "one"@,
        "storage_read"@ != "and"@,
        "storage_read"@ != "or"@,
        "storage_read"@ != "xor"@,
        "storage_read"@ != "not"@,
        "storage_read"@ != "oracle_call"@,
        "storage_read"@ != "oracle_bit"@,
        "storage_read"@ != "action_call"@,
        "storage_read"@ != "action_bit"@,
        "storage_read"@ != "action_store_bit"@,
        "storage_read"@ != "rng"@,
        "storage_read"@ != "rng_bit"@,
        "storage_write"@ != "zero"@,
        "storage_write"@ != "one"@,
        "storage_write"@ != "and"@,
        "storage_write"@ != "or"@,
        "storage_write"@ != "xor"@,
        "storage_write"@ != "not"@,
        "storage_write"@ != "oracle_call"@,
        "storage_write"@ != "oracle_bit"@,
        "storage_write"@ != "action_call"@,
        "storage_write"@ != "action_bit"@,
        "storage_write"@ != "action_store_bit"@,
        "storage_write"@ != "rng"@,
        "storage_write"@ != "rng_bit"@,
        "storage_write"@ != "storage_read"@,
{
    reveal_strlit("zero");
    reveal_strlit("one");
    reveal_strlit("and");
    reveal_strlit("or");
    reveal_strlit("xor");
    reveal_strlit("not");
    reveal_strlit("oracle_call");
    reveal_strlit("oracle_bit");
    reveal_strlit("action_call");
    reveal_strlit("action_bit");
    reveal_strlit("action_store_bit");
    reveal_strlit("rng");
    reveal_strlit("rng_bit");
    reveal_strlit("storage_read");
    reveal_strlit("storage_write");
    assert("zero"@.len() == 4);
    assert("one"@.len() == 3);
    assert("and"@.len() == 3);
    assert("or"@.len() == 2);
    assert("xor"@.len() == 3);
    assert("not"@.len() == 3);
    assert("oracle_call"@.len() == 11);
    assert("oracle_bit"@.len() == 10);
    assert("action_call"@.len() == 11);
    assert("action_bit"@.len() == 10);
    assert("action_store_bit"@.len() == 16);
    assert("rng"@.len() == 3);
    assert("rng_bit"@.len() == 7);
    assert("storage_read"@.len() == 12);
    assert("storage_write"@.len() == 13);
    assert("and"@[0] == 'a');
    assert("one"@[0] == 'o');
    assert("xor"@[0] == 'x');
    assert("not"@[0] == 'n');
    assert("rng"@[0] == 'r');
    assert("action_call"@[0] == 'a');
    assert("oracle_call"@[0] == 'o');
    assert("action_bit"@[0] == 'a');
    assert("oracle_bit"@[0] == 'o');
}

/// The word of a statement.
#[verifier::opaque]
pub open spec fn bir_stmt_word(s: BIrStmtView) -> Seq<char> {
    match s {
        BIrStmtView::Zero => "zero"@,
        BIrStmtView::One => "one"@,
        BIrStmtView::And(..) => "and"@,
        BIrStmtView::Or(..) => "or"@,
        BIrStmtView::Xor(..) => "xor"@,
        BIrStmtView::Not(..) => "not"@,
        BIrStmtView::OracleCall { .. } => "oracle_call"@,
        BIrStmtView::OracleBit { .. } => "oracle_bit"@,
        BIrStmtView::OracleProjectedBit { .. } => "oracle_bit"@,
        BIrStmtView::ActionCall { .. } => "action_call"@,
        BIrStmtView::ActionBit { .. } => "action_bit"@,
        BIrStmtView::ActionStoreBit { .. } => "action_store_bit"@,
        BIrStmtView::Rng { .. } => "rng"@,
        BIrStmtView::RngBit { .. } => "rng_bit"@,
        BIrStmtView::StorageRead { .. } => "storage_read"@,
        BIrStmtView::StorageWrite { .. } => "storage_write"@,
    }
}

/// What stands behind the word of a statement, with `k` behind it.
#[verifier::opaque]
pub open spec fn bir_stmt_tail(s: BIrStmtView, k: Seq<char>) -> Seq<char> {
    match s {
        BIrStmtView::Zero => k,
        BIrStmtView::One => k,
        BIrStmtView::And(a, b) => spaced(var_text(a)) + (spaced(var_text(b)) + k),
        BIrStmtView::Or(a, b) => spaced(var_text(a)) + (spaced(var_text(b)) + k),
        BIrStmtView::Xor(a, b) => spaced(var_text(a)) + (spaced(var_text(b)) + k),
        BIrStmtView::Not(a) => spaced(var_text(a)) + k,
        BIrStmtView::OracleCall { name, args, num_bits } => spaced(name_text(name)) + (field("args"@, vars_text(args)) + (field("num_bits"@, usize_text(num_bits)) + k)),
        BIrStmtView::OracleBit { name, args, bit, occurrence } => spaced(name_text(name)) + (field("args"@, vars_text(args)) + (field("bit"@, usize_text(bit)) + (field("occurrence"@, u64_text(occurrence)) + k))),
        BIrStmtView::OracleProjectedBit { call, bit } => field("call"@, var_text(call)) + (field("bit"@, usize_text(bit)) + k),
        BIrStmtView::ActionCall { name, guard, args, fallback, num_bits } => spaced(name_text(name)) + (field("guard"@, var_text(guard)) + (field("args"@, vars_text(args)) + (field("fallback"@, vars_text(fallback)) + (field("num_bits"@, usize_text(num_bits)) + k)))),
        BIrStmtView::ActionBit { call, bit } => field("call"@, var_text(call)) + (field("bit"@, usize_text(bit)) + k),
        BIrStmtView::ActionStoreBit { name, guard, args, fallback, storage, lane, addr, bit, occurrence } => spaced(name_text(name)) + (field("guard"@, var_text(guard)) + (field("args"@, vars_text(args)) + (field("fallback"@, var_text(fallback)) + (field("storage"@, storage_text(storage)) + (field("lane"@, lane_text(lane)) + (field("addr"@, vars_text(addr)) + (field("bit"@, usize_text(bit)) + (field("occurrence"@, u64_text(occurrence)) + k)))))))),
        BIrStmtView::Rng { name } => spaced(name_text(name)) + k,
        BIrStmtView::RngBit { name, bit, occurrence } => spaced(name_text(name)) + (field("bit"@, usize_text(bit)) + (field("occurrence"@, u64_text(occurrence)) + k)),
        BIrStmtView::StorageRead { storage, lane, addr } => field("storage"@, storage_text(storage)) + (field("lane"@, lane_text(lane)) + (field("addr"@, vars_text(addr)) + k)),
        BIrStmtView::StorageWrite { storage, lane, src, addr } => field("storage"@, storage_text(storage)) + (field("lane"@, lane_text(lane)) + (field("src"@, var_text(src)) + (field("addr"@, vars_text(addr)) + k))),
    }
}

/// A statement is its word and what stands behind it.
pub proof fn lemma_bir_stmt_split(s: BIrStmtView, k: Seq<char>)
    requires
        at_blank(k),
    ensures
        bir_stmt_text(s) + k == bir_stmt_word(s) + bir_stmt_tail(s, k),
        at_blank(bir_stmt_tail(s, k)),
{
    reveal(bir_stmt_text);
    reveal(bir_stmt_tail);
    reveal(bir_stmt_word);
    match s {
        BIrStmtView::Zero => {},
        BIrStmtView::One => {},
        BIrStmtView::And(a, b) => {
            let f1 = spaced(var_text(a));
            let f2 = spaced(var_text(b));
            lemma_joined("and"@ + f1, f2, k);
            lemma_joined("and"@, f1, f2 + k);
            lemma_field_blank(Seq::empty(), var_text(a), f2 + k);
        },
        BIrStmtView::Or(a, b) => {
            let f1 = spaced(var_text(a));
            let f2 = spaced(var_text(b));
            lemma_joined("or"@ + f1, f2, k);
            lemma_joined("or"@, f1, f2 + k);
            lemma_field_blank(Seq::empty(), var_text(a), f2 + k);
        },
        BIrStmtView::Xor(a, b) => {
            let f1 = spaced(var_text(a));
            let f2 = spaced(var_text(b));
            lemma_joined("xor"@ + f1, f2, k);
            lemma_joined("xor"@, f1, f2 + k);
            lemma_field_blank(Seq::empty(), var_text(a), f2 + k);
        },
        BIrStmtView::Not(a) => {
            let f1 = spaced(var_text(a));
            lemma_joined("not"@, f1, k);
            lemma_field_blank(Seq::empty(), var_text(a), k);
        },
        BIrStmtView::OracleCall { name, args, num_bits } => {
            let f1 = spaced(name_text(name));
            let f2 = field("args"@, vars_text(args));
            let f3 = field("num_bits"@, usize_text(num_bits));
            lemma_joined("oracle_call"@ + f1 + f2, f3, k);
            lemma_joined("oracle_call"@ + f1, f2, f3 + k);
            lemma_joined("oracle_call"@, f1, f2 + (f3 + k));
            lemma_field_blank(Seq::empty(), name_text(name), f2 + (f3 + k));
        },
        BIrStmtView::OracleBit { name, args, bit, occurrence } => {
            let f1 = spaced(name_text(name));
            let f2 = field("args"@, vars_text(args));
            let f3 = field("bit"@, usize_text(bit));
            let f4 = field("occurrence"@, u64_text(occurrence));
            lemma_joined("oracle_bit"@ + f1 + f2 + f3, f4, k);
            lemma_joined("oracle_bit"@ + f1 + f2, f3, f4 + k);
            lemma_joined("oracle_bit"@ + f1, f2, f3 + (f4 + k));
            lemma_joined("oracle_bit"@, f1, f2 + (f3 + (f4 + k)));
            lemma_field_blank(Seq::empty(), name_text(name), f2 + (f3 + (f4 + k)));
        },
        BIrStmtView::OracleProjectedBit { call, bit } => {
            let f1 = field("call"@, var_text(call));
            let f2 = field("bit"@, usize_text(bit));
            lemma_joined("oracle_bit"@ + f1, f2, k);
            lemma_joined("oracle_bit"@, f1, f2 + k);
            lemma_field_blank("call"@, var_text(call), f2 + k);
        },
        BIrStmtView::ActionCall { name, guard, args, fallback, num_bits } => {
            let f1 = spaced(name_text(name));
            let f2 = field("guard"@, var_text(guard));
            let f3 = field("args"@, vars_text(args));
            let f4 = field("fallback"@, vars_text(fallback));
            let f5 = field("num_bits"@, usize_text(num_bits));
            lemma_joined("action_call"@ + f1 + f2 + f3 + f4, f5, k);
            lemma_joined("action_call"@ + f1 + f2 + f3, f4, f5 + k);
            lemma_joined("action_call"@ + f1 + f2, f3, f4 + (f5 + k));
            lemma_joined("action_call"@ + f1, f2, f3 + (f4 + (f5 + k)));
            lemma_joined("action_call"@, f1, f2 + (f3 + (f4 + (f5 + k))));
            lemma_field_blank(Seq::empty(), name_text(name), f2 + (f3 + (f4 + (f5 + k))));
        },
        BIrStmtView::ActionBit { call, bit } => {
            let f1 = field("call"@, var_text(call));
            let f2 = field("bit"@, usize_text(bit));
            lemma_joined("action_bit"@ + f1, f2, k);
            lemma_joined("action_bit"@, f1, f2 + k);
            lemma_field_blank("call"@, var_text(call), f2 + k);
        },
        BIrStmtView::ActionStoreBit { name, guard, args, fallback, storage, lane, addr, bit, occurrence } => {
            let f1 = spaced(name_text(name));
            let f2 = field("guard"@, var_text(guard));
            let f3 = field("args"@, vars_text(args));
            let f4 = field("fallback"@, var_text(fallback));
            let f5 = field("storage"@, storage_text(storage));
            let f6 = field("lane"@, lane_text(lane));
            let f7 = field("addr"@, vars_text(addr));
            let f8 = field("bit"@, usize_text(bit));
            let f9 = field("occurrence"@, u64_text(occurrence));
            lemma_joined("action_store_bit"@ + f1 + f2 + f3 + f4 + f5 + f6 + f7 + f8, f9, k);
            lemma_joined("action_store_bit"@ + f1 + f2 + f3 + f4 + f5 + f6 + f7, f8, f9 + k);
            lemma_joined("action_store_bit"@ + f1 + f2 + f3 + f4 + f5 + f6, f7, f8 + (f9 + k));
            lemma_joined("action_store_bit"@ + f1 + f2 + f3 + f4 + f5, f6, f7 + (f8 + (f9 + k)));
            lemma_joined("action_store_bit"@ + f1 + f2 + f3 + f4, f5, f6 + (f7 + (f8 + (f9 + k))));
            lemma_joined("action_store_bit"@ + f1 + f2 + f3, f4, f5 + (f6 + (f7 + (f8 + (f9 + k)))));
            lemma_joined("action_store_bit"@ + f1 + f2, f3, f4 + (f5 + (f6 + (f7 + (f8 + (f9 + k))))));
            lemma_joined("action_store_bit"@ + f1, f2, f3 + (f4 + (f5 + (f6 + (f7 + (f8 + (f9 + k)))))));
            lemma_joined("action_store_bit"@, f1, f2 + (f3 + (f4 + (f5 + (f6 + (f7 + (f8 + (f9 + k))))))));
            lemma_field_blank(Seq::empty(), name_text(name), f2 + (f3 + (f4 + (f5 + (f6 + (f7 + (f8 + (f9 + k))))))));
        },
        BIrStmtView::Rng { name } => {
            let f1 = spaced(name_text(name));
            lemma_joined("rng"@, f1, k);
            lemma_field_blank(Seq::empty(), name_text(name), k);
        },
        BIrStmtView::RngBit { name, bit, occurrence } => {
            let f1 = spaced(name_text(name));
            let f2 = field("bit"@, usize_text(bit));
            let f3 = field("occurrence"@, u64_text(occurrence));
            lemma_joined("rng_bit"@ + f1 + f2, f3, k);
            lemma_joined("rng_bit"@ + f1, f2, f3 + k);
            lemma_joined("rng_bit"@, f1, f2 + (f3 + k));
            lemma_field_blank(Seq::empty(), name_text(name), f2 + (f3 + k));
        },
        BIrStmtView::StorageRead { storage, lane, addr } => {
            let f1 = field("storage"@, storage_text(storage));
            let f2 = field("lane"@, lane_text(lane));
            let f3 = field("addr"@, vars_text(addr));
            lemma_joined("storage_read"@ + f1 + f2, f3, k);
            lemma_joined("storage_read"@ + f1, f2, f3 + k);
            lemma_joined("storage_read"@, f1, f2 + (f3 + k));
            lemma_field_blank("storage"@, storage_text(storage), f2 + (f3 + k));
        },
        BIrStmtView::StorageWrite { storage, lane, src, addr } => {
            let f1 = field("storage"@, storage_text(storage));
            let f2 = field("lane"@, lane_text(lane));
            let f3 = field("src"@, var_text(src));
            let f4 = field("addr"@, vars_text(addr));
            lemma_joined("storage_write"@ + f1 + f2 + f3, f4, k);
            lemma_joined("storage_write"@ + f1 + f2, f3, f4 + k);
            lemma_joined("storage_write"@ + f1, f2, f3 + (f4 + k));
            lemma_joined("storage_write"@, f1, f2 + (f3 + (f4 + k)));
            lemma_field_blank("storage"@, storage_text(storage), f2 + (f3 + (f4 + k)));
        },
    }
}

proof fn lemma_read_bir_and(l: LexView, a: IRVarId, b: IRVarId, k: Seq<char>)
    requires
        at_blank(k),
        l.rest == spaced(var_text(a)) + (spaced(var_text(b)) + k),
    ensures
        reads(get_bir_and(l), BIrStmtView::And(a, b), k),
{
    let k1 = spaced(var_text(b)) + k;
    lemma_field_blank(Seq::empty(), var_text(b), k);
    lemma_spaced_var(l, a, k1);
    let l1 = get_var_id(l)->Ok_0.1;
    lemma_spaced_var(l1, b, k);
}

proof fn lemma_read_bir_or(l: LexView, a: IRVarId, b: IRVarId, k: Seq<char>)
    requires
        at_blank(k),
        l.rest == spaced(var_text(a)) + (spaced(var_text(b)) + k),
    ensures
        reads(get_bir_or(l), BIrStmtView::Or(a, b), k),
{
    let k1 = spaced(var_text(b)) + k;
    lemma_field_blank(Seq::empty(), var_text(b), k);
    lemma_spaced_var(l, a, k1);
    let l1 = get_var_id(l)->Ok_0.1;
    lemma_spaced_var(l1, b, k);
}

proof fn lemma_read_bir_xor(l: LexView, a: IRVarId, b: IRVarId, k: Seq<char>)
    requires
        at_blank(k),
        l.rest == spaced(var_text(a)) + (spaced(var_text(b)) + k),
    ensures
        reads(get_bir_xor(l), BIrStmtView::Xor(a, b), k),
{
    let k1 = spaced(var_text(b)) + k;
    lemma_field_blank(Seq::empty(), var_text(b), k);
    lemma_spaced_var(l, a, k1);
    let l1 = get_var_id(l)->Ok_0.1;
    lemma_spaced_var(l1, b, k);
}

proof fn lemma_read_bir_not(l: LexView, a: IRVarId, k: Seq<char>)
    requires
        at_blank(k),
        l.rest == spaced(var_text(a)) + k,
    ensures
        reads(get_bir_not(l), BIrStmtView::Not(a), k),
{
    lemma_spaced_var(l, a, k);
}

proof fn lemma_read_bir_oracle_call(l: LexView, name: Seq<char>, args: Seq<IRVarId>, num_bits: usize, k: Seq<char>)
    requires
        at_blank(k),
        l.rest == spaced(name_text(name)) + (field("args"@, vars_text(args)) + (field("num_bits"@, usize_text(num_bits)) + k)),
        num_bits <= u32::MAX,
    ensures
        reads(get_bir_oracle_call(l), BIrStmtView::OracleCall { name, args, num_bits }, k),
{
    lemma_bir_keys();
    let k2 = field("num_bits"@, usize_text(num_bits)) + k;
    let k1 = field("args"@, vars_text(args)) + k2;
    lemma_field_blank("num_bits"@, usize_text(num_bits), k);
    lemma_field_blank("args"@, vars_text(args), k2);
    lemma_spaced_name(l, name, k1);
    let l1 = get_name(l)->Ok_0.1;
    lemma_vars_field(l1, "args"@, args, k2);
    let l2 = get_vars_field(l1, "args"@)->Ok_0.1;
    lemma_usize_field(l2, "num_bits"@, num_bits, k);
}

proof fn lemma_read_bir_oracle_bit(l: LexView, name: Seq<char>, args: Seq<IRVarId>, bit: usize, occurrence: u64, k: Seq<char>)
    requires
        at_blank(k),
        l.rest == spaced(name_text(name)) + (field("args"@, vars_text(args)) + (field("bit"@, usize_text(bit)) + (field("occurrence"@, u64_text(occurrence)) + k))),
        bit <= u32::MAX,
    ensures
        reads(get_bir_oracle_bit(l), BIrStmtView::OracleBit { name, args, bit, occurrence }, k),
{
    lemma_bir_keys();
    let k3 = field("occurrence"@, u64_text(occurrence)) + k;
    let k2 = field("bit"@, usize_text(bit)) + k3;
    let k1 = field("args"@, vars_text(args)) + k2;
    lemma_field_blank("occurrence"@, u64_text(occurrence), k);
    lemma_field_blank("bit"@, usize_text(bit), k3);
    lemma_field_blank("args"@, vars_text(args), k2);
    lemma_spaced_name(l, name, k1);
    let l1 = get_name(l)->Ok_0.1;
    lemma_vars_field(l1, "args"@, args, k2);
    let l2 = get_vars_field(l1, "args"@)->Ok_0.1;
    lemma_usize_field(l2, "bit"@, bit, k3);
    let l3 = get_usize_field(l2, "bit"@)->Ok_0.1;
    lemma_u64_field(l3, "occurrence"@, occurrence, k);
}

proof fn lemma_read_bir_projected_bit(l: LexView, call: IRVarId, bit: usize, k: Seq<char>)
    requires
        at_blank(k),
        l.rest == field("call"@, var_text(call)) + (field("bit"@, usize_text(bit)) + k),
        bit <= u32::MAX,
    ensures
        reads(get_bir_projected_bit(l), BIrStmtView::OracleProjectedBit { call, bit }, k),
{
    lemma_bir_keys();
    let k1 = field("bit"@, usize_text(bit)) + k;
    lemma_field_blank("bit"@, usize_text(bit), k);
    lemma_var_field(l, "call"@, call, k1);
    let l1 = get_var_field(l, "call"@)->Ok_0.1;
    lemma_usize_field(l1, "bit"@, bit, k);
}

proof fn lemma_read_bir_action_call(l: LexView, name: Seq<char>, guard: IRVarId, args: Seq<IRVarId>, fallback: Seq<IRVarId>, num_bits: usize, k: Seq<char>)
    requires
        at_blank(k),
        l.rest == spaced(name_text(name)) + (field("guard"@, var_text(guard)) + (field("args"@, vars_text(args)) + (field("fallback"@, vars_text(fallback)) + (field("num_bits"@, usize_text(num_bits)) + k)))),
        num_bits <= u32::MAX,
    ensures
        reads(get_bir_action_call(l), BIrStmtView::ActionCall { name, guard, args, fallback, num_bits }, k),
{
    lemma_bir_keys();
    let k4 = field("num_bits"@, usize_text(num_bits)) + k;
    let k3 = field("fallback"@, vars_text(fallback)) + k4;
    let k2 = field("args"@, vars_text(args)) + k3;
    let k1 = field("guard"@, var_text(guard)) + k2;
    lemma_field_blank("num_bits"@, usize_text(num_bits), k);
    lemma_field_blank("fallback"@, vars_text(fallback), k4);
    lemma_field_blank("args"@, vars_text(args), k3);
    lemma_field_blank("guard"@, var_text(guard), k2);
    lemma_spaced_name(l, name, k1);
    let l1 = get_name(l)->Ok_0.1;
    lemma_var_field(l1, "guard"@, guard, k2);
    let l2 = get_var_field(l1, "guard"@)->Ok_0.1;
    lemma_vars_field(l2, "args"@, args, k3);
    let l3 = get_vars_field(l2, "args"@)->Ok_0.1;
    lemma_vars_field(l3, "fallback"@, fallback, k4);
    let l4 = get_vars_field(l3, "fallback"@)->Ok_0.1;
    lemma_usize_field(l4, "num_bits"@, num_bits, k);
}

proof fn lemma_read_bir_action_bit(l: LexView, call: IRVarId, bit: usize, k: Seq<char>)
    requires
        at_blank(k),
        l.rest == field("call"@, var_text(call)) + (field("bit"@, usize_text(bit)) + k),
        bit <= u32::MAX,
    ensures
        reads(get_bir_action_bit(l), BIrStmtView::ActionBit { call, bit }, k),
{
    lemma_bir_keys();
    let k1 = field("bit"@, usize_text(bit)) + k;
    lemma_field_blank("bit"@, usize_text(bit), k);
    lemma_var_field(l, "call"@, call, k1);
    let l1 = get_var_field(l, "call"@)->Ok_0.1;
    lemma_usize_field(l1, "bit"@, bit, k);
}

proof fn lemma_read_bir_action_store_bit(l: LexView, name: Seq<char>, guard: IRVarId, args: Seq<IRVarId>, fallback: IRVarId, storage: StorageId, lane: LaneId, addr: Seq<IRVarId>, bit: usize, occurrence: u64, k: Seq<char>)
    requires
        at_blank(k),
        l.rest == spaced(name_text(name)) + (field("guard"@, var_text(guard)) + (field("args"@, vars_text(args)) + (field("fallback"@, var_text(fallback)) + (field("storage"@, storage_text(storage)) + (field("lane"@, lane_text(lane)) + (field("addr"@, vars_text(addr)) + (field("bit"@, usize_text(bit)) + (field("occurrence"@, u64_text(occurrence)) + k)))))))),
        bit <= u32::MAX,
    ensures
        reads(get_bir_action_store_bit(l), BIrStmtView::ActionStoreBit { name, guard, args, fallback, storage, lane, addr, bit, occurrence }, k),
{
    lemma_bir_keys();
    let k8 = field("occurrence"@, u64_text(occurrence)) + k;
    let k7 = field("bit"@, usize_text(bit)) + k8;
    let k6 = field("addr"@, vars_text(addr)) + k7;
    let k5 = field("lane"@, lane_text(lane)) + k6;
    let k4 = field("storage"@, storage_text(storage)) + k5;
    let k3 = field("fallback"@, var_text(fallback)) + k4;
    let k2 = field("args"@, vars_text(args)) + k3;
    let k1 = field("guard"@, var_text(guard)) + k2;
    lemma_field_blank("occurrence"@, u64_text(occurrence), k);
    lemma_field_blank("bit"@, usize_text(bit), k8);
    lemma_field_blank("addr"@, vars_text(addr), k7);
    lemma_field_blank("lane"@, lane_text(lane), k6);
    lemma_field_blank("storage"@, storage_text(storage), k5);
    lemma_field_blank("fallback"@, var_text(fallback), k4);
    lemma_field_blank("args"@, vars_text(args), k3);
    lemma_field_blank("guard"@, var_text(guard), k2);
    lemma_spaced_name(l, name, k1);
    let l1 = get_name(l)->Ok_0.1;
    lemma_var_field(l1, "guard"@, guard, k2);
    let l2 = get_var_field(l1, "guard"@)->Ok_0.1;
    lemma_vars_field(l2, "args"@, args, k3);
    let l3 = get_vars_field(l2, "args"@)->Ok_0.1;
    lemma_var_field(l3, "fallback"@, fallback, k4);
    let l4 = get_var_field(l3, "fallback"@)->Ok_0.1;
    lemma_storage_field(l4, "storage"@, storage, k5);
    let l5 = get_storage_field(l4, "storage"@)->Ok_0.1;
    lemma_lane_field(l5, "lane"@, lane, k6);
    let l6 = get_lane_field(l5, "lane"@)->Ok_0.1;
    lemma_vars_field(l6, "addr"@, addr, k7);
    let l7 = get_vars_field(l6, "addr"@)->Ok_0.1;
    lemma_usize_field(l7, "bit"@, bit, k8);
    let l8 = get_usize_field(l7, "bit"@)->Ok_0.1;
    lemma_u64_field(l8, "occurrence"@, occurrence, k);
}

proof fn lemma_read_bir_rng(l: LexView, name: Seq<char>, k: Seq<char>)
    requires
        at_blank(k),
        l.rest == spaced(name_text(name)) + k,
    ensures
        reads(get_bir_rng(l), BIrStmtView::Rng { name }, k),
{
    lemma_spaced_name(l, name, k);
}

proof fn lemma_read_bir_rng_bit(l: LexView, name: Seq<char>, bit: usize, occurrence: u64, k: Seq<char>)
    requires
        at_blank(k),
        l.rest == spaced(name_text(name)) + (field("bit"@, usize_text(bit)) + (field("occurrence"@, u64_text(occurrence)) + k)),
        bit <= u32::MAX,
    ensures
        reads(get_bir_rng_bit(l), BIrStmtView::RngBit { name, bit, occurrence }, k),
{
    lemma_bir_keys();
    let k2 = field("occurrence"@, u64_text(occurrence)) + k;
    let k1 = field("bit"@, usize_text(bit)) + k2;
    lemma_field_blank("occurrence"@, u64_text(occurrence), k);
    lemma_field_blank("bit"@, usize_text(bit), k2);
    lemma_spaced_name(l, name, k1);
    let l1 = get_name(l)->Ok_0.1;
    lemma_usize_field(l1, "bit"@, bit, k2);
    let l2 = get_usize_field(l1, "bit"@)->Ok_0.1;
    lemma_u64_field(l2, "occurrence"@, occurrence, k);
}

proof fn lemma_read_bir_storage_read(l: LexView, storage: StorageId, lane: LaneId, addr: Seq<IRVarId>, k: Seq<char>)
    requires
        at_blank(k),
        l.rest == field("storage"@, storage_text(storage)) + (field("lane"@, lane_text(lane)) + (field("addr"@, vars_text(addr)) + k)),
    ensures
        reads(get_bir_storage_read(l), BIrStmtView::StorageRead { storage, lane, addr }, k),
{
    lemma_bir_keys();
    let k2 = field("addr"@, vars_text(addr)) + k;
    let k1 = field("lane"@, lane_text(lane)) + k2;
    lemma_field_blank("addr"@, vars_text(addr), k);
    lemma_field_blank("lane"@, lane_text(lane), k2);
    lemma_storage_field(l, "storage"@, storage, k1);
    let l1 = get_storage_field(l, "storage"@)->Ok_0.1;
    lemma_lane_field(l1, "lane"@, lane, k2);
    let l2 = get_lane_field(l1, "lane"@)->Ok_0.1;
    lemma_vars_field(l2, "addr"@, addr, k);
}

proof fn lemma_read_bir_storage_write(l: LexView, storage: StorageId, lane: LaneId, src: IRVarId, addr: Seq<IRVarId>, k: Seq<char>)
    requires
        at_blank(k),
        l.rest == field("storage"@, storage_text(storage)) + (field("lane"@, lane_text(lane)) + (field("src"@, var_text(src)) + (field("addr"@, vars_text(addr)) + k))),
    ensures
        reads(get_bir_storage_write(l), BIrStmtView::StorageWrite { storage, lane, src, addr }, k),
{
    lemma_bir_keys();
    let k3 = field("addr"@, vars_text(addr)) + k;
    let k2 = field("src"@, var_text(src)) + k3;
    let k1 = field("lane"@, lane_text(lane)) + k2;
    lemma_field_blank("addr"@, vars_text(addr), k);
    lemma_field_blank("src"@, var_text(src), k3);
    lemma_field_blank("lane"@, lane_text(lane), k2);
    lemma_storage_field(l, "storage"@, storage, k1);
    let l1 = get_storage_field(l, "storage"@)->Ok_0.1;
    lemma_lane_field(l1, "lane"@, lane, k2);
    let l2 = get_lane_field(l1, "lane"@)->Ok_0.1;
    lemma_var_field(l2, "src"@, src, k3);
    let l3 = get_var_field(l2, "src"@)->Ok_0.1;
    lemma_vars_field(l3, "addr"@, addr, k);
}

/// Blanks before a text do not matter where it is read.
proof fn lemma_skipped_twice(l: LexView)
    ensures
        l.skipped().skipped() == l.skipped(),
    decreases l.rest.len(),
{
    crate::text::lexer::lemma_skipped_shrinks(l);
    crate::text::pieces::lemma_at_token(l.skipped());
}

/// A statement is read back.
pub proof fn lemma_bir_stmt(l: LexView, s: BIrStmtView, k: Seq<char>)
    requires
        bir_stmt_writable(s),
        at_blank(k),
        l.rest == bir_stmt_tail(s, k),
    ensures
        is_name(bir_stmt_word(s)),
        reads(get_bir_stmt(bir_stmt_word(s), l), s, k),
{
    reveal(bir_stmt_tail);
    reveal(bir_stmt_word);
    reveal(get_bir_stmt);
    reveal(bir_stmt_writable);
    lemma_bir_stmt_words();
    match s {
        BIrStmtView::Zero => {},
        BIrStmtView::One => {},
        BIrStmtView::And(a, b) => {
            lemma_read_bir_and(l, a, b, k);
        },
        BIrStmtView::Or(a, b) => {
            lemma_read_bir_or(l, a, b, k);
        },
        BIrStmtView::Xor(a, b) => {
            lemma_read_bir_xor(l, a, b, k);
        },
        BIrStmtView::Not(a) => {
            lemma_read_bir_not(l, a, k);
        },
        BIrStmtView::OracleCall { name, args, num_bits } => {
            lemma_read_bir_oracle_call(l, name, args, num_bits, k);
        },
        BIrStmtView::OracleBit { name, args, bit, occurrence } => {
            let k1 = field("args"@, vars_text(args)) + (field("bit"@, usize_text(bit)) + (field(
                "occurrence"@,
                u64_text(occurrence),
            ) + k));
            assert((name_text(name) + k1)[0] == '"');
            crate::text::fields::lemma_spaced(l, name_text(name), k1);
            lemma_skipped_twice(l);
            lemma_read_bir_oracle_bit(l, name, args, bit, occurrence, k);
            lemma_same_after_skip_name(l);
        },
        BIrStmtView::OracleProjectedBit { call, bit } => {
            let k1 = field("bit"@, usize_text(bit)) + k;
            lemma_bir_keys();
            let rest = "call"@ + (seq!['='] + (var_text(call) + k1));
            assert(l.rest =~= seq![' '] + rest);
            assert(rest[0] == 'c') by {
                reveal_strlit("call");
            }
            lemma_past_blank(l, ' ', rest);
            lemma_skipped_twice(l);
            lemma_read_bir_projected_bit(l, call, bit, k);
            lemma_same_after_skip_call(l);
        },
        BIrStmtView::ActionCall { name, guard, args, fallback, num_bits } => {
            lemma_read_bir_action_call(l, name, guard, args, fallback, num_bits, k);
        },
        BIrStmtView::ActionBit { call, bit } => {
            lemma_read_bir_action_bit(l, call, bit, k);
        },
        BIrStmtView::ActionStoreBit { name, guard, args, fallback, storage, lane, addr, bit, occurrence } => {
            lemma_read_bir_action_store_bit(l, name, guard, args, fallback, storage, lane, addr, bit, occurrence, k);
        },
        BIrStmtView::Rng { name } => {
            lemma_read_bir_rng(l, name, k);
        },
        BIrStmtView::RngBit { name, bit, occurrence } => {
            lemma_read_bir_rng_bit(l, name, bit, occurrence, k);
        },
        BIrStmtView::StorageRead { storage, lane, addr } => {
            lemma_read_bir_storage_read(l, storage, lane, addr, k);
        },
        BIrStmtView::StorageWrite { storage, lane, src, addr } => {
            lemma_read_bir_storage_write(l, storage, lane, src, addr, k);
        },
    }
}

/// A named output bit reads the same behind the blanks before it.
proof fn lemma_same_after_skip_name(l: LexView)
    ensures
        get_bir_oracle_bit(l.skipped()) == get_bir_oracle_bit(l),
{
    lemma_skipped_twice(l);
}

/// A projected output bit reads the same behind the blanks before it.
proof fn lemma_same_after_skip_call(l: LexView)
    ensures
        get_bir_projected_bit(l.skipped()) == get_bir_projected_bit(l),
{
    lemma_skipped_twice(l);
    assert(get_ident(l.skipped()) == get_ident(l));
}

} // verus!
