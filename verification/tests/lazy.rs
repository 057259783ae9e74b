use volar_ir::boolar::{BIrStmt, LaneId};
use volar_ir::circuit::BCircuit;
use volar_ir::common::StorageId;
use volar_ir::ir::IRVarId;
use volar_ir::lazy::{
    chunk_b_circuit, BStmtChunk, BStmtChunkRef, ChunkCodec, ChunkLoadError, ChunkSink,
    ChunkedBCircuit, ChunkingError, WireSchedule, WireScheduleError,
};

/// Keeps chunks in a list.
struct Memory {
    chunks: Vec<Vec<u8>>,
}

impl ChunkSink for Memory {
    type Ref = usize;

    type Error = core::convert::Infallible;

    fn step(self, _bytes: Vec<u8>, _after: Self, _reply: Result<usize, Self::Error>) -> bool {
        unreachable!()
    }

    fn store(&mut self, bytes: Vec<u8>) -> Result<usize, Self::Error> {
        self.chunks.push(bytes);
        Ok(self.chunks.len() - 1)
    }
}

/// What is decoded of any chunk: no statements.
fn empty_chunk(memory: &Memory, chunk: usize) -> Result<BStmtChunk<()>, String> {
    if chunk < memory.chunks.len() {
        Ok(BStmtChunk {
            first: 0,
            stmts: Vec::new(),
        })
    } else {
        Err(String::from("no such chunk"))
    }
}

#[derive(Clone, Copy)]
struct NodeCountCodec;

impl ChunkCodec<BStmtChunk<()>> for NodeCountCodec {
    type Error = core::convert::Infallible;

    fn encode(&self, value: &BStmtChunk<()>) -> Result<Vec<u8>, Self::Error> {
        Ok(vec![0; value.stmts.len() * 10])
    }
}

#[test]
fn chunks_on_complete_statement_boundaries() {
    let mut circuit = BCircuit::new(0);
    circuit.push_stmt(BIrStmt::Zero, ());
    circuit.push_stmt(BIrStmt::One, ());
    circuit.push_stmt(BIrStmt::Zero, ());
    let mut sink = Memory { chunks: vec![] };
    let manifest = chunk_b_circuit(&circuit, 20, 3, &NodeCountCodec, &mut sink).unwrap();
    assert_eq!(manifest.statement_chunks.len(), 2);
    assert_eq!(manifest.statement_chunks[0].statements, 2);
    assert_eq!(manifest.statement_chunks[1].first, 2);
}

#[test]
fn rejects_an_oversize_single_node() {
    let mut circuit = BCircuit::new(0);
    circuit.push_stmt(BIrStmt::Zero, ());
    let mut sink = Memory { chunks: vec![] };
    assert!(matches!(
        chunk_b_circuit(&circuit, 9, 1, &NodeCountCodec, &mut sink),
        Err(ChunkingError::NodeTooLarge { .. })
    ));
}

#[test]
fn loader_checks_the_declared_range() {
    let mut source = Memory { chunks: vec![] };
    let chunk = source.store(vec![0; 10]).unwrap();
    let manifest = ChunkedBCircuit {
        version: 1,
        params: 0,
        pre_init: Vec::new(),
        outputs: Vec::new(),
        statement_chunks: vec![BStmtChunkRef {
            chunk,
            first: 2,
            statements: 1,
        }],
        wire_schedule: WireSchedule {
            resident_wires: 1,
            temporary_wires: 0,
            last_use: Vec::new(),
            release_at: vec![Vec::new()],
        },
    };
    assert!(matches!(
        manifest.load_statement_chunk(0, |r: &usize| empty_chunk(&source, *r)),
        Err(ChunkLoadError::RangeMismatch { .. })
    ));
}

fn gates() -> BCircuit<()> {
    let mut c = BCircuit::new(2);
    c.push_stmt(BIrStmt::And(IRVarId(0), IRVarId(1)), ());
    c.push_stmt(BIrStmt::Not(IRVarId(2)), ());
    c.push_stmt(
        BIrStmt::StorageWrite {
            storage: StorageId(0),
            lane: LaneId(0),
            src: IRVarId(3),
            addr: vec![IRVarId(0)],
        },
        (),
    );
    c.outputs = vec![IRVarId(3)];
    c
}

#[test]
fn schedules_release_each_wire_where_it_is_last_needed() {
    let s = WireSchedule::build(&gates(), 8).unwrap();
    assert_eq!(s.resident_wires, 8);
    assert_eq!(s.temporary_wires, 2);
    assert_eq!(s.persistent_wires(), 6);
    assert_eq!(s.last_use, vec![3, 1, 2, 4, 3]);
    assert_eq!(s.release_at.len(), 5);
    assert_eq!(s.release_at[0], Vec::<u32>::new());
    assert_eq!(s.release_at[1], vec![1]);
    assert_eq!(s.release_at[2], vec![2]);
    assert_eq!(s.release_at[3], vec![0, 4]);
    assert_eq!(s.release_at[4], vec![3]);
}

#[test]
fn schedules_need_room_for_the_operands() {
    assert!(matches!(
        WireSchedule::build(&gates(), 1),
        Err(WireScheduleError::InsufficientResidentWires { .. })
    ));
}

#[test]
fn chunking_needs_a_limit() {
    let mut sink = Memory { chunks: vec![] };
    assert!(matches!(
        chunk_b_circuit(&gates(), 0, 8, &NodeCountCodec, &mut sink),
        Err(ChunkingError::ZeroChunkLimit)
    ));
    assert!(matches!(
        chunk_b_circuit(&gates(), 100, 1, &NodeCountCodec, &mut sink),
        Err(ChunkingError::WireSchedule(_))
    ));
    assert_eq!(sink.chunks.len(), 0);
}

#[test]
fn chunks_cover_the_circuit() {
    let mut sink = Memory { chunks: vec![] };
    let m = chunk_b_circuit(&gates(), 20, 8, &NodeCountCodec, &mut sink).unwrap();
    assert_eq!(m.version, ChunkedBCircuit::<usize>::VERSION);
    assert_eq!(m.statement_count(), 3);
    assert_eq!(sink.chunks, vec![vec![0; 20], vec![0; 10]]);
    assert!(matches!(
        m.load_statement_chunk(2, |r: &usize| empty_chunk(&sink, *r)),
        Err(ChunkLoadError::MissingChunk { index: 2 })
    ));
    let nodes = gates().stmts;
    let loaded = m.load_statement_chunk(1, |_r: &usize| {
        Ok::<BStmtChunk<()>, String>(BStmtChunk {
            first: 2,
            stmts: nodes.into_iter().skip(2).collect(),
        })
    });
    assert_eq!(loaded.unwrap().stmts.len(), 1);
}
