//! The world assembler: turns a stream of world-state fragments, each
//! tagged with a frame number, into complete snapshots.
//!
//! Fragments accumulate for one frame at a time.  A strictly newer frame
//! number discards the accumulation so far; a strictly older one is
//! ignored.  The moment the declared total equals the number of collected
//! pieces, the accumulation is published as the snapshot, which then
//! stays authoritative until a later frame completes.

use vstd::prelude::*;
use crate::msg::WorldPiece;

verus! {

/// A complete, internally consistent reconstruction of world state for
/// one frame number.
pub struct World {
    pub frame: u32,
    pub pieces: Vec<WorldPiece>,
}

/// The assembler's mathematical state.
#[verifier::ext_equal]
pub struct AsmView {
    /// The frame currently accumulating.
    pub frame: u32,
    /// The declared piece count for that frame, once a total fragment
    /// has arrived.
    pub total: Option<u32>,
    /// The non-total pieces collected for that frame, in arrival order.
    pub pieces: Seq<WorldPiece>,
    /// The last completed snapshot: its frame and its pieces.
    pub snapshot: Option<(u32, Seq<WorldPiece>)>,
}

/// A declared total has been reached: the frame's piece set is complete.
pub open spec fn spec_complete(total: Option<u32>, pieces: Seq<WorldPiece>) -> bool {
    match total {
        Some(n) => pieces.len() == n,
        None => false,
    }
}

/// One fragment's effect on the assembler's state.
pub open spec fn spec_ingest(v: AsmView, frame: u32, piece: WorldPiece) -> AsmView {
    if frame < v.frame {
        v
    } else {
        let acc = if frame > v.frame {
            AsmView { frame, total: None, pieces: Seq::empty(), snapshot: v.snapshot }
        } else {
            v
        };
        let acc2 = match piece {
            WorldPiece::Total(n) => AsmView { total: Some(n), ..acc },
            _ => AsmView { pieces: acc.pieces.push(piece), ..acc },
        };
        if spec_complete(acc2.total, acc2.pieces) {
            AsmView { snapshot: Some((acc2.frame, acc2.pieces)), ..acc2 }
        } else {
            acc2
        }
    }
}

/// The world assembler.
pub struct Assembler {
    frame: u32,
    total: Option<u32>,
    pieces: Vec<WorldPiece>,
    snap_frame: u32,
    snap_pieces: Vec<WorldPiece>,
    has_snap: bool,
}

impl View for Assembler {
    type V = AsmView;

    closed spec fn view(&self) -> AsmView {
        AsmView {
            frame: self.frame,
            total: self.total,
            pieces: self.pieces@,
            snapshot: if self.has_snap {
                Some((self.snap_frame, self.snap_pieces@))
            } else {
                None
            },
        }
    }
}

/// An element-for-element copy of a piece list.
fn copy_pieces(v: &Vec<WorldPiece>) -> (r: Vec<WorldPiece>)
    ensures
        r@ == v@,
{
    let mut r: Vec<WorldPiece> = Vec::new();
    let mut i: usize = 0;
    while i < v.len()
        invariant
            i <= v.len(),
            r@ == v@.subrange(0, i as int),
        decreases v.len() - i,
    {
        r.push(v[i]);
        assert(v@.subrange(0, i + 1) =~= v@.subrange(0, i as int).push(v@[i as int]));
        i = i + 1;
    }
    assert(v@.subrange(0, v.len() as int) =~= v@);
    r
}

impl Assembler {
    /// A fresh assembler: frame zero accumulating, nothing collected, no
    /// snapshot completed yet.
    pub fn new() -> (r: Assembler)
        ensures
            r@ == (AsmView {
                frame: 0,
                total: None,
                pieces: Seq::<WorldPiece>::empty(),
                snapshot: None,
            }),
    {
        let r = Assembler {
            frame: 0,
            total: None,
            pieces: Vec::new(),
            snap_frame: 0,
            snap_pieces: Vec::new(),
            has_snap: false,
        };
        assert(r@ =~= (AsmView {
            frame: 0,
            total: None,
            pieces: Seq::<WorldPiece>::empty(),
            snapshot: None,
        }));
        r
    }

    /// Take in one fragment, as `spec_ingest` describes: a newer frame
    /// resets the accumulation, a stale one is ignored, and the snapshot
    /// is published the moment the declared total is reached.
    pub fn ingest(&mut self, frame: u32, piece: WorldPiece)
        ensures
            final(self)@ == spec_ingest(old(self)@, frame, piece),
    {
        if frame < self.frame {
            return;
        }
        if frame > self.frame {
            self.frame = frame;
            self.total = None;
            self.pieces = Vec::new();
        }
        match piece {
            WorldPiece::Total(n) => {
                self.total = Some(n);
            },
            _ => {
                self.pieces.push(piece);
            },
        }
        let complete: bool = match self.total {
            Some(n) => self.pieces.len() as u64 == n as u64,
            None => false,
        };
        if complete {
            self.snap_frame = self.frame;
            self.snap_pieces = copy_pieces(&self.pieces);
            self.has_snap = true;
        }
        assert(self@ =~= spec_ingest(old(self)@, frame, piece));
    }

    /// The most recently completed snapshot, or `None` before the first
    /// completion.
    pub fn snapshot(&self) -> (r: Option<World>)
        ensures
            match self@.snapshot {
                Some(sn) => r matches Some(wr) && wr.frame == sn.0 && wr.pieces@ == sn.1,
                None => r is None,
            },
    {
        if self.has_snap {
            Some(World { frame: self.snap_frame, pieces: copy_pieces(&self.snap_pieces) })
        } else {
            None
        }
    }
}

/// Happy path: a declared total of three followed by three non-total
/// fragments, all tagged with one strictly newer frame, completes and
/// publishes exactly those three pieces for that frame.
pub proof fn lemma_assembly_happy_path(
    v0: AsmView,
    f: u32,
    p1: WorldPiece,
    p2: WorldPiece,
    p3: WorldPiece,
)
    requires
        v0.frame < f,
        !(p1 is Total),
        !(p2 is Total),
        !(p3 is Total),
    ensures
        ({
            let v1 = spec_ingest(v0, f, WorldPiece::Total(3));
            let v2 = spec_ingest(v1, f, p1);
            let v3 = spec_ingest(v2, f, p2);
            let v4 = spec_ingest(v3, f, p3);
            v4.snapshot == Some((f, seq![p1, p2, p3]))
        }),
{
    let v1 = spec_ingest(v0, f, WorldPiece::Total(3));
    let v2 = spec_ingest(v1, f, p1);
    let v3 = spec_ingest(v2, f, p2);
    let v4 = spec_ingest(v3, f, p3);
    assert(Seq::<WorldPiece>::empty().push(p1).push(p2).push(p3) =~= seq![p1, p2, p3]);
}

/// Newer-frame preemption: after a partial accumulation (two of three
/// declared pieces), one fragment of a strictly newer frame discards the
/// partial set, begins the new frame, and leaves the snapshot exactly as
/// it was.
pub proof fn lemma_newer_frame_preempts(
    v0: AsmView,
    f: u32,
    p1: WorldPiece,
    p2: WorldPiece,
    g: u32,
    q: WorldPiece,
)
    requires
        v0.frame < f,
        f < g,
        !(p1 is Total),
        !(p2 is Total),
        !(q is Total),
    ensures
        ({
            let v1 = spec_ingest(v0, f, WorldPiece::Total(3));
            let v2 = spec_ingest(v1, f, p1);
            let v3 = spec_ingest(v2, f, p2);
            let v4 = spec_ingest(v3, g, q);
            &&& v4.frame == g
            &&& v4.total is None
            &&& v4.pieces == seq![q]
            &&& v4.snapshot == v0.snapshot
        }),
{
    let v3 = spec_ingest(
        spec_ingest(spec_ingest(v0, f, WorldPiece::Total(3)), f, p1),
        f,
        p2,
    );
    let v4 = spec_ingest(v3, g, q);
    assert(Seq::<WorldPiece>::empty().push(q) =~= seq![q]);
}

/// The snapshot changes only at the moment a frame completes, and then
/// to exactly that frame's accumulated piece set; an ingest that leaves
/// the accumulation incomplete leaves the snapshot untouched.
pub proof fn lemma_snapshot_changes_only_on_completion(v: AsmView, f: u32, p: WorldPiece)
    ensures
        ({
            let v2 = spec_ingest(v, f, p);
            ||| v2.snapshot == v.snapshot
            ||| (spec_complete(v2.total, v2.pieces) && v2.snapshot == Some((v2.frame, v2.pieces)))
        }),
{
}

/// Stale-fragment rejection: a fragment tagged with a strictly older
/// frame than the one accumulating changes nothing at all.
pub proof fn lemma_stale_fragment_ignored(v: AsmView, f: u32, p: WorldPiece)
    requires
        f < v.frame,
    ensures
        spec_ingest(v, f, p) == v,
{
}

} // verus!
