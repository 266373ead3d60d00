//! The mesh topology store: three entity tables (vertices, edges, faces) keyed
//! by allocator-issued identifiers, kept mutually consistent, with the graph
//! queries built on top.
//!
//! Modeled after winged-edge/half-edge mesh designs (such as Blender's BMesh):
//! the store tracks who is adjacent to whom, so that higher layers can build
//! modeling operators without re-deriving adjacency from raw geometry.

use std::collections::HashMap;
use vstd::prelude::*;

use crate::key::Key;
use crate::rangeset::{Range, RangeSet};

verus! {

broadcast use crate::key::lemma_key_injective;

/// Marker for vertex keys.
#[derive(Clone, Copy, Debug)]
pub struct VKeyMarker;

/// Marker for edge keys.
#[derive(Clone, Copy, Debug)]
pub struct EKeyMarker;

/// Marker for face keys.
#[derive(Clone, Copy, Debug)]
pub struct FKeyMarker;

pub type VKey = Key<VKeyMarker>;

pub type EKey = Key<EKeyMarker>;

pub type FKey = Key<FKeyMarker>;

pub type FaceLen = u32;

/// A topology node: an opaque caller payload plus the unordered list of
/// incident edges (no duplicates).
pub struct Vert<VData> {
    pub vdata: VData,
    edges: Vec<EKey>,
}

impl<VData> Vert<VData> {
    /// The incident-edge list.
    pub closed spec fn spec_edges(self) -> Seq<EKey> {
        self.edges@
    }

    fn new(vdata: VData) -> (v: Vert<VData>)
        ensures
            v.vdata == vdata,
            v.spec_edges() == Seq::<EKey>::empty(),
    {
        Vert { vdata, edges: Vec::new() }
    }

    /// Check if the edge is in the set of edges adjacent to this vert.
    pub fn is_edge_adjacent(&self, ek: EKey) -> (r: bool)
        ensures
            r == self.spec_edges().contains(ek),
    {
        let mut i: usize = 0;
        while i < self.edges.len()
            invariant
                i <= self.edges@.len(),
                forall|j: int| 0 <= j < i ==> self.edges@[j] != ek,
            decreases self.edges@.len() - i,
        {
            if self.edges[i] == ek {
                return true;
            }
            i += 1;
        }
        false
    }

    pub fn get_edges(&self) -> (r: &Vec<EKey>)
        ensures
            r@ == self.spec_edges(),
    {
        &self.edges
    }

    /// Add edge to the set of edges adjacent to the vert. Does nothing if the
    /// edge is already in the set.
    fn push_edge(&mut self, ek: EKey)
        ensures
            old(self).spec_edges().contains(ek) ==> *final(self) == *old(self),
            !old(self).spec_edges().contains(ek) ==> {
                &&& final(self).spec_edges() == old(self).spec_edges().push(ek)
                &&& final(self).vdata == old(self).vdata
            },
    {
        if !self.is_edge_adjacent(ek) {
            self.edges.push(ek);
        }
    }
}

/// A topology link between exactly two distinct vertices: an opaque caller
/// payload, the vertex pair, and the unordered list of incident faces.
pub struct Edge<EData> {
    pub edata: EData,
    verts: [VKey; 2],
    faces: Vec<FKey>,
}

impl<EData> Edge<EData> {
    /// The two incident vertices, in storage order.
    pub closed spec fn spec_verts(self) -> (VKey, VKey) {
        (self.verts[0], self.verts[1])
    }

    /// The incident-face list.
    pub closed spec fn spec_faces(self) -> Seq<FKey> {
        self.faces@
    }

    fn new(vk0: VKey, vk1: VKey, edata: EData) -> (e: Edge<EData>)
        ensures
            e.spec_verts() == (vk0, vk1),
            e.spec_faces() == Seq::<FKey>::empty(),
            e.edata == edata,
    {
        Edge { edata, verts: [vk0, vk1], faces: Vec::new() }
    }

    /// Check if the vert is one of the two verts adjacent to this edge.
    fn is_vert_adjacent(&self, vk: VKey) -> (r: bool)
        ensures
            r == (self.spec_verts().0 == vk || self.spec_verts().1 == vk),
    {
        self.verts[0] == vk || self.verts[1] == vk
    }

    /// Check if the face is in the set of faces adjacent to this edge.
    pub fn is_face_adjacent(&self, fk: FKey) -> (r: bool)
        ensures
            r == self.spec_faces().contains(fk),
    {
        let mut i: usize = 0;
        while i < self.faces.len()
            invariant
                i <= self.faces@.len(),
                forall|j: int| 0 <= j < i ==> self.faces@[j] != fk,
            decreases self.faces@.len() - i,
        {
            if self.faces[i] == fk {
                return true;
            }
            i += 1;
        }
        false
    }

    pub fn get_verts(&self) -> (r: &[VKey; 2])
        ensures
            r@[0] == self.spec_verts().0,
            r@[1] == self.spec_verts().1,
    {
        &self.verts
    }

    pub fn get_faces(&self) -> (r: &Vec<FKey>)
        ensures
            r@ == self.spec_faces(),
    {
        &self.faces
    }

    /// Given one of the edge's verts, return the other one. If the input is
    /// not one of the edge's verts, return None.
    pub fn other_vert(&self, vk: VKey) -> (r: Option<VKey>)
        ensures
            match r {
                Some(o) => (self.spec_verts().0 == vk && o == self.spec_verts().1) || (
                self.spec_verts().1 == vk && o == self.spec_verts().0),
                None => self.spec_verts().0 != vk && self.spec_verts().1 != vk,
            },
    {
        if self.verts[0] == vk {
            Some(self.verts[1])
        } else if self.verts[1] == vk {
            Some(self.verts[0])
        } else {
            None
        }
    }

    /// Add face to the set of faces adjacent to the edge. Does nothing if the
    /// face is already in the set.
    fn push_face(&mut self, fk: FKey)
        ensures
            old(self).spec_faces().contains(fk) ==> *final(self) == *old(self),
            !old(self).spec_faces().contains(fk) ==> {
                &&& final(self).spec_faces() == old(self).spec_faces().push(fk)
                &&& final(self).edata == old(self).edata
                &&& final(self).spec_verts() == old(self).spec_verts()
            },
    {
        if !self.is_face_adjacent(fk) {
            self.faces.push(fk);
        }
    }

    /// Drop the face from the set of faces adjacent to the edge, if present.
    fn remove_face(&mut self, fk: FKey)
        requires
            old(self).spec_faces().no_duplicates(),
        ensures
            forall|g: FKey|
                final(self).spec_faces().contains(g) <==> (old(self).spec_faces().contains(g) && g
                    != fk),
            final(self).spec_faces().no_duplicates(),
            final(self).edata == old(self).edata,
            final(self).spec_verts() == old(self).spec_verts(),
    {
        let ghost old_fs = self.faces@;
        let mut i: usize = 0;
        while i < self.faces.len()
            invariant
                *self == *old(self),
                old_fs == self.faces@,
                old_fs.no_duplicates(),
                i <= self.faces@.len(),
                forall|j: int| 0 <= j < i ==> self.faces@[j] != fk,
            decreases self.faces@.len() - i,
        {
            if self.faces[i] == fk {
                self.faces.remove(i);
                proof {
                    let new_fs = self.faces@;
                    old_fs.remove_ensures(i as int);
                    assert(forall|j: int| 0 <= j < i ==> new_fs[j] == old_fs[j]);
                    assert(forall|j: int|
                        i <= j < new_fs.len() ==> (#[trigger] new_fs[j]) == old_fs[j + 1]);
                    assert forall|j: int| 0 <= j < old_fs.len() && j != i implies old_fs[j]
                        != fk by {
                        assert(old_fs[i as int] == fk);
                    }
                    assert forall|g: FKey|
                        new_fs.contains(g) <==> (old_fs.contains(g) && g != fk) by {
                        if new_fs.contains(g) {
                            let j = choose|j: int| 0 <= j < new_fs.len() && new_fs[j] == g;
                            if j < i {
                                assert(old_fs[j] == g);
                            } else {
                                assert(old_fs[j + 1] == g);
                            }
                        }
                        if old_fs.contains(g) && g != fk {
                            let j = choose|j: int| 0 <= j < old_fs.len() && old_fs[j] == g;
                            if j < i {
                                assert(new_fs[j] == g);
                            } else {
                                assert(new_fs[j - 1] == g);
                            }
                            assert(new_fs.contains(g));
                        }
                    }
                    assert forall|j: int, k: int|
                        0 <= j < k < new_fs.len() implies new_fs[j] != new_fs[k] by {
                        if k < i {
                            assert(old_fs[j] != old_fs[k]);
                        } else if j < i {
                            assert(old_fs[j] != old_fs[k + 1]);
                        } else {
                            assert(old_fs[j + 1] != old_fs[k + 1]);
                        }
                    }
                }
                return ;
            }
            i += 1;
        }
    }
}

/// One boundary-walk step of a face: a vertex and the edge connecting it to
/// the next vertex in the walk.
#[derive(Clone, Copy, Debug)]
pub struct Loop {
    pub vert: VKey,
    pub edge: EKey,
}

/// A closed boundary walk over vertices and edges, plus an opaque payload.
pub struct Face<FData> {
    pub fdata: FData,
    loops: Vec<Loop>,
}

impl<FData> Face<FData> {
    /// The ordered loop sequence of the boundary walk.
    pub closed spec fn spec_loops(self) -> Seq<Loop> {
        self.loops@
    }

    fn new(loops: Vec<Loop>, fdata: FData) -> (f: Face<FData>)
        ensures
            f.spec_loops() == loops@,
            f.fdata == fdata,
    {
        Face { fdata, loops }
    }

    pub fn get_loops(&self) -> (r: &Vec<Loop>)
        ensures
            r@ == self.spec_loops(),
    {
        &self.loops
    }
}

/// A fresh allocator over the whole identifier space `[0, 0xffff_fffe]`; the
/// value `0xffff_ffff` stays reserved as the invalid sentinel.
fn new_key_range_set() -> (rs: RangeSet)
    ensures
        rs.wf(),
        forall|v: u32| rs.avail().contains(v) <==> v <= 0xffff_fffeu32,
{
    RangeSet::new(Range::new(0, 0xffff_ffff - 1))
}

/// The allocator state matches its table: an identifier is available exactly
/// when no entity of the table carries it, and issued identifiers stay inside
/// `[0, 0xffff_fffe]`.
spec fn kind_alloc_inv<V>(table: Map<u32, V>, rs: RangeSet) -> bool {
    &&& rs.wf()
    &&& forall|v: u32|
        #[trigger] rs.avail().contains(v) ==> v <= 0xffff_fffeu32 && !table.dom().contains(v)
    &&& forall|v: u32| #[trigger] table.dom().contains(v) ==> v <= 0xffff_fffeu32
    &&& forall|v: u32|
        v <= 0xffff_fffeu32 && !(#[trigger] table.dom().contains(v)) ==> rs.avail().contains(v)
}

/// Pushing onto a sequence: membership grows by exactly the new element, and
/// freshness preserves distinctness.
proof fn lemma_seq_push<T>(s: Seq<T>, x: T)
    ensures
        forall|y: T| #[trigger] s.push(x).contains(y) <==> (s.contains(y) || y == x),
        s.no_duplicates() && !s.contains(x) ==> s.push(x).no_duplicates(),
{
    assert forall|y: T| #[trigger] s.push(x).contains(y) <==> (s.contains(y) || y == x) by {
        if s.push(x).contains(y) {
            let j = choose|j: int| 0 <= j < s.push(x).len() && s.push(x)[j] == y;
            if j < s.len() {
                assert(s[j] == y);
            }
        }
        if s.contains(y) {
            let j = choose|j: int| 0 <= j < s.len() && s[j] == y;
            assert(s.push(x)[j] == y);
        }
        if y == x {
            assert(s.push(x)[s.len() as int] == x);
        }
    }
    if s.no_duplicates() && !s.contains(x) {
        assert forall|j: int, k: int|
            0 <= j < k < s.push(x).len() implies s.push(x)[j] != s.push(x)[k] by {
            if k < s.len() {
                assert(s[j] != s[k]);
            } else {
                assert(s.push(x)[k] == x);
                assert(s.push(x)[j] == s[j]);
                if s[j] == x {
                    assert(s.contains(x));
                    assert(false);
                }
            }
        }
    }
}

/// Linear membership scan over a vector of keys.
fn key_vec_contains<T>(v: &Vec<Key<T>>, k: Key<T>) -> (r: bool)
    ensures
        r == v@.contains(k),
{
    let mut i: usize = 0;
    while i < v.len()
        invariant
            i <= v@.len(),
            forall|j: int| 0 <= j < i ==> v@[j] != k,
        decreases v@.len() - i,
    {
        if v[i] == k {
            return true;
        }
        i += 1;
    }
    false
}

/// Dropping every occurrence of a key from a vector of keys.
fn key_vec_remove_all<T>(v: &mut Vec<Key<T>>, k: Key<T>)
    ensures
        forall|y: Key<T>| #[trigger] final(v)@.contains(y) <==> (old(v)@.contains(y) && y != k),
        final(v)@.len() <= old(v)@.len(),
        old(v)@.contains(k) ==> final(v)@.len() < old(v)@.len(),
{
    let mut kept: Vec<Key<T>> = Vec::new();
    let mut i: usize = 0;
    while i < v.len()
        invariant
            *v == *old(v),
            i <= v@.len(),
            kept@.len() <= i,
            (exists|jj: int| 0 <= jj < i && (#[trigger] v@[jj]) == k) ==> kept@.len() < i,
            forall|y: Key<T>|
                #[trigger] kept@.contains(y) <==> ((exists|jj: int|
                    0 <= jj < i && (#[trigger] v@[jj]) == y) && y != k),
        decreases v@.len() - i,
    {
        let x = v[i];
        if !(x == k) {
            let ghost kept_old = kept@;
            kept.push(x);
            proof {
                lemma_seq_push(kept_old, x);
                assert forall|y: Key<T>|
                    #[trigger] kept@.contains(y) <==> ((exists|jj: int|
                        0 <= jj < i + 1 && (#[trigger] v@[jj]) == y) && y != k) by {
                    if y == x {
                        assert(v@[i as int] == y);
                    } else {
                        assert(kept@.contains(y) == kept_old.contains(y));
                        if (exists|jj: int| 0 <= jj < i + 1 && (#[trigger] v@[jj]) == y) && y
                            != k {
                            let jj = choose|jj: int| 0 <= jj < i + 1 && (#[trigger] v@[jj]) == y;
                            assert(jj < i);
                        }
                    }
                }
            }
        } else {
            proof {
                assert(v@[i as int] == k);
                assert forall|y: Key<T>|
                    #[trigger] kept@.contains(y) <==> ((exists|jj: int|
                        0 <= jj < i + 1 && (#[trigger] v@[jj]) == y) && y != k) by {
                    if (exists|jj: int| 0 <= jj < i + 1 && (#[trigger] v@[jj]) == y) && y != k {
                        let jj = choose|jj: int| 0 <= jj < i + 1 && (#[trigger] v@[jj]) == y;
                        assert(jj < i);
                    }
                }
            }
        }
        i += 1;
    }
    proof {
        assert forall|y: Key<T>|
            #[trigger] kept@.contains(y) <==> (v@.contains(y) && y != k) by {
            if v@.contains(y) && y != k {
                let jj = choose|jj: int| 0 <= jj < v@.len() && v@[jj] == y;
                assert(0 <= jj < v@.len() && v@[jj] == y);
            }
        }
        if v@.contains(k) {
            let jj = choose|jj: int| 0 <= jj < v@.len() && v@[jj] == k;
            assert(0 <= jj < v@.len() && v@[jj] == k);
        }
    }
    *v = kept;
}

/// Issuing an available identifier and storing an entity under it keeps the
/// allocator invariant.
proof fn lemma_alloc_take<V>(
    pre_t: Map<u32, V>,
    post_t: Map<u32, V>,
    pre_rs: RangeSet,
    post_rs: RangeSet,
    val: u32,
    nv: V,
)
    requires
        kind_alloc_inv(pre_t, pre_rs),
        post_t == pre_t.insert(val, nv),
        pre_rs.avail().contains(val),
        post_rs.wf(),
        forall|w: u32|
            #[trigger] post_rs.avail().contains(w) <==> (pre_rs.avail().contains(w) && w != val),
    ensures
        kind_alloc_inv(post_t, post_rs),
{
    assert forall|v: u32| #[trigger]
        post_rs.avail().contains(v) implies v <= 0xffff_fffeu32 && !post_t.dom().contains(v) by {
        assert(pre_rs.avail().contains(v));
    }
    assert forall|v: u32| #[trigger] post_t.dom().contains(v) implies v <= 0xffff_fffeu32 by {
        if v != val {
            assert(pre_t.dom().contains(v));
        }
    }
    assert forall|v: u32|
        v <= 0xffff_fffeu32 && !(#[trigger] post_t.dom().contains(
            v,
        )) implies post_rs.avail().contains(v) by {
        assert(v != val);
        assert(!pre_t.dom().contains(v));
    }
}

/// The allocator invariant depends only on the table's key set: a table with
/// the same domain satisfies it with the same allocator.
proof fn lemma_alloc_same_dom<V>(pre_t: Map<u32, V>, post_t: Map<u32, V>, rs: RangeSet)
    requires
        kind_alloc_inv(pre_t, rs),
        post_t.dom() == pre_t.dom(),
    ensures
        kind_alloc_inv(post_t, rs),
{
    assert forall|v: u32| #[trigger]
        rs.avail().contains(v) implies v <= 0xffff_fffeu32 && !post_t.dom().contains(v) by {
        assert(!pre_t.dom().contains(v));
    }
    assert forall|v: u32| #[trigger] post_t.dom().contains(v) implies v <= 0xffff_fffeu32 by {
        assert(pre_t.dom().contains(v));
    }
    assert forall|v: u32|
        v <= 0xffff_fffeu32 && !(#[trigger] post_t.dom().contains(
            v,
        )) implies rs.avail().contains(v) by {
        assert(!pre_t.dom().contains(v));
    }
}

/// Removing an entity and releasing its identifier keeps the allocator
/// invariant.
proof fn lemma_alloc_release<V>(
    pre_t: Map<u32, V>,
    post_t: Map<u32, V>,
    pre_rs: RangeSet,
    post_rs: RangeSet,
    val: u32,
)
    requires
        kind_alloc_inv(pre_t, pre_rs),
        post_t == pre_t.remove(val),
        pre_t.dom().contains(val),
        post_rs.wf(),
        forall|w: u32|
            #[trigger] post_rs.avail().contains(w) <==> (pre_rs.avail().contains(w) || w == val),
    ensures
        kind_alloc_inv(post_t, post_rs),
{
    assert forall|v: u32| #[trigger]
        post_rs.avail().contains(v) implies v <= 0xffff_fffeu32 && !post_t.dom().contains(v) by {
        if v != val {
            assert(pre_rs.avail().contains(v));
        }
    }
    assert forall|v: u32| #[trigger] post_t.dom().contains(v) implies v <= 0xffff_fffeu32 by {
        assert(pre_t.dom().contains(v));
    }
    assert forall|v: u32|
        v <= 0xffff_fffeu32 && !(#[trigger] post_t.dom().contains(
            v,
        )) implies post_rs.avail().contains(v) by {
        if v != val {
            assert(!pre_t.dom().contains(v));
        }
    }
}

/// Editable mesh with persistent adjacency data: three entity tables plus one
/// key allocator per entity kind.
pub struct Mesh<VData, EData, FData> {
    verts: HashMap<u32, Vert<VData>>,
    edges: HashMap<u32, Edge<EData>>,
    faces: HashMap<u32, Face<FData>>,
    vert_range_set: RangeSet,
    edge_range_set: RangeSet,
    face_range_set: RangeSet,
}

impl<VData: Clone, EData: Clone, FData: Clone> Mesh<VData, EData, FData> {
    /// Whether a vertex with this key is present.
    pub closed spec fn has_vert(self, vk: VKey) -> bool {
        self.verts@.dom().contains(vk@)
    }

    /// The vertex entity stored under `vk`.
    pub closed spec fn vert_at(self, vk: VKey) -> Vert<VData>
        recommends
            self.has_vert(vk),
    {
        self.verts@[vk@]
    }

    /// The payload of the vertex stored under `vk`.
    pub closed spec fn vert_data(self, vk: VKey) -> VData
        recommends
            self.has_vert(vk),
    {
        self.verts@[vk@].vdata
    }

    /// The payload of the edge stored under `ek`.
    pub closed spec fn edge_data(self, ek: EKey) -> EData
        recommends
            self.has_edge(ek),
    {
        self.edges@[ek@].edata
    }

    /// The payload of the face stored under `fk`.
    pub closed spec fn face_data(self, fk: FKey) -> FData
        recommends
            self.has_face(fk),
    {
        self.faces@[fk@].fdata
    }

    /// The incident-edge list of `vk`; empty when `vk` is absent.
    pub open spec fn vert_edges(self, vk: VKey) -> Seq<EKey> {
        if self.has_vert(vk) {
            self.vert_at(vk).spec_edges()
        } else {
            Seq::<EKey>::empty()
        }
    }

    /// Whether an edge with this key is present.
    pub closed spec fn has_edge(self, ek: EKey) -> bool {
        self.edges@.dom().contains(ek@)
    }

    /// The edge entity stored under `ek`.
    pub closed spec fn edge_at(self, ek: EKey) -> Edge<EData>
        recommends
            self.has_edge(ek),
    {
        self.edges@[ek@]
    }

    /// The vertex pair of `ek`, in storage order.
    pub open spec fn edge_verts(self, ek: EKey) -> (VKey, VKey)
        recommends
            self.has_edge(ek),
    {
        self.edge_at(ek).spec_verts()
    }

    /// The incident-face list of `ek`; empty when `ek` is absent.
    pub open spec fn edge_faces(self, ek: EKey) -> Seq<FKey> {
        if self.has_edge(ek) {
            self.edge_at(ek).spec_faces()
        } else {
            Seq::<FKey>::empty()
        }
    }

    /// Whether a face with this key is present.
    pub closed spec fn has_face(self, fk: FKey) -> bool {
        self.faces@.dom().contains(fk@)
    }

    /// The face entity stored under `fk`.
    pub closed spec fn face_at(self, fk: FKey) -> Face<FData>
        recommends
            self.has_face(fk),
    {
        self.faces@[fk@]
    }

    /// The loop sequence of `fk`; empty when `fk` is absent.
    pub open spec fn face_loops(self, fk: FKey) -> Seq<Loop> {
        if self.has_face(fk) {
            self.face_at(fk).spec_loops()
        } else {
            Seq::<Loop>::empty()
        }
    }

    /// The edge `ek` is present and joins exactly the unordered pair
    /// `{va, vb}`.
    pub open spec fn edge_connects(self, ek: EKey, va: VKey, vb: VKey) -> bool {
        &&& self.has_edge(ek)
        &&& ((self.edge_verts(ek).0 == va && self.edge_verts(ek).1 == vb) || (self.edge_verts(
            ek,
        ).0 == vb && self.edge_verts(ek).1 == va))
    }

    /// The edge `ek` is present and has `vk` as one of its two vertices.
    pub open spec fn edge_touches(self, ek: EKey, vk: VKey) -> bool {
        &&& self.has_edge(ek)
        &&& (self.edge_verts(ek).0 == vk || self.edge_verts(ek).1 == vk)
    }

    /// Some loop of face `fk` rides the edge `ek`.
    pub open spec fn face_uses_edge(self, fk: FKey, ek: EKey) -> bool {
        exists|i: int|
            0 <= i < self.face_loops(fk).len() && (#[trigger] self.face_loops(fk)[i]).edge == ek
    }

    /// The index following `i` in a cyclic walk of length `n`.
    pub open spec fn next_in_walk(i: int, n: int) -> int {
        if i + 1 == n {
            0
        } else {
            i + 1
        }
    }

    /// The topological invariant: adjacency lists are mutually consistent.
    pub open spec fn topo_inv(self) -> bool {
        // every edge joins two distinct present vertices, and both list it
        &&& forall|ek: EKey| #[trigger]
            self.has_edge(ek) ==> {
                &&& self.edge_verts(ek).0 != self.edge_verts(ek).1
                &&& self.has_vert(self.edge_verts(ek).0)
                &&& self.has_vert(self.edge_verts(ek).1)
                &&& self.vert_edges(self.edge_verts(ek).0).contains(ek)
                &&& self.vert_edges(self.edge_verts(ek).1).contains(ek)
            }
            // a vertex lists only present edges that touch it
        &&& forall|vk: VKey, ek: EKey| #[trigger]
            self.vert_edges(vk).contains(ek) ==> self.edge_touches(ek, vk)
        &&& forall|vk: VKey|
            self.has_vert(vk) ==> (#[trigger] self.vert_edges(vk)).no_duplicates()
            // at most one edge joins any unordered vertex pair
        &&& forall|e1: EKey, e2: EKey|
            #![trigger self.has_edge(e1), self.has_edge(e2)]
            self.has_edge(e1) && self.has_edge(e2) && self.edge_connects(
                e2,
                self.edge_verts(e1).0,
                self.edge_verts(e1).1,
            ) ==> e1 == e2
            // each loop step rides an edge to the next vertex of the walk, and
            // that edge lists the face
        &&& forall|fk: FKey| #[trigger]
            self.has_face(fk) ==> {
                forall|i: int|
                    0 <= i < self.face_loops(fk).len() ==> {
                        &&& self.has_vert((#[trigger] self.face_loops(fk)[i]).vert)
                        &&& self.edge_connects(
                            self.face_loops(fk)[i].edge,
                            self.face_loops(fk)[i].vert,
                            self.face_loops(fk)[Self::next_in_walk(
                                i,
                                self.face_loops(fk).len() as int,
                            )].vert,
                        )
                        &&& self.edge_faces(self.face_loops(fk)[i].edge).contains(fk)
                    }
            }
            // an edge lists only present faces that ride it
        &&& forall|ek: EKey, fk: FKey| #[trigger]
            self.edge_faces(ek).contains(fk) ==> self.has_face(fk) && self.face_uses_edge(fk, ek)
        &&& forall|ek: EKey|
            self.has_edge(ek) ==> (#[trigger] self.edge_faces(ek)).no_duplicates()
    }

    /// The allocator invariant, per entity kind.
    pub closed spec fn alloc_inv(self) -> bool {
        &&& kind_alloc_inv(self.verts@, self.vert_range_set)
        &&& kind_alloc_inv(self.edges@, self.edge_range_set)
        &&& kind_alloc_inv(self.faces@, self.face_range_set)
    }

    /// The full invariant of a mesh; established by `new` and kept by every
    /// operation.
    pub open spec fn inv(self) -> bool {
        &&& self.topo_inv()
        &&& self.alloc_inv()
    }

    /// No vertex key is left to issue: every identifier of the key space
    /// names a present vertex.
    pub open spec fn vert_keys_exhausted(self) -> bool {
        forall|w: VKey| w@ <= 0xffff_fffeu32 ==> self.has_vert(w)
    }

    /// No edge key is left to issue.
    pub open spec fn edge_keys_exhausted(self) -> bool {
        forall|w: EKey| w@ <= 0xffff_fffeu32 ==> self.has_edge(w)
    }

    /// No face key is left to issue.
    pub open spec fn face_keys_exhausted(self) -> bool {
        forall|w: FKey| w@ <= 0xffff_fffeu32 ==> self.has_face(w)
    }

    /// The vertex table is unchanged between `pre` and `post`.
    pub open spec fn same_verts(pre: Self, post: Self) -> bool {
        &&& forall|vk: VKey| (#[trigger] post.has_vert(vk)) == pre.has_vert(vk)
        &&& forall|vk: VKey|
            pre.has_vert(vk) ==> (#[trigger] post.vert_at(vk)) == pre.vert_at(vk)
    }

    /// The edge table is unchanged between `pre` and `post`.
    pub open spec fn same_edges(pre: Self, post: Self) -> bool {
        &&& forall|ek: EKey| (#[trigger] post.has_edge(ek)) == pre.has_edge(ek)
        &&& forall|ek: EKey|
            pre.has_edge(ek) ==> (#[trigger] post.edge_at(ek)) == pre.edge_at(ek)
    }

    /// The face table is unchanged between `pre` and `post`.
    pub open spec fn same_faces(pre: Self, post: Self) -> bool {
        &&& forall|fk: FKey| (#[trigger] post.has_face(fk)) == pre.has_face(fk)
        &&& forall|fk: FKey|
            pre.has_face(fk) ==> (#[trigger] post.face_at(fk)) == pre.face_at(fk)
    }

    proof fn lemma_vert_table_unchanged(pre: Self, post: Self)
        requires
            post.verts@ == pre.verts@,
        ensures
            forall|vk: VKey| (#[trigger] post.has_vert(vk)) == pre.has_vert(vk),
            forall|vk: VKey| (#[trigger] post.vert_at(vk)) == pre.vert_at(vk),
            forall|vk: VKey| (#[trigger] post.vert_edges(vk)) == pre.vert_edges(vk),
            forall|vk: VKey| (#[trigger] post.vert_data(vk)) == pre.vert_data(vk),
            Self::same_verts(pre, post),
    {
    }

    proof fn lemma_edge_table_unchanged(pre: Self, post: Self)
        requires
            post.edges@ == pre.edges@,
        ensures
            forall|ek: EKey| (#[trigger] post.has_edge(ek)) == pre.has_edge(ek),
            forall|ek: EKey| (#[trigger] post.edge_at(ek)) == pre.edge_at(ek),
            forall|ek: EKey| (#[trigger] post.edge_verts(ek)) == pre.edge_verts(ek),
            forall|ek: EKey| (#[trigger] post.edge_faces(ek)) == pre.edge_faces(ek),
            forall|ek: EKey| (#[trigger] post.edge_data(ek)) == pre.edge_data(ek),
            forall|ek: EKey, va: VKey, vb: VKey|
                (#[trigger] post.edge_connects(ek, va, vb)) == pre.edge_connects(ek, va, vb),
            forall|ek: EKey, vk: VKey|
                (#[trigger] post.edge_touches(ek, vk)) == pre.edge_touches(ek, vk),
            Self::same_edges(pre, post),
    {
    }

    proof fn lemma_face_table_unchanged(pre: Self, post: Self)
        requires
            post.faces@ == pre.faces@,
        ensures
            forall|fk: FKey| (#[trigger] post.has_face(fk)) == pre.has_face(fk),
            forall|fk: FKey| (#[trigger] post.face_at(fk)) == pre.face_at(fk),
            forall|fk: FKey| (#[trigger] post.face_loops(fk)) == pre.face_loops(fk),
            forall|fk: FKey| (#[trigger] post.face_data(fk)) == pre.face_data(fk),
            forall|fk: FKey, ek: EKey|
                (#[trigger] post.face_uses_edge(fk, ek)) == pre.face_uses_edge(fk, ek),
            Self::same_faces(pre, post),
    {
        assert forall|fk: FKey, ek: EKey|
            (#[trigger] post.face_uses_edge(fk, ek)) == pre.face_uses_edge(fk, ek) by {
            assert(post.face_loops(fk) == pre.face_loops(fk));
            if post.face_uses_edge(fk, ek) {
                let i = choose|i: int|
                    0 <= i < post.face_loops(fk).len() && (#[trigger] post.face_loops(fk)[i]).edge
                        == ek;
                assert(0 <= i < pre.face_loops(fk).len() && pre.face_loops(fk)[i].edge == ek);
            }
            if pre.face_uses_edge(fk, ek) {
                let i = choose|i: int|
                    0 <= i < pre.face_loops(fk).len() && (#[trigger] pre.face_loops(fk)[i]).edge
                        == ek;
                assert(0 <= i < post.face_loops(fk).len() && post.face_loops(fk)[i].edge == ek);
            }
        }
    }

    proof fn lemma_vert_table_insert(pre: Self, post: Self, val: u32, nv: Vert<VData>)
        requires
            post.verts@ == pre.verts@.insert(val, nv),
        ensures
            forall|vk: VKey| vk@ != val ==> (#[trigger] post.has_vert(vk)) == pre.has_vert(vk),
            forall|vk: VKey| vk@ != val ==> (#[trigger] post.vert_at(vk)) == pre.vert_at(vk),
            forall|vk: VKey|
                vk@ != val ==> (#[trigger] post.vert_edges(vk)) == pre.vert_edges(vk),
            forall|vk: VKey|
                vk@ != val ==> (#[trigger] post.vert_data(vk)) == pre.vert_data(vk),
            forall|vk: VKey| vk@ == val ==> post.has_vert(vk) && post.vert_at(vk) == nv,
    {
    }

    proof fn lemma_edge_table_insert(pre: Self, post: Self, val: u32, ne: Edge<EData>)
        requires
            post.edges@ == pre.edges@.insert(val, ne),
        ensures
            forall|ek: EKey| ek@ != val ==> (#[trigger] post.has_edge(ek)) == pre.has_edge(ek),
            forall|ek: EKey| ek@ != val ==> (#[trigger] post.edge_at(ek)) == pre.edge_at(ek),
            forall|ek: EKey|
                ek@ != val ==> (#[trigger] post.edge_verts(ek)) == pre.edge_verts(ek),
            forall|ek: EKey|
                ek@ != val ==> (#[trigger] post.edge_faces(ek)) == pre.edge_faces(ek),
            forall|ek: EKey|
                ek@ != val ==> (#[trigger] post.edge_data(ek)) == pre.edge_data(ek),
            forall|ek: EKey| ek@ == val ==> post.has_edge(ek) && post.edge_at(ek) == ne,
    {
    }

    proof fn lemma_face_table_insert(pre: Self, post: Self, val: u32, nf: Face<FData>)
        requires
            post.faces@ == pre.faces@.insert(val, nf),
        ensures
            forall|fk: FKey| fk@ != val ==> (#[trigger] post.has_face(fk)) == pre.has_face(fk),
            forall|fk: FKey| fk@ != val ==> (#[trigger] post.face_at(fk)) == pre.face_at(fk),
            forall|fk: FKey|
                fk@ != val ==> (#[trigger] post.face_loops(fk)) == pre.face_loops(fk),
            forall|fk: FKey|
                fk@ != val ==> (#[trigger] post.face_data(fk)) == pre.face_data(fk),
            forall|fk: FKey| fk@ == val ==> post.has_face(fk) && post.face_at(fk) == nf,
    {
    }

    /// Adding an isolated vertex under a fresh identifier keeps the
    /// topological invariant.
    proof fn lemma_topo_inv_add_isolated_vert(pre: Self, post: Self, val: u32, nv: Vert<VData>)
        requires
            pre.topo_inv(),
            post.verts@ == pre.verts@.insert(val, nv),
            !pre.verts@.dom().contains(val),
            nv.spec_edges() == Seq::<EKey>::empty(),
            post.edges@ == pre.edges@,
            post.faces@ == pre.faces@,
        ensures
            post.topo_inv(),
    {
        Self::lemma_vert_table_insert(pre, post, val, nv);
        Self::lemma_edge_table_unchanged(pre, post);
        Self::lemma_face_table_unchanged(pre, post);
        assert forall|ek: EKey| #[trigger] post.has_edge(ek) implies {
            &&& post.edge_verts(ek).0 != post.edge_verts(ek).1
            &&& post.has_vert(post.edge_verts(ek).0)
            &&& post.has_vert(post.edge_verts(ek).1)
            &&& post.vert_edges(post.edge_verts(ek).0).contains(ek)
            &&& post.vert_edges(post.edge_verts(ek).1).contains(ek)
        } by {
            assert(pre.has_edge(ek));
            let v0 = pre.edge_verts(ek).0;
            let v1 = pre.edge_verts(ek).1;
            assert(pre.has_vert(v0) && pre.has_vert(v1));
            assert(v0@ != val && v1@ != val);
            assert(post.vert_edges(v0) == pre.vert_edges(v0));
            assert(post.vert_edges(v1) == pre.vert_edges(v1));
            assert(post.edge_verts(ek) == pre.edge_verts(ek));
        }
        assert forall|vk: VKey, ek: EKey| #[trigger]
            post.vert_edges(vk).contains(ek) implies post.edge_touches(ek, vk) by {
            if vk@ == val {
                assert(post.vert_edges(vk) == nv.spec_edges());
            } else {
                assert(pre.vert_edges(vk).contains(ek));
            }
        }
        assert forall|vk: VKey| post.has_vert(vk) implies (#[trigger] post.vert_edges(
            vk,
        )).no_duplicates() by {
            if vk@ == val {
                assert(post.vert_edges(vk) == nv.spec_edges());
            } else {
                assert(post.vert_edges(vk) == pre.vert_edges(vk));
            }
        }
        assert forall|fk: FKey| #[trigger] post.has_face(fk) implies {
            forall|i: int|
                0 <= i < post.face_loops(fk).len() ==> {
                    &&& post.has_vert((#[trigger] post.face_loops(fk)[i]).vert)
                    &&& post.edge_connects(
                        post.face_loops(fk)[i].edge,
                        post.face_loops(fk)[i].vert,
                        post.face_loops(fk)[Self::next_in_walk(
                            i,
                            post.face_loops(fk).len() as int,
                        )].vert,
                    )
                    &&& post.edge_faces(post.face_loops(fk)[i].edge).contains(fk)
                }
        } by {
            assert(pre.has_face(fk));
            assert(post.face_loops(fk) == pre.face_loops(fk));
            assert forall|i: int| 0 <= i < post.face_loops(fk).len() implies {
                &&& post.has_vert((#[trigger] post.face_loops(fk)[i]).vert)
                &&& post.edge_connects(
                    post.face_loops(fk)[i].edge,
                    post.face_loops(fk)[i].vert,
                    post.face_loops(fk)[Self::next_in_walk(
                        i,
                        post.face_loops(fk).len() as int,
                    )].vert,
                )
                &&& post.edge_faces(post.face_loops(fk)[i].edge).contains(fk)
            } by {
                assert(pre.has_vert(pre.face_loops(fk)[i].vert));
                if pre.face_loops(fk)[i].vert@ == val {
                }
            }
        }
    }

    /// A fresh, empty mesh: no entities, every key available.
    pub fn new() -> (m: Mesh<VData, EData, FData>)
        ensures
            m.inv(),
            forall|vk: VKey| !m.has_vert(vk),
            forall|ek: EKey| !m.has_edge(ek),
            forall|fk: FKey| !m.has_face(fk),
    {
        Mesh {
            verts: HashMap::new(),
            edges: HashMap::new(),
            faces: HashMap::new(),
            vert_range_set: new_key_range_set(),
            edge_range_set: new_key_range_set(),
            face_range_set: new_key_range_set(),
        }
    }

    pub fn get_vert(&self, vk: VKey) -> (r: Option<&Vert<VData>>)
        ensures
            match r {
                Some(v) => self.has_vert(vk) && *v == self.vert_at(vk),
                None => !self.has_vert(vk),
            },
    {
        self.verts.get(&vk.value())
    }

    pub fn get_edge(&self, ek: EKey) -> (r: Option<&Edge<EData>>)
        ensures
            match r {
                Some(e) => self.has_edge(ek) && *e == self.edge_at(ek),
                None => !self.has_edge(ek),
            },
    {
        self.edges.get(&ek.value())
    }

    pub fn get_face(&self, fk: FKey) -> (r: Option<&Face<FData>>)
        ensures
            match r {
                Some(f) => self.has_face(fk) && *f == self.face_at(fk),
                None => !self.has_face(fk),
            },
    {
        self.faces.get(&fk.value())
    }

    /// Read access to the payload of the vertex stored under `vk`.
    pub fn get_vert_data(&self, vk: VKey) -> (r: Option<&VData>)
        ensures
            match r {
                Some(d) => self.has_vert(vk) && *d == self.vert_data(vk),
                None => !self.has_vert(vk),
            },
    {
        match self.verts.get(&vk.value()) {
            Some(v) => Some(&v.vdata),
            None => None,
        }
    }

    /// Read access to the payload of the edge stored under `ek`.
    pub fn get_edge_data(&self, ek: EKey) -> (r: Option<&EData>)
        ensures
            match r {
                Some(d) => self.has_edge(ek) && *d == self.edge_data(ek),
                None => !self.has_edge(ek),
            },
    {
        match self.edges.get(&ek.value()) {
            Some(e) => Some(&e.edata),
            None => None,
        }
    }

    /// Read access to the payload of the face stored under `fk`.
    pub fn get_face_data(&self, fk: FKey) -> (r: Option<&FData>)
        ensures
            match r {
                Some(d) => self.has_face(fk) && *d == self.face_data(fk),
                None => !self.has_face(fk),
            },
    {
        match self.faces.get(&fk.value()) {
            Some(f) => Some(&f.fdata),
            None => None,
        }
    }

    /// What `find_edge` reports: a returned edge joins exactly the queried
    /// pair; a `None` answer means no present edge joins it.
    pub open spec fn find_edge_post(m: Self, vk0: VKey, vk1: VKey, r: Option<EKey>) -> bool {
        match r {
            Some(ek) => m.edge_connects(ek, vk0, vk1),
            None => forall|ek: EKey| !(#[trigger] m.edge_connects(ek, vk0, vk1)),
        }
    }

    /// Return the edge between two verts, or None if no such edge exists.
    pub fn find_edge(&self, vk0: VKey, vk1: VKey) -> (r: Option<EKey>)
        requires
            self.inv(),
        ensures
            Self::find_edge_post(*self, vk0, vk1, r),
    {
        let vert = match self.get_vert(vk0) {
            Some(v) => v,
            None => {
                proof {
                    assert forall|ek: EKey| !(#[trigger] self.edge_connects(ek, vk0, vk1)) by {
                        if self.edge_connects(ek, vk0, vk1) {
                            assert(self.has_vert(self.edge_verts(ek).0));
                            assert(self.has_vert(self.edge_verts(ek).1));
                        }
                    }
                }
                return None;
            },
        };
        let edges = vert.get_edges();
        let mut i: usize = 0;
        while i < edges.len()
            invariant
                self.inv(),
                self.has_vert(vk0),
                edges@ == self.vert_edges(vk0),
                i <= edges@.len(),
                forall|j: int| 0 <= j < i ==> !self.edge_connects(edges@[j], vk0, vk1),
            decreases edges@.len() - i,
        {
            let ek = edges[i];
            proof {
                assert(self.vert_edges(vk0).contains(ek));
            }
            let e = self.get_edge(ek).unwrap();
            let evs = e.get_verts();
            if (evs[0] == vk0 && evs[1] == vk1) || (evs[0] == vk1 && evs[1] == vk0) {
                return Some(ek);
            }
            i += 1;
        }
        proof {
            assert forall|ek: EKey| !(#[trigger] self.edge_connects(ek, vk0, vk1)) by {
                if self.edge_connects(ek, vk0, vk1) {
                    assert(self.vert_edges(self.edge_verts(ek).0).contains(ek));
                    assert(self.vert_edges(self.edge_verts(ek).1).contains(ek));
                    assert(self.vert_edges(vk0).contains(ek));
                    let j = choose|j: int|
                        0 <= j < self.vert_edges(vk0).len() && self.vert_edges(vk0)[j] == ek;
                    assert(!self.edge_connects(self.vert_edges(vk0)[j], vk0, vk1));
                }
            }
        }
        None
    }

    /// The face `fk` touches the vertex `vk` through some incident edge.
    pub open spec fn vert_face_adjacent(self, vk: VKey, fk: FKey) -> bool {
        exists|ek: EKey|
            (#[trigger] self.vert_edges(vk).contains(ek)) && self.edge_faces(ek).contains(fk)
    }

    /// The edge `ek` lies on a face adjacent to `vk` without touching `vk`
    /// itself: it is part of the one-ring boundary around `vk`.
    pub open spec fn in_edge_ring(self, vk: VKey, ek: EKey) -> bool {
        &&& !self.edge_touches(ek, vk)
        &&& exists|fk: FKey|
            (#[trigger] self.vert_face_adjacent(vk, fk)) && self.face_uses_edge(fk, ek)
    }

    /// Get all faces adjacent to the specified vertex. The order is
    /// arbitrary; each face appears once.
    pub fn vert_adjacent_faces(&self, vk: VKey) -> (r: Vec<FKey>)
        requires
            self.inv(),
        ensures
            r@.no_duplicates(),
            forall|fk: FKey| #[trigger] r@.contains(fk) <==> self.vert_face_adjacent(vk, fk),
    {
        let mut adj: Vec<FKey> = Vec::new();
        let vert = match self.get_vert(vk) {
            Some(v) => v,
            None => {
                proof {
                    assert forall|fk: FKey| !self.vert_face_adjacent(vk, fk) by {
                        assert(self.vert_edges(vk) == Seq::<EKey>::empty());
                    }
                }
                return adj;
            },
        };
        let edges = vert.get_edges();
        let mut i: usize = 0;
        while i < edges.len()
            invariant
                self.inv(),
                self.has_vert(vk),
                edges@ == self.vert_edges(vk),
                i <= edges@.len(),
                adj@.no_duplicates(),
                forall|fk: FKey|
                    #[trigger] adj@.contains(fk) <==> (exists|jj: int|
                        0 <= jj < i && self.edge_faces(#[trigger] edges@[jj]).contains(fk)),
            decreases edges@.len() - i,
        {
            let ek = edges[i];
            proof {
                assert(self.vert_edges(vk).contains(ek));
                assert(self.edge_touches(ek, vk));
            }
            let e = self.get_edge(ek).unwrap();
            let faces = e.get_faces();
            let mut j: usize = 0;
            while j < faces.len()
                invariant
                    j <= faces@.len(),
                    adj@.no_duplicates(),
                    forall|fk: FKey|
                        #[trigger] adj@.contains(fk) <==> ((exists|jj: int|
                            0 <= jj < i && self.edge_faces(#[trigger] edges@[jj]).contains(fk))
                            || (exists|kk: int| 0 <= kk < j && (#[trigger] faces@[kk]) == fk)),
                decreases faces@.len() - j,
            {
                let fk2 = faces[j];
                if !key_vec_contains(&adj, fk2) {
                    let ghost adj_old = adj@;
                    adj.push(fk2);
                    proof {
                        lemma_seq_push(adj_old, fk2);
                        assert forall|fk: FKey|
                            #[trigger] adj@.contains(fk) <==> ((exists|jj: int|
                                0 <= jj < i && self.edge_faces(#[trigger] edges@[jj]).contains(
                                    fk,
                                )) || (exists|kk: int|
                                0 <= kk < j + 1 && (#[trigger] faces@[kk]) == fk)) by {
                            if fk == fk2 {
                                assert(faces@[j as int] == fk);
                            } else {
                                assert(adj@.contains(fk) == adj_old.contains(fk));
                                if exists|kk: int| 0 <= kk < j + 1 && (#[trigger] faces@[kk])
                                    == fk {
                                    let kk = choose|kk: int|
                                        0 <= kk < j + 1 && (#[trigger] faces@[kk]) == fk;
                                    assert(kk < j);
                                }
                            }
                        }
                    }
                } else {
                    proof {
                        assert forall|fk: FKey|
                            #[trigger] adj@.contains(fk) <==> ((exists|jj: int|
                                0 <= jj < i && self.edge_faces(#[trigger] edges@[jj]).contains(
                                    fk,
                                )) || (exists|kk: int|
                                0 <= kk < j + 1 && (#[trigger] faces@[kk]) == fk)) by {
                            if fk == fk2 {
                                assert(adj@.contains(fk2));
                            } else if exists|kk: int|
                                0 <= kk < j + 1 && (#[trigger] faces@[kk]) == fk {
                                let kk = choose|kk: int|
                                    0 <= kk < j + 1 && (#[trigger] faces@[kk]) == fk;
                                assert(kk < j);
                            }
                        }
                    }
                }
                j += 1;
            }
            proof {
                assert forall|fk: FKey|
                    #[trigger] adj@.contains(fk) <==> (exists|jj: int|
                        0 <= jj < i + 1 && self.edge_faces(#[trigger] edges@[jj]).contains(
                            fk,
                        )) by {
                    if adj@.contains(fk) {
                        if exists|kk: int|
                            0 <= kk < faces@.len() && (#[trigger] faces@[kk]) == fk {
                            assert(self.edge_faces(edges@[i as int]).contains(fk));
                        }
                    }
                    if exists|jj: int|
                        0 <= jj < i + 1 && self.edge_faces(#[trigger] edges@[jj]).contains(fk) {
                        let jj = choose|jj: int|
                            0 <= jj < i + 1 && self.edge_faces(#[trigger] edges@[jj]).contains(
                                fk,
                            );
                        if jj == i {
                            let kk = choose|kk: int|
                                0 <= kk < faces@.len() && (#[trigger] faces@[kk]) == fk;
                            assert(0 <= kk < faces@.len() && faces@[kk] == fk);
                        }
                    }
                }
            }
            i += 1;
        }
        proof {
            assert forall|fk: FKey|
                #[trigger] adj@.contains(fk) <==> self.vert_face_adjacent(vk, fk) by {
                if adj@.contains(fk) {
                    let jj = choose|jj: int|
                        0 <= jj < edges@.len() && self.edge_faces(
                            #[trigger] edges@[jj],
                        ).contains(fk);
                    assert(self.vert_edges(vk).contains(edges@[jj]));
                }
                if self.vert_face_adjacent(vk, fk) {
                    let ek = choose|ek: EKey|
                        (#[trigger] self.vert_edges(vk).contains(ek)) && self.edge_faces(
                            ek,
                        ).contains(fk);
                    let jj = choose|jj: int|
                        0 <= jj < edges@.len() && edges@[jj] == ek;
                    assert(self.edge_faces(edges@[jj]).contains(fk));
                }
            }
        }
        adj
    }

    /// Get the edges that are one face removed from the specified vertex: the
    /// edges of its adjacent faces that do not touch the vertex itself. The
    /// order is arbitrary; each edge appears once.
    pub fn vert_edge_ring_soup(&self, vk: VKey) -> (r: Vec<EKey>)
        requires
            self.inv(),
        ensures
            r@.no_duplicates(),
            forall|ek: EKey| #[trigger] r@.contains(ek) <==> self.in_edge_ring(vk, ek),
    {
        let mut ring: Vec<EKey> = Vec::new();
        let adj = self.vert_adjacent_faces(vk);
        let mut i: usize = 0;
        while i < adj.len()
            invariant
                self.inv(),
                adj@.no_duplicates(),
                forall|fk: FKey| #[trigger] adj@.contains(fk) <==> self.vert_face_adjacent(vk, fk),
                i <= adj@.len(),
                ring@.no_duplicates(),
                forall|ek: EKey|
                    #[trigger] ring@.contains(ek) <==> (!self.edge_touches(ek, vk) && (exists|
                        ii: int,
                    | 0 <= ii < i && self.face_uses_edge(#[trigger] adj@[ii], ek))),
            decreases adj@.len() - i,
        {
            let fk = adj[i];
            proof {
                assert(adj@.contains(adj@[i as int]));
                assert(self.vert_face_adjacent(vk, fk));
                let we = choose|we: EKey|
                    (#[trigger] self.vert_edges(vk).contains(we)) && self.edge_faces(we).contains(
                        fk,
                    );
                assert(self.edge_faces(we).contains(fk));
                assert(self.has_face(fk));
            }
            let f = self.get_face(fk).unwrap();
            let lps = f.get_loops();
            proof {
                assert forall|kk: int|
                    0 <= kk < lps@.len() implies self.edge_touches(
                    (#[trigger] lps@[kk]).edge,
                    lps@[kk].vert,
                ) by {
                    assert(self.edge_connects(
                        self.face_loops(fk)[kk].edge,
                        self.face_loops(fk)[kk].vert,
                        self.face_loops(fk)[Self::next_in_walk(
                            kk,
                            self.face_loops(fk).len() as int,
                        )].vert,
                    ));
                }
            }
            let mut j: usize = 0;
            while j < lps.len()
                invariant
                    forall|kk: int|
                        0 <= kk < lps@.len() ==> self.edge_touches(
                            (#[trigger] lps@[kk]).edge,
                            lps@[kk].vert,
                        ),
                    j <= lps@.len(),
                    ring@.no_duplicates(),
                    forall|ek: EKey|
                        #[trigger] ring@.contains(ek) <==> (!self.edge_touches(ek, vk) && ((
                        exists|ii: int|
                            0 <= ii < i && self.face_uses_edge(#[trigger] adj@[ii], ek)) || (
                        exists|kk: int| 0 <= kk < j && (#[trigger] lps@[kk]).edge == ek))),
                decreases lps@.len() - j,
            {
                let le = lps[j].edge;
                proof {
                    assert(self.edge_touches(lps@[j as int].edge, lps@[j as int].vert));
                    assert(self.has_edge(le));
                }
                let e = self.get_edge(le).unwrap();
                let touches = e.is_vert_adjacent(vk);
                let ghost ring_old = ring@;
                if !touches && !key_vec_contains(&ring, le) {
                    ring.push(le);
                    proof {
                        lemma_seq_push(ring_old, le);
                    }
                }
                proof {
                    assert forall|ek: EKey|
                        #[trigger] ring@.contains(ek) <==> (!self.edge_touches(ek, vk) && ((
                        exists|ii: int|
                            0 <= ii < i && self.face_uses_edge(#[trigger] adj@[ii], ek)) || (
                        exists|kk: int|
                            0 <= kk < j + 1 && (#[trigger] lps@[kk]).edge == ek))) by {
                        if ek == le {
                            assert(lps@[j as int].edge == ek);
                            if !self.edge_touches(le, vk) {
                                assert(ring@.contains(le));
                            }
                        } else {
                            assert(ring@.contains(ek) == ring_old.contains(ek));
                            if exists|kk: int| 0 <= kk < j + 1 && (#[trigger] lps@[kk]).edge
                                == ek {
                                let kk = choose|kk: int|
                                    0 <= kk < j + 1 && (#[trigger] lps@[kk]).edge == ek;
                                assert(kk < j);
                            }
                        }
                    }
                }
                j += 1;
            }
            proof {
                assert forall|ek: EKey|
                    #[trigger] ring@.contains(ek) <==> (!self.edge_touches(ek, vk) && (exists|
                        ii: int,
                    | 0 <= ii < i + 1 && self.face_uses_edge(#[trigger] adj@[ii], ek))) by {
                    if ring@.contains(ek) {
                        if exists|kk: int| 0 <= kk < lps@.len() && (#[trigger] lps@[kk]).edge
                            == ek {
                            assert(self.face_uses_edge(adj@[i as int], ek)) by {
                                let kk = choose|kk: int|
                                    0 <= kk < lps@.len() && (#[trigger] lps@[kk]).edge == ek;
                                assert(self.face_loops(fk)[kk].edge == ek);
                            }
                        }
                    }
                    if !self.edge_touches(ek, vk) && (exists|ii: int|
                        0 <= ii < i + 1 && self.face_uses_edge(#[trigger] adj@[ii], ek)) {
                        let ii = choose|ii: int|
                            0 <= ii < i + 1 && self.face_uses_edge(#[trigger] adj@[ii], ek);
                        if ii == i {
                            let kk = choose|kk: int|
                                0 <= kk < self.face_loops(fk).len() && (#[trigger] self.face_loops(
                                    fk,
                                )[kk]).edge == ek;
                            assert(lps@[kk].edge == ek);
                        }
                    }
                }
            }
            i += 1;
        }
        proof {
            assert forall|ek: EKey|
                #[trigger] ring@.contains(ek) <==> self.in_edge_ring(vk, ek) by {
                if ring@.contains(ek) {
                    let ii = choose|ii: int|
                        0 <= ii < adj@.len() && self.face_uses_edge(#[trigger] adj@[ii], ek);
                    assert(adj@.contains(adj@[ii]));
                    assert(self.vert_face_adjacent(vk, adj@[ii]));
                }
                if self.in_edge_ring(vk, ek) {
                    let fk = choose|fk: FKey|
                        (#[trigger] self.vert_face_adjacent(vk, fk)) && self.face_uses_edge(
                            fk,
                            ek,
                        );
                    assert(adj@.contains(fk));
                    let ii = choose|ii: int| 0 <= ii < adj@.len() && adj@[ii] == fk;
                    assert(self.face_uses_edge(adj@[ii], ek));
                }
            }
        }
        ring
    }

    /// The two edges are present and have at least one vertex in common.
    pub open spec fn edges_share_vert(self, e1: EKey, e2: EKey) -> bool {
        &&& self.has_edge(e1)
        &&& self.has_edge(e2)
        &&& (self.edge_touches(e2, self.edge_verts(e1).0) || self.edge_touches(
            e2,
            self.edge_verts(e1).1,
        ))
    }

    /// `p` is a chain of edges of `s`, consecutive edges sharing a vertex,
    /// leading from `e1` to `e2`.
    pub open spec fn edge_path_in(self, s: Set<EKey>, p: Seq<EKey>, e1: EKey, e2: EKey) -> bool {
        &&& p.len() > 0
        &&& p[0] == e1
        &&& p[p.len() - 1] == e2
        &&& forall|i: int| 0 <= i < p.len() ==> s.contains(#[trigger] p[i])
        &&& forall|i: int| 0 <= i < p.len() - 1 ==> self.edges_share_vert(#[trigger] p[i], p[i + 1])
    }

    /// Within the edge set `s`, `e1` and `e2` are joined by a path of edges
    /// of `s` through shared vertices.
    pub open spec fn connected_in(self, s: Set<EKey>, e1: EKey, e2: EKey) -> bool {
        exists|p: Seq<EKey>| #[trigger] self.edge_path_in(s, p, e1, e2)
    }

    /// Some edge of `s` joins the vertices `a` and `b`.
    pub open spec fn vert_step_in(self, s: Set<EKey>, a: VKey, b: VKey) -> bool {
        exists|e: EKey| #[trigger] s.contains(e) && self.edge_connects(e, a, b)
    }

    /// Consecutive vertices of `p` are joined by edges of `s`.
    pub open spec fn vert_path_in(self, s: Set<EKey>, p: Seq<VKey>) -> bool {
        forall|i: int| 0 <= i < p.len() - 1 ==> self.vert_step_in(s, #[trigger] p[i], p[i + 1])
    }

    /// Within the edge set `s`, a chain of edges of `s` leads from vertex `a`
    /// to vertex `b`.
    pub open spec fn vert_conn_in(self, s: Set<EKey>, a: VKey, b: VKey) -> bool {
        exists|p: Seq<VKey>|
            {
                &&& #[trigger] self.vert_path_in(s, p)
                &&& p.len() > 0
                &&& p[0] == a
                &&& p[p.len() - 1] == b
            }
    }

    proof fn lemma_vert_conn_refl(self, s: Set<EKey>, a: VKey)
        ensures
            self.vert_conn_in(s, a, a),
    {
        let p = seq![a];
        assert(self.vert_path_in(s, p));
    }

    proof fn lemma_vert_conn_mono(self, s1: Set<EKey>, s2: Set<EKey>, a: VKey, b: VKey)
        requires
            self.vert_conn_in(s1, a, b),
            forall|e: EKey| #[trigger] s1.contains(e) ==> s2.contains(e),
        ensures
            self.vert_conn_in(s2, a, b),
    {
        let p = choose|p: Seq<VKey>|
            {
                &&& #[trigger] self.vert_path_in(s1, p)
                &&& p.len() > 0
                &&& p[0] == a
                &&& p[p.len() - 1] == b
            };
        assert forall|i: int|
            0 <= i < p.len() - 1 implies self.vert_step_in(s2, #[trigger] p[i], p[i + 1]) by {
            assert(self.vert_step_in(s1, p[i], p[i + 1]));
            let e = choose|e: EKey| #[trigger] s1.contains(e) && self.edge_connects(e, p[i], p[i + 1]);
            assert(s2.contains(e) && self.edge_connects(e, p[i], p[i + 1]));
        }
        assert(self.vert_path_in(s2, p));
    }

    proof fn lemma_vert_conn_step(self, s: Set<EKey>, a: VKey, b: VKey, c: VKey, e: EKey)
        requires
            self.vert_conn_in(s, a, b),
            s.contains(e),
            self.edge_connects(e, b, c),
        ensures
            self.vert_conn_in(s, a, c),
    {
        let p = choose|p: Seq<VKey>|
            {
                &&& #[trigger] self.vert_path_in(s, p)
                &&& p.len() > 0
                &&& p[0] == a
                &&& p[p.len() - 1] == b
            };
        let q = p.push(c);
        assert forall|i: int|
            0 <= i < q.len() - 1 implies self.vert_step_in(s, #[trigger] q[i], q[i + 1]) by {
            if i < p.len() - 1 {
                assert(q[i] == p[i] && q[i + 1] == p[i + 1]);
                assert(self.vert_step_in(s, p[i], p[i + 1]));
            } else {
                assert(q[i] == b && q[i + 1] == c);
            }
        }
        assert(self.vert_path_in(s, q));
        assert(q[0] == a && q[q.len() - 1] == c);
    }

    proof fn lemma_vert_conn_sym(self, s: Set<EKey>, a: VKey, b: VKey)
        requires
            self.vert_conn_in(s, a, b),
        ensures
            self.vert_conn_in(s, b, a),
    {
        let p = choose|p: Seq<VKey>|
            {
                &&& #[trigger] self.vert_path_in(s, p)
                &&& p.len() > 0
                &&& p[0] == a
                &&& p[p.len() - 1] == b
            };
        let n = p.len() as int;
        let q = Seq::<VKey>::new(p.len(), |i: int| p[n - 1 - i]);
        assert forall|i: int|
            0 <= i < q.len() - 1 implies self.vert_step_in(s, #[trigger] q[i], q[i + 1]) by {
            assert(self.vert_step_in(s, p[n - 2 - i], p[n - 1 - i]));
            let e = choose|e: EKey|
                #[trigger] s.contains(e) && self.edge_connects(e, p[n - 2 - i], p[n - 1 - i]);
            assert(self.edge_connects(e, q[i], q[i + 1]));
        }
        assert(self.vert_path_in(s, q));
        assert(q[0] == b && q[q.len() - 1] == a);
    }

    proof fn lemma_vert_conn_trans(self, s: Set<EKey>, a: VKey, b: VKey, c: VKey)
        requires
            self.vert_conn_in(s, a, b),
            self.vert_conn_in(s, b, c),
        ensures
            self.vert_conn_in(s, a, c),
    {
        let p1 = choose|p: Seq<VKey>|
            {
                &&& #[trigger] self.vert_path_in(s, p)
                &&& p.len() > 0
                &&& p[0] == a
                &&& p[p.len() - 1] == b
            };
        let p2 = choose|p: Seq<VKey>|
            {
                &&& #[trigger] self.vert_path_in(s, p)
                &&& p.len() > 0
                &&& p[0] == b
                &&& p[p.len() - 1] == c
            };
        let q = p1 + p2.subrange(1, p2.len() as int);
        assert(q.len() == p1.len() + p2.len() - 1);
        assert forall|i: int|
            0 <= i < q.len() - 1 implies self.vert_step_in(s, #[trigger] q[i], q[i + 1]) by {
            if i < p1.len() - 1 {
                assert(q[i] == p1[i] && q[i + 1] == p1[i + 1]);
                assert(self.vert_step_in(s, p1[i], p1[i + 1]));
            } else if i == p1.len() - 1 {
                assert(q[i] == b);
                assert(q[i + 1] == p2[1]);
                assert(self.vert_step_in(s, p2[0], p2[1]));
            } else {
                let k = i - p1.len() + 1;
                assert(q[i] == p2[k] && q[i + 1] == p2[k + 1]);
                assert(self.vert_step_in(s, p2[k], p2[k + 1]));
            }
        }
        assert(self.vert_path_in(s, q));
        assert(q[0] == a && q[q.len() - 1] == c);
    }

    proof fn lemma_share_of_common(self, x: EKey, y: EKey, w: VKey)
        requires
            self.edge_touches(x, w),
            self.edge_touches(y, w),
        ensures
            self.edges_share_vert(x, y),
            self.edges_share_vert(y, x),
    {
    }

    /// A vertex chain within `s` from an endpoint of `e1` to an endpoint of
    /// `e2` yields an edge path within `s` from `e1` to `e2`.
    proof fn lemma_edge_conn_of_vert_conn(
        self,
        s: Set<EKey>,
        e1: EKey,
        e2: EKey,
        a: VKey,
        b: VKey,
    )
        requires
            s.contains(e1),
            s.contains(e2),
            self.edge_touches(e1, a),
            self.edge_touches(e2, b),
            self.vert_conn_in(s, a, b),
        ensures
            self.connected_in(s, e1, e2),
    {
        let p = choose|p: Seq<VKey>|
            {
                &&& #[trigger] self.vert_path_in(s, p)
                &&& p.len() > 0
                &&& p[0] == a
                &&& p[p.len() - 1] == b
            };
        let n = p.len() as int;
        let es = Seq::<EKey>::new((n - 1) as nat,
            |i: int|
                choose|e: EKey| #[trigger] s.contains(e) && self.edge_connects(e, p[i], p[i + 1]),
        );
        assert forall|i: int|
            0 <= i < n - 1 implies s.contains(#[trigger] es[i]) && self.edge_connects(
            es[i],
            p[i],
            p[i + 1],
        ) by {
            assert(self.vert_step_in(s, p[i], p[i + 1]));
            let w = choose|e: EKey|
                #[trigger] s.contains(e) && self.edge_connects(e, p[i], p[i + 1]);
            assert(s.contains(w) && self.edge_connects(w, p[i], p[i + 1]));
        }
        let q = seq![e1] + es + seq![e2];
        assert(q.len() == n + 1);
        assert(q[0] == e1 && q[q.len() - 1] == e2);
        assert forall|i: int| 0 <= i < q.len() implies s.contains(#[trigger] q[i]) by {
            if i == 0 {
                assert(q[i] == e1);
            } else if i == q.len() - 1 {
                assert(q[i] == e2);
            } else {
                assert(q[i] == es[i - 1]);
            }
        }
        assert forall|i: int|
            0 <= i < q.len() - 1 implies self.edges_share_vert(#[trigger] q[i], q[i + 1]) by {
            if i == 0 {
                if n == 1 {
                    assert(q[1] == e2);
                    assert(a == b);
                    self.lemma_share_of_common(e1, e2, a);
                } else {
                    assert(q[1] == es[0]);
                    assert(self.edge_connects(es[0], p[0], p[1]));
                    assert(self.edge_touches(es[0], a));
                    self.lemma_share_of_common(e1, es[0], a);
                }
            } else if i == q.len() - 2 {
                assert(q[i] == es[n - 2] && q[i + 1] == e2);
                assert(self.edge_connects(es[n - 2], p[n - 2], p[n - 1]));
                assert(self.edge_touches(es[n - 2], b));
                self.lemma_share_of_common(es[n - 2], e2, b);
            } else {
                assert(q[i] == es[i - 1] && q[i + 1] == es[i]);
                assert(self.edge_connects(es[i - 1], p[i - 1], p[i]));
                assert(self.edge_connects(es[i], p[i], p[i + 1]));
                assert(self.edge_touches(es[i - 1], p[i]));
                assert(self.edge_touches(es[i], p[i]));
                self.lemma_share_of_common(es[i - 1], es[i], p[i]);
            }
        }
        assert(self.edge_path_in(s, q, e1, e2));
    }

    /// Partition an arbitrary collection of edges of the mesh into its
    /// connected components under vertex-sharing adjacency: edges land in the
    /// same group exactly when a path of collected edges joins them through
    /// shared vertices. Group order and order within a group are arbitrary.
    #[verifier::rlimit(100)]
    pub fn separate_connected_edges(&self, input: Vec<EKey>) -> (r: Vec<Vec<EKey>>)
        requires
            self.inv(),
            forall|i: int| 0 <= i < input@.len() ==> self.has_edge(#[trigger] input@[i]),
        ensures
            forall|gi: int|
                0 <= gi < r@.len() ==> (#[trigger] r@[gi])@.len() > 0 && r@[gi]@.no_duplicates(),
            forall|ek: EKey|
                #![trigger input@.contains(ek)]
                (exists|gi: int| 0 <= gi < r@.len() && (#[trigger] r@[gi])@.contains(ek))
                    <==> input@.contains(ek),
            forall|gi: int, gj: int, ek: EKey|
                0 <= gi < r@.len() && 0 <= gj < r@.len() && (#[trigger] r@[gi]@.contains(ek)) && (#[trigger] r@[gj]@.contains(ek)) ==> gi == gj,
            forall|gi: int, gj: int, e1: EKey, e2: EKey|
                0 <= gi < r@.len() && 0 <= gj < r@.len() && gi != gj && (#[trigger] r@[gi]@.contains(e1)) && (#[trigger] r@[gj]@.contains(e2))
                    ==> !self.edges_share_vert(e1, e2),
            forall|gi: int, e1: EKey, e2: EKey|
                0 <= gi < r@.len() && (#[trigger] r@[gi]@.contains(e1)) && (#[trigger] r@[gi]@.contains(e2)) ==> self.connected_in(r@[gi]@.to_set(), e1, e2),
    {
        let mut rem = input;
        let mut groups: Vec<Vec<EKey>> = Vec::new();
        while rem.len() > 0
            invariant
                self.inv(),
                forall|i: int| 0 <= i < input@.len() ==> self.has_edge(#[trigger] input@[i]),
                forall|ek: EKey| #[trigger] rem@.contains(ek) ==> input@.contains(ek),
                forall|gi: int|
                    0 <= gi < groups@.len() ==> (#[trigger] groups@[gi])@.len() > 0
                        && groups@[gi]@.no_duplicates(),
                forall|ek: EKey|
                    #![trigger input@.contains(ek)]
                    #![trigger rem@.contains(ek)]
                    (exists|gi: int|
                        0 <= gi < groups@.len() && (#[trigger] groups@[gi])@.contains(ek)) <==> (
                    input@.contains(ek) && !rem@.contains(ek)),
                forall|gi: int, gj: int, ek: EKey|
                    0 <= gi < groups@.len() && 0 <= gj < groups@.len() && (#[trigger] groups@[gi]@.contains(ek)) && (#[trigger] groups@[gj]@.contains(ek)) ==> gi == gj,
                forall|gi: int, gj: int, e1: EKey, e2: EKey|
                    0 <= gi < groups@.len() && 0 <= gj < groups@.len() && gi != gj && (#[trigger] groups@[gi]@.contains(e1)) && (#[trigger] groups@[gj]@.contains(e2)) ==> !self.edges_share_vert(e1, e2),
                forall|gi: int, e1: EKey, e2: EKey|
                    0 <= gi < groups@.len() && (#[trigger] groups@[gi]@.contains(e1)) && (#[trigger] rem@.contains(e2)) ==> !self.edges_share_vert(e1, e2),
                forall|gi: int, e1: EKey, e2: EKey|
                    0 <= gi < groups@.len() && (#[trigger] groups@[gi]@.contains(e1)) && (#[trigger] groups@[gi]@.contains(e2)) ==> self.connected_in(
                        groups@[gi]@.to_set(),
                        e1,
                        e2,
                    ),
            decreases rem@.len(),
        {
            let ghost rem0 = rem@;
            let seed = rem[0];
            proof {
                assert(rem@.contains(seed));
                assert(input@.contains(seed));
                let ii = choose|ii: int| 0 <= ii < input@.len() && input@[ii] == seed;
                assert(self.has_edge(input@[ii]));
                assert forall|ek: EKey|
                    #[trigger] rem0.contains(ek) implies self.has_edge(ek) && input@.contains(
                    ek,
                ) by {
                    let jj = choose|jj: int| 0 <= jj < input@.len() && input@[jj] == ek;
                    assert(self.has_edge(input@[jj]));
                }
            }
            let e0 = self.get_edge(seed).unwrap();
            let v0 = e0.get_verts()[0];
            proof {
                assert(self.edge_touches(seed, v0));
                assert(self.has_vert(v0));
            }
            let mut stack: Vec<VKey> = Vec::new();
            let mut visited: Vec<VKey> = Vec::new();
            let mut group: Vec<EKey> = Vec::new();
            stack.push(v0);
            proof {
                self.lemma_vert_conn_refl(group@.to_set(), v0);
                assert(stack@[0] == v0);
                assert(stack@.contains(v0));
            }
            while stack.len() > 0
                invariant
                    // stable slices of the mesh invariant
                    forall|vk: VKey, ek: EKey| #[trigger]
                        self.vert_edges(vk).contains(ek) ==> self.edge_touches(ek, vk),
                    forall|ek: EKey| #[trigger]
                        self.has_edge(ek) ==> self.has_vert(self.edge_verts(ek).0)
                            && self.has_vert(self.edge_verts(ek).1),
                    forall|ek: EKey| #[trigger]
                        self.has_edge(ek) ==> self.vert_edges(self.edge_verts(ek).0).contains(ek)
                            && self.vert_edges(self.edge_verts(ek).1).contains(ek),
                    forall|ek: EKey|
                        #[trigger] rem0.contains(ek) ==> self.has_edge(ek) && input@.contains(ek),
                    rem0.contains(seed),
                    self.edge_touches(seed, v0),
                    // consumption bookkeeping
                    forall|ek: EKey| #[trigger] rem@.contains(ek) ==> rem0.contains(ek),
                    forall|ek: EKey|
                        #[trigger] group@.contains(ek) <==> (rem0.contains(ek) && !rem@.contains(
                            ek,
                        )),
                    group@.no_duplicates(),
                    rem@.len() + group@.len() <= rem0.len(),
                    // the frontier and the finished vertices
                    forall|k: int| 0 <= k < stack@.len() ==> self.has_vert(#[trigger] stack@[k]),
                    forall|k: int|
                        0 <= k < visited@.len() ==> self.has_vert(#[trigger] visited@[k]),
                    forall|k: int|
                        0 <= k < stack@.len() ==> self.vert_conn_in(
                            group@.to_set(),
                            v0,
                            #[trigger] stack@[k],
                        ),
                    forall|k: int|
                        0 <= k < visited@.len() ==> self.vert_conn_in(
                            group@.to_set(),
                            v0,
                            #[trigger] visited@[k],
                        ),
                    forall|ek: EKey| #[trigger]
                        group@.contains(ek) ==> self.has_edge(ek) && (visited@.contains(
                            self.edge_verts(ek).0,
                        ) || stack@.contains(self.edge_verts(ek).0)) && (visited@.contains(
                            self.edge_verts(ek).1,
                        ) || stack@.contains(self.edge_verts(ek).1)),
                    forall|w: VKey, ek: EKey|
                        (#[trigger] visited@.contains(w)) && (#[trigger] rem@.contains(ek))
                            ==> !self.edge_touches(ek, w),
                    group@.contains(seed) || (rem@.contains(seed) && stack@.contains(v0)),
                decreases rem@.len(), stack@.len(),
            {
                let ghost stack_h = stack@;
                let ghost rem_h = rem@;
                let v = stack.pop().unwrap();
                proof {
                    assert(v == stack_h[stack_h.len() - 1]);
                    assert(self.has_vert(v));
                    assert(self.vert_conn_in(group@.to_set(), v0, v));
                    assert(forall|k: int|
                        0 <= k < stack@.len() ==> (#[trigger] stack@[k]) == stack_h[k]);
                }
                if !key_vec_contains(&visited, v) {
                    let ghost visited_old = visited@;
                    visited.push(v);
                    proof {
                        lemma_seq_push(visited_old, v);
                    }
                    let vert = self.get_vert(v).unwrap();
                    let ves = vert.get_edges();
                    proof {
                        assert forall|jj: int|
                            0 <= jj < ves@.len() implies self.edge_touches(
                            #[trigger] ves@[jj],
                            v,
                        ) by {
                            assert(self.vert_edges(v).contains(ves@[jj]));
                        }
                        assert forall|w: VKey, ek: EKey|
                            (#[trigger] visited@.contains(w)) && (#[trigger] rem@.contains(ek))
                                && self.edge_touches(ek, w) implies (w == v && exists|jj: int|
                            0 <= jj < ves@.len() && ves@[jj] == ek) by {
                            if w != v {
                                assert(visited_old.contains(w));
                                assert(false);
                            } else {
                                assert(self.has_edge(ek));
                                assert(self.vert_edges(self.edge_verts(ek).0).contains(ek)
                                    && self.vert_edges(self.edge_verts(ek).1).contains(ek));
                                assert(self.vert_edges(v).contains(ek));
                                let jj = choose|jj: int|
                                    0 <= jj < ves@.len() && ves@[jj] == ek;
                                assert(0 <= jj < ves@.len() && ves@[jj] == ek);
                            }
                        }
                        assert forall|ek: EKey| #[trigger]
                            group@.contains(ek) implies self.has_edge(ek) && (visited@.contains(
                            self.edge_verts(ek).0,
                        ) || stack@.contains(self.edge_verts(ek).0)) && (visited@.contains(
                            self.edge_verts(ek).1,
                        ) || stack@.contains(self.edge_verts(ek).1)) by {
                            let w0 = self.edge_verts(ek).0;
                            let w1 = self.edge_verts(ek).1;
                            if !visited_old.contains(w0) && stack_h.contains(w0) {
                                let k = choose|k: int|
                                    0 <= k < stack_h.len() && stack_h[k] == w0;
                                if k < stack_h.len() - 1 {
                                    assert(stack@[k] == w0);
                                } else {
                                    assert(w0 == v);
                                    assert(visited@.contains(v));
                                }
                            }
                            if !visited_old.contains(w1) && stack_h.contains(w1) {
                                let k = choose|k: int|
                                    0 <= k < stack_h.len() && stack_h[k] == w1;
                                if k < stack_h.len() - 1 {
                                    assert(stack@[k] == w1);
                                } else {
                                    assert(w1 == v);
                                    assert(visited@.contains(v));
                                }
                            }
                        }
                        assert forall|k: int|
                            0 <= k < visited@.len() implies self.vert_conn_in(
                            group@.to_set(),
                            v0,
                            #[trigger] visited@[k],
                        ) by {
                            if k < visited_old.len() {
                                assert(visited@[k] == visited_old[k]);
                            } else {
                                assert(visited@[k] == v);
                            }
                        }
                    }
                    let ghost stack_s = stack@;
                    let ghost rem_s = rem@;
                    let ghost group_s = group@;
                    let mut j: usize = 0;
                    while j < ves.len()
                        invariant
                            // stable slices
                            forall|vk: VKey, ek: EKey| #[trigger]
                                self.vert_edges(vk).contains(ek) ==> self.edge_touches(ek, vk),
                            forall|ek: EKey| #[trigger]
                                self.has_edge(ek) ==> self.has_vert(self.edge_verts(ek).0)
                                    && self.has_vert(self.edge_verts(ek).1),
                            forall|ek: EKey| #[trigger]
                                self.has_edge(ek) ==> self.vert_edges(
                                    self.edge_verts(ek).0,
                                ).contains(ek) && self.vert_edges(
                                    self.edge_verts(ek).1,
                                ).contains(ek),
                            forall|ek: EKey|
                                #[trigger] rem0.contains(ek) ==> self.has_edge(ek)
                                    && input@.contains(ek),
                            rem0.contains(seed),
                            self.edge_touches(seed, v0),
                            ves@ == self.vert_edges(v),
                            forall|jj: int|
                                0 <= jj < ves@.len() ==> self.edge_touches(
                                    #[trigger] ves@[jj],
                                    v,
                                ),
                            visited@.contains(v),
                            j <= ves@.len(),
                            // consumption bookkeeping
                            forall|ek: EKey| #[trigger] rem@.contains(ek) ==> rem0.contains(ek),
                            forall|ek: EKey|
                                #[trigger] group@.contains(ek) <==> (rem0.contains(ek)
                                    && !rem@.contains(ek)),
                            group@.no_duplicates(),
                            rem@.len() + group@.len() <= rem0.len(),
                            // the frontier and the finished vertices
                            forall|k: int|
                                0 <= k < stack@.len() ==> self.has_vert(#[trigger] stack@[k]),
                            forall|k: int|
                                0 <= k < visited@.len() ==> self.has_vert(
                                    #[trigger] visited@[k],
                                ),
                            forall|k: int|
                                0 <= k < stack@.len() ==> self.vert_conn_in(
                                    group@.to_set(),
                                    v0,
                                    #[trigger] stack@[k],
                                ),
                            forall|k: int|
                                0 <= k < visited@.len() ==> self.vert_conn_in(
                                    group@.to_set(),
                                    v0,
                                    #[trigger] visited@[k],
                                ),
                            forall|ek: EKey| #[trigger]
                                group@.contains(ek) ==> self.has_edge(ek) && (visited@.contains(
                                    self.edge_verts(ek).0,
                                ) || stack@.contains(self.edge_verts(ek).0)) && (
                                visited@.contains(self.edge_verts(ek).1) || stack@.contains(
                                    self.edge_verts(ek).1,
                                )),
                            forall|w: VKey, ek: EKey|
                                (#[trigger] visited@.contains(w)) && (#[trigger] rem@.contains(
                                    ek,
                                )) && self.edge_touches(ek, w) ==> (w == v && exists|jj: int|
                                    j <= jj < ves@.len() && ves@[jj] == ek),
                            group@.contains(seed) || (rem@.contains(seed) && (stack@.contains(
                                v0,
                            ) || (v == v0 && exists|jj: int|
                                j <= jj < ves@.len() && ves@[jj] == seed))),
                            // termination bookkeeping
                            rem@.len() <= rem_s.len(),
                            stack@.len() + rem@.len() <= stack_s.len() + rem_s.len(),
                            rem@.len() == rem_s.len() ==> stack@ == stack_s && group@
                                == group_s,
                        decreases ves@.len() - j,
                    {
                        let ek = ves[j];
                        if key_vec_contains(&rem, ek) {
                            proof {
                                assert(self.edge_touches(ek, v));
                                assert(self.has_edge(ek));
                            }
                            let e = self.get_edge(ek).unwrap();
                            let other = e.other_vert(v).unwrap();
                            proof {
                                assert(self.edge_connects(ek, v, other));
                                assert(self.has_vert(other));
                            }
                            let ghost stack_old = stack@;
                            let ghost group_old = group@;
                            let ghost rem_old = rem@;
                            stack.push(other);
                            group.push(ek);
                            key_vec_remove_all(&mut rem, ek);
                            proof {
                                lemma_seq_push(stack_old, other);
                                lemma_seq_push(group_old, ek);
                                let gs_old = group_old.to_set();
                                let gs = group@.to_set();
                                assert(forall|y: EKey|
                                    #[trigger] gs_old.contains(y) ==> gs.contains(y));
                                assert(gs.contains(ek));
                                assert(!group_old.contains(ek)) by {
                                    assert(rem_old.contains(ek));
                                }
                                assert(group@.no_duplicates());
                                assert(self.vert_conn_in(gs_old, v0, v));
                                self.lemma_vert_conn_mono(gs_old, gs, v0, v);
                                self.lemma_vert_conn_step(gs, v0, v, other, ek);
                                assert forall|k: int|
                                    0 <= k < stack@.len() implies self.vert_conn_in(
                                    gs,
                                    v0,
                                    #[trigger] stack@[k],
                                ) by {
                                    if k < stack_old.len() {
                                        assert(stack@[k] == stack_old[k]);
                                        assert(self.vert_conn_in(gs_old, v0, stack_old[k]));
                                        self.lemma_vert_conn_mono(
                                            gs_old,
                                            gs,
                                            v0,
                                            stack_old[k],
                                        );
                                    } else {
                                        assert(stack@[k] == other);
                                    }
                                }
                                assert forall|k: int|
                                    0 <= k < visited@.len() implies self.vert_conn_in(
                                    gs,
                                    v0,
                                    #[trigger] visited@[k],
                                ) by {
                                    assert(self.vert_conn_in(gs_old, v0, visited@[k]));
                                    self.lemma_vert_conn_mono(gs_old, gs, v0, visited@[k]);
                                }
                                assert forall|ek2: EKey| #[trigger]
                                    group@.contains(ek2) implies self.has_edge(ek2) && (
                                visited@.contains(self.edge_verts(ek2).0) || stack@.contains(
                                    self.edge_verts(ek2).0,
                                )) && (visited@.contains(self.edge_verts(ek2).1)
                                    || stack@.contains(self.edge_verts(ek2).1)) by {
                                    if ek2 == ek {
                                        assert(visited@.contains(v));
                                        assert(stack@.contains(other));
                                    } else {
                                        assert(group_old.contains(ek2));
                                        if stack_old.contains(self.edge_verts(ek2).0) {
                                            assert(stack@.contains(self.edge_verts(ek2).0));
                                        }
                                        if stack_old.contains(self.edge_verts(ek2).1) {
                                            assert(stack@.contains(self.edge_verts(ek2).1));
                                        }
                                    }
                                }
                                assert forall|w: VKey, ek2: EKey|
                                    (#[trigger] visited@.contains(w)) && (
                                #[trigger] rem@.contains(ek2)) && self.edge_touches(
                                    ek2,
                                    w,
                                ) implies (w == v && exists|jj: int|
                                    j + 1 <= jj < ves@.len() && ves@[jj] == ek2) by {
                                    assert(rem_old.contains(ek2));
                                    let jj = choose|jj: int|
                                        j <= jj < ves@.len() && ves@[jj] == ek2;
                                    if jj == j {
                                        assert(ek2 == ek);
                                        assert(!rem@.contains(ek));
                                        assert(false);
                                    }
                                    assert(j + 1 <= jj < ves@.len() && ves@[jj] == ek2);
                                }
                                if !group@.contains(seed) {
                                    assert(rem@.contains(seed) && seed != ek);
                                    if stack_old.contains(v0) {
                                        assert(stack@.contains(v0));
                                    } else {
                                        assert(v == v0);
                                        let jj = choose|jj: int|
                                            j <= jj < ves@.len() && ves@[jj] == seed;
                                        assert(jj != j);
                                        assert(j + 1 <= jj < ves@.len() && ves@[jj] == seed);
                                    }
                                }
                            }
                        } else {
                            proof {
                                assert forall|w: VKey, ek2: EKey|
                                    (#[trigger] visited@.contains(w)) && (
                                #[trigger] rem@.contains(ek2)) && self.edge_touches(
                                    ek2,
                                    w,
                                ) implies (w == v && exists|jj: int|
                                    j + 1 <= jj < ves@.len() && ves@[jj] == ek2) by {
                                    let jj = choose|jj: int|
                                        j <= jj < ves@.len() && ves@[jj] == ek2;
                                    if jj == j {
                                        assert(ves@[j as int] == ek2);
                                        assert(false);
                                    }
                                    assert(j + 1 <= jj < ves@.len() && ves@[jj] == ek2);
                                }
                                if !group@.contains(seed) && !stack@.contains(v0) && v == v0 {
                                    let jj = choose|jj: int|
                                        j <= jj < ves@.len() && ves@[jj] == seed;
                                    if jj == j {
                                        assert(ves@[j as int] == seed);
                                        assert(!rem@.contains(seed));
                                        assert(false);
                                    }
                                    assert(j + 1 <= jj < ves@.len() && ves@[jj] == seed);
                                }
                            }
                        }
                        j += 1;
                    }
                } else {
                    proof {
                        assert forall|ek: EKey| #[trigger]
                            group@.contains(ek) implies self.has_edge(ek) && (visited@.contains(
                            self.edge_verts(ek).0,
                        ) || stack@.contains(self.edge_verts(ek).0)) && (visited@.contains(
                            self.edge_verts(ek).1,
                        ) || stack@.contains(self.edge_verts(ek).1)) by {
                            let w0 = self.edge_verts(ek).0;
                            let w1 = self.edge_verts(ek).1;
                            if !visited@.contains(w0) && stack_h.contains(w0) {
                                let k = choose|k: int|
                                    0 <= k < stack_h.len() && stack_h[k] == w0;
                                if k < stack_h.len() - 1 {
                                    assert(stack@[k] == w0);
                                } else {
                                    assert(w0 == v);
                                }
                            }
                            if !visited@.contains(w1) && stack_h.contains(w1) {
                                let k = choose|k: int|
                                    0 <= k < stack_h.len() && stack_h[k] == w1;
                                if k < stack_h.len() - 1 {
                                    assert(stack@[k] == w1);
                                } else {
                                    assert(w1 == v);
                                }
                            }
                        }
                        if !group@.contains(seed) {
                            assert(rem@.contains(seed));
                            assert(stack_h.contains(v0));
                            if v == v0 {
                                assert(visited@.contains(v0));
                                assert(!self.edge_touches(seed, v0));
                                assert(false);
                            }
                            let k = choose|k: int|
                                0 <= k < stack_h.len() && stack_h[k] == v0;
                            assert(k < stack_h.len() - 1);
                            assert(stack@[k] == v0);
                            assert(stack@.contains(v0));
                        }
                    }
                }
            }
            // the stack is empty: one component is complete
            let ghost gset = group@.to_set();
            proof {
                assert(group@.contains(seed));
                assert(group@.len() > 0);
                // every endpoint of a group edge is a finished vertex
                assert forall|ek: EKey| #[trigger] group@.contains(ek) implies self.has_edge(ek)
                    && visited@.contains(self.edge_verts(ek).0) && visited@.contains(
                    self.edge_verts(ek).1,
                ) by {
                    assert(!stack@.contains(self.edge_verts(ek).0));
                    assert(!stack@.contains(self.edge_verts(ek).1));
                }
                // separation between the component and what is left
                assert forall|e1: EKey, e2: EKey|
                    #[trigger] group@.contains(e1) && #[trigger] rem@.contains(
                    e2,
                ) implies !self.edges_share_vert(e1, e2) by {
                    if self.edges_share_vert(e1, e2) {
                        if self.edge_touches(e2, self.edge_verts(e1).0) {
                            assert(visited@.contains(self.edge_verts(e1).0));
                            assert(false);
                        } else {
                            assert(self.edge_touches(e2, self.edge_verts(e1).1));
                            assert(visited@.contains(self.edge_verts(e1).1));
                            assert(false);
                        }
                    }
                }
                // connectivity inside the component
                assert forall|e1: EKey, e2: EKey|
                    #[trigger] group@.contains(e1) && #[trigger] group@.contains(
                    e2,
                ) implies self.connected_in(gset, e1, e2) by {
                    let a = self.edge_verts(e1).0;
                    let b = self.edge_verts(e2).0;
                    assert(visited@.contains(a) && visited@.contains(b));
                    assert(self.vert_conn_in(gset, v0, a));
                    assert(self.vert_conn_in(gset, v0, b));
                    self.lemma_vert_conn_sym(gset, v0, a);
                    self.lemma_vert_conn_trans(gset, a, v0, b);
                    assert(self.edge_touches(e1, a));
                    assert(self.edge_touches(e2, b));
                    assert(gset.contains(e1) && gset.contains(e2));
                    self.lemma_edge_conn_of_vert_conn(gset, e1, e2, a, b);
                }
            }
            let ghost groups_old = groups@;
            let ghost group_done = group@;
            groups.push(group);
            proof {
                assert(groups@.len() == groups_old.len() + 1);
                assert(groups@[groups_old.len() as int] == group);
                assert(forall|gi: int|
                    0 <= gi < groups_old.len() ==> (#[trigger] groups@[gi]) == groups_old[gi]);
                assert(rem@.len() < rem0.len()) by {
                    assert(rem@.len() + group_done.len() <= rem0.len());
                }
                assert forall|gi: int|
                    0 <= gi < groups@.len() implies (#[trigger] groups@[gi])@.len() > 0 && (
                groups@[gi])@.no_duplicates() by {
                    if gi < groups_old.len() {
                        assert(groups@[gi] == groups_old[gi]);
                    } else {
                        assert(groups@[gi]@ == group_done);
                    }
                }
                assert forall|gi: int, e1: EKey, e2: EKey|
                    0 <= gi < groups@.len() && (#[trigger] groups@[gi]@.contains(e1)) && (#[trigger] groups@[gi]@.contains(e2)) implies self.connected_in(
                    groups@[gi]@.to_set(),
                    e1,
                    e2,
                ) by {
                    if gi < groups_old.len() {
                        assert(groups@[gi] == groups_old[gi]);
                    } else {
                        assert(groups@[gi]@ == group_done);
                    }
                }
                assert forall|gi: int, e1: EKey, e2: EKey|
                    0 <= gi < groups@.len() && (#[trigger] groups@[gi]@.contains(e1)) && (#[trigger] rem@.contains(e2)) implies !self.edges_share_vert(e1, e2) by {
                    if gi < groups_old.len() {
                        assert(groups@[gi] == groups_old[gi]);
                        assert(rem@.contains(e2) ==> rem0.contains(e2));
                    } else {
                        assert(groups@[gi]@ == group_done);
                    }
                }
                assert forall|ek: EKey|
                    #![trigger input@.contains(ek)]
                    #![trigger rem@.contains(ek)]
                    (exists|gi: int|
                        0 <= gi < groups@.len() && (#[trigger] groups@[gi])@.contains(
                            ek,
                        )) <==> (input@.contains(ek) && !rem@.contains(ek)) by {
                    if exists|gi: int|
                        0 <= gi < groups@.len() && (#[trigger] groups@[gi])@.contains(ek) {
                        let gi = choose|gi: int|
                            0 <= gi < groups@.len() && (#[trigger] groups@[gi])@.contains(ek);
                        if gi < groups_old.len() {
                            assert(groups_old[gi]@.contains(ek));
                            assert(exists|gj: int|
                                0 <= gj < groups_old.len() && (
                                #[trigger] groups_old[gj])@.contains(ek));
                            assert(!rem0.contains(ek) || group_done.contains(ek));
                            assert(!rem@.contains(ek));
                        } else {
                            assert(group_done.contains(ek));
                            assert(rem0.contains(ek) && !rem@.contains(ek));
                        }
                    }
                    if input@.contains(ek) && !rem@.contains(ek) {
                        if rem0.contains(ek) {
                            assert(group_done.contains(ek));
                            assert(groups@[groups_old.len() as int]@.contains(ek));
                        } else {
                            assert(exists|gj: int|
                                0 <= gj < groups_old.len() && (
                                #[trigger] groups_old[gj])@.contains(ek));
                            let gj = choose|gj: int|
                                0 <= gj < groups_old.len() && (
                                #[trigger] groups_old[gj])@.contains(ek);
                            assert(groups@[gj]@.contains(ek));
                        }
                    }
                }
                assert forall|gi: int, gj: int, ek: EKey|
                    0 <= gi < groups@.len() && 0 <= gj < groups@.len() && (#[trigger] groups@[gi]@.contains(ek)) && (#[trigger] groups@[gj]@.contains(ek)) implies gi == gj by {
                    if gi < groups_old.len() && gj == groups_old.len() {
                        assert(groups_old[gi]@.contains(ek));
                        assert(exists|gk: int|
                            0 <= gk < groups_old.len() && (#[trigger] groups_old[gk])@.contains(
                                ek,
                            ));
                        assert(!rem0.contains(ek));
                        assert(group_done.contains(ek));
                        assert(false);
                    }
                    if gj < groups_old.len() && gi == groups_old.len() {
                        assert(groups_old[gj]@.contains(ek));
                        assert(exists|gk: int|
                            0 <= gk < groups_old.len() && (#[trigger] groups_old[gk])@.contains(
                                ek,
                            ));
                        assert(!rem0.contains(ek));
                        assert(group_done.contains(ek));
                        assert(false);
                    }
                }
                assert forall|gi: int, gj: int, e1: EKey, e2: EKey|
                    0 <= gi < groups@.len() && 0 <= gj < groups@.len() && gi != gj && (#[trigger] groups@[gi]@.contains(e1)) && (#[trigger] groups@[gj]@.contains(e2)) implies !self.edges_share_vert(
                    e1,
                    e2,
                ) by {
                    if gi == groups_old.len() {
                        assert(group_done.contains(e1) && groups_old[gj]@.contains(e2));
                        assert(rem0.contains(e1));
                        if self.edges_share_vert(e1, e2) {
                            assert(self.edges_share_vert(e2, e1)) by {
                                if self.edge_touches(e2, self.edge_verts(e1).0) {
                                    self.lemma_share_of_common(
                                        e2,
                                        e1,
                                        self.edge_verts(e1).0,
                                    );
                                } else {
                                    self.lemma_share_of_common(
                                        e2,
                                        e1,
                                        self.edge_verts(e1).1,
                                    );
                                }
                            }
                            assert(false);
                        }
                    } else if gj == groups_old.len() {
                        assert(groups_old[gi]@.contains(e1) && group_done.contains(e2));
                        assert(rem0.contains(e2));
                        assert(!self.edges_share_vert(e1, e2));
                    }
                }
            }
        }
        proof {
            assert forall|ek: EKey| !(#[trigger] rem@.contains(ek)) by {
                if rem@.contains(ek) {
                    let jj = choose|jj: int| 0 <= jj < rem@.len() && rem@[jj] == ek;
                    assert(false);
                }
            }
        }
        groups
    }

    /// The successful creating `add_edge` transition: `ek` is fresh, joins
    /// exactly `(vk0, vk1)` with the given payload and no incident faces, and
    /// both vertices gained it at the end of their incident-edge lists;
    /// everything else is unchanged.
    pub open spec fn add_edge_ok(
        pre: Self,
        post: Self,
        vk0: VKey,
        vk1: VKey,
        edata: EData,
        ek: EKey,
    ) -> bool {
        &&& !pre.has_edge(ek)
        &&& ek@ <= 0xffff_fffeu32
        &&& post.has_edge(ek)
        &&& post.edge_verts(ek) == (vk0, vk1)
        &&& post.edge_data(ek) == edata
        &&& post.edge_faces(ek) == Seq::<FKey>::empty()
        &&& forall|e: EKey| e != ek ==> (#[trigger] post.has_edge(e)) == pre.has_edge(e)
        &&& forall|e: EKey|
            e != ek && pre.has_edge(e) ==> (#[trigger] post.edge_at(e)) == pre.edge_at(e)
        &&& forall|w: VKey| (#[trigger] post.has_vert(w)) == pre.has_vert(w)
        &&& forall|w: VKey|
            pre.has_vert(w) ==> (#[trigger] post.vert_data(w)) == pre.vert_data(w)
        &&& post.vert_edges(vk0) == pre.vert_edges(vk0).push(ek)
        &&& post.vert_edges(vk1) == pre.vert_edges(vk1).push(ek)
        &&& forall|w: VKey|
            w != vk0 && w != vk1 && pre.has_vert(w) ==> (#[trigger] post.vert_at(w))
                == pre.vert_at(w)
        &&& Self::same_faces(pre, post)
    }

    /// What `add_edge` does, by case: self-loops and absent vertices are
    /// rejected without effect; an existing edge between the pair is returned
    /// unchanged (the supplied payload is discarded); otherwise a fresh edge
    /// is created, unless the edge key space is exhausted.
    pub open spec fn add_edge_post(
        pre: Self,
        post: Self,
        vk0: VKey,
        vk1: VKey,
        edata: EData,
        r: Option<EKey>,
    ) -> bool {
        if vk0 == vk1 {
            r.is_none() && post == pre
        } else if !pre.has_vert(vk0) || !pre.has_vert(vk1) {
            r.is_none() && post == pre
        } else if exists|e: EKey| #[trigger] pre.edge_connects(e, vk0, vk1) {
            post == pre && match r {
                Some(ek) => pre.edge_connects(ek, vk0, vk1),
                None => false,
            }
        } else {
            match r {
                Some(ek) => Self::add_edge_ok(pre, post, vk0, vk1, edata, ek) && (forall|w: EKey|
                    w@ <= 0xffff_fffeu32 && !pre.has_edge(w) ==> ek@ <= w@),
                None => post == pre && pre.edge_keys_exhausted(),
            }
        }
    }

    /// Wiring a fresh edge between two distinct, unconnected vertices keeps
    /// the topological invariant.
    proof fn lemma_topo_inv_add_edge(
        pre: Self,
        post: Self,
        vk0: VKey,
        vk1: VKey,
        ekey: EKey,
        nv0: Vert<VData>,
        nv1: Vert<VData>,
        ne: Edge<EData>,
    )
        requires
            pre.topo_inv(),
            vk0 != vk1,
            pre.has_vert(vk0),
            pre.has_vert(vk1),
            forall|e: EKey| !(#[trigger] pre.edge_connects(e, vk0, vk1)),
            !pre.edges@.dom().contains(ekey@),
            ne.spec_verts() == (vk0, vk1),
            ne.spec_faces() == Seq::<FKey>::empty(),
            nv0.spec_edges() == pre.vert_at(vk0).spec_edges().push(ekey),
            nv1.spec_edges() == pre.vert_at(vk1).spec_edges().push(ekey),
            post.verts@ == pre.verts@.insert(vk0@, nv0).insert(vk1@, nv1),
            post.edges@ == pre.edges@.insert(ekey@, ne),
            post.faces@ == pre.faces@,
        ensures
            post.topo_inv(),
    {
        Self::lemma_edge_table_insert(pre, post, ekey@, ne);
        Self::lemma_face_table_unchanged(pre, post);
        lemma_seq_push(pre.vert_edges(vk0), ekey);
        lemma_seq_push(pre.vert_edges(vk1), ekey);
        assert(post.has_edge(ekey) && post.edge_at(ekey) == ne);
        assert(post.vert_edges(vk0) == nv0.spec_edges());
        assert(post.vert_edges(vk1) == nv1.spec_edges());
        assert(forall|w: VKey| (#[trigger] post.has_vert(w)) == pre.has_vert(w));
        assert(forall|w: VKey|
            w != vk0 && w != vk1 ==> (#[trigger] post.vert_at(w)) == pre.vert_at(w));
        assert(forall|w: VKey|
            w != vk0 && w != vk1 ==> (#[trigger] post.vert_edges(w)) == pre.vert_edges(w));
        // the new edge is listed by no vertex of pre
        assert forall|w: VKey| !((#[trigger] pre.vert_edges(w)).contains(ekey)) by {
            if pre.vert_edges(w).contains(ekey) {
                assert(pre.edge_touches(ekey, w));
            }
        }
        assert forall|ek: EKey| #[trigger] post.has_edge(ek) implies {
            &&& post.edge_verts(ek).0 != post.edge_verts(ek).1
            &&& post.has_vert(post.edge_verts(ek).0)
            &&& post.has_vert(post.edge_verts(ek).1)
            &&& post.vert_edges(post.edge_verts(ek).0).contains(ek)
            &&& post.vert_edges(post.edge_verts(ek).1).contains(ek)
        } by {
            if ek == ekey {
                assert(post.edge_verts(ek) == (vk0, vk1));
                assert(post.vert_edges(vk0).contains(ekey));
                assert(post.vert_edges(vk1).contains(ekey));
            } else {
                assert(pre.has_edge(ek));
                let w0 = pre.edge_verts(ek).0;
                let w1 = pre.edge_verts(ek).1;
                assert(post.edge_verts(ek) == pre.edge_verts(ek));
                assert(pre.vert_edges(w0).contains(ek) && pre.vert_edges(w1).contains(ek));
                if w0 == vk0 || w0 == vk1 {
                    assert(post.vert_edges(w0).contains(ek));
                } else {
                    assert(post.vert_edges(w0) == pre.vert_edges(w0));
                }
                if w1 == vk0 || w1 == vk1 {
                    assert(post.vert_edges(w1).contains(ek));
                } else {
                    assert(post.vert_edges(w1) == pre.vert_edges(w1));
                }
            }
        }
        assert forall|vk: VKey, ek: EKey| #[trigger]
            post.vert_edges(vk).contains(ek) implies post.edge_touches(ek, vk) by {
            if vk == vk0 || vk == vk1 {
                if ek == ekey {
                    assert(post.edge_verts(ekey) == (vk0, vk1));
                } else {
                    assert(pre.vert_edges(vk).contains(ek));
                    assert(pre.edge_touches(ek, vk));
                }
            } else {
                assert(pre.vert_edges(vk).contains(ek));
                assert(pre.edge_touches(ek, vk));
                assert(ek != ekey);
            }
        }
        assert forall|vk: VKey| post.has_vert(vk) implies (#[trigger] post.vert_edges(
            vk,
        )).no_duplicates() by {
            if vk == vk0 || vk == vk1 {
                assert(pre.vert_edges(vk).no_duplicates());
                assert(!pre.vert_edges(vk).contains(ekey));
            } else {
                assert(post.vert_edges(vk) == pre.vert_edges(vk));
            }
        }
        assert forall|e1: EKey, e2: EKey|
            post.has_edge(e1) && post.has_edge(e2) && post.edge_connects(
                e2,
                post.edge_verts(e1).0,
                post.edge_verts(e1).1,
            ) implies e1 == e2 by {
            if e1 == ekey && e2 != ekey {
                assert(pre.edge_connects(e2, vk0, vk1));
            } else if e1 != ekey && e2 == ekey {
                assert(post.edge_connects(ekey, post.edge_verts(e1).0, post.edge_verts(e1).1));
                assert(pre.edge_connects(e1, vk0, vk1));
            } else if e1 != ekey && e2 != ekey {
                assert(pre.edge_connects(e2, pre.edge_verts(e1).0, pre.edge_verts(e1).1));
            }
        }
        assert forall|fk: FKey| #[trigger] post.has_face(fk) implies {
            forall|i: int|
                0 <= i < post.face_loops(fk).len() ==> {
                    &&& post.has_vert((#[trigger] post.face_loops(fk)[i]).vert)
                    &&& post.edge_connects(
                        post.face_loops(fk)[i].edge,
                        post.face_loops(fk)[i].vert,
                        post.face_loops(fk)[Self::next_in_walk(
                            i,
                            post.face_loops(fk).len() as int,
                        )].vert,
                    )
                    &&& post.edge_faces(post.face_loops(fk)[i].edge).contains(fk)
                }
        } by {
            assert(pre.has_face(fk));
            assert(post.face_loops(fk) == pre.face_loops(fk));
            assert forall|i: int| 0 <= i < post.face_loops(fk).len() implies {
                &&& post.has_vert((#[trigger] post.face_loops(fk)[i]).vert)
                &&& post.edge_connects(
                    post.face_loops(fk)[i].edge,
                    post.face_loops(fk)[i].vert,
                    post.face_loops(fk)[Self::next_in_walk(
                        i,
                        post.face_loops(fk).len() as int,
                    )].vert,
                )
                &&& post.edge_faces(post.face_loops(fk)[i].edge).contains(fk)
            } by {
                let lp = pre.face_loops(fk)[i];
                let nx = pre.face_loops(fk)[Self::next_in_walk(
                    i,
                    pre.face_loops(fk).len() as int,
                )];
                assert(pre.edge_connects(lp.edge, lp.vert, nx.vert));
                assert(lp.edge != ekey);
                assert(post.edge_faces(lp.edge) == pre.edge_faces(lp.edge));
            }
        }
        assert forall|ek: EKey, fk: FKey| #[trigger]
            post.edge_faces(ek).contains(fk) implies post.has_face(fk) && post.face_uses_edge(
            fk,
            ek,
        ) by {
            if ek == ekey {
                assert(post.edge_faces(ekey) == Seq::<FKey>::empty());
            } else {
                assert(pre.edge_faces(ek).contains(fk));
            }
        }
        assert forall|ek: EKey| post.has_edge(ek) implies (#[trigger] post.edge_faces(
            ek,
        )).no_duplicates() by {
            if ek == ekey {
                assert(post.edge_faces(ekey) == Seq::<FKey>::empty());
            } else {
                assert(post.edge_faces(ek) == pre.edge_faces(ek));
            }
        }
    }

    /// Connect two distinct vertices with a new edge, or return the existing
    /// edge between them (discarding the supplied payload). Rejects self-loops
    /// and absent vertices with no effect; fails with no effect when the edge
    /// key space is exhausted.
    pub fn add_edge(&mut self, vk0: VKey, vk1: VKey, edata: EData) -> (r: Option<EKey>)
        requires
            old(self).inv(),
        ensures
            final(self).inv(),
            Self::add_edge_post(*old(self), *final(self), vk0, vk1, edata, r),
    {
        if vk0 == vk1 {
            return None;
        }
        if self.get_vert(vk0).is_none() || self.get_vert(vk1).is_none() {
            return None;
        }
        if let Some(ek) = self.find_edge(vk0, vk1) {
            return Some(ek);
        }
        match self.edge_range_set.take_any_one() {
            Some(val) => {
                let ekey = EKey::new(val);
                let ghost pre = *old(self);
                proof {
                    assert(!pre.edges@.dom().contains(val));
                }
                let mut v0 = self.verts.remove(&vk0.value()).unwrap();
                proof {
                    assert(!pre.vert_at(vk0).spec_edges().contains(ekey)) by {
                        if pre.vert_edges(vk0).contains(ekey) {
                            assert(pre.edge_touches(ekey, vk0));
                        }
                    }
                }
                v0.push_edge(ekey);
                let ghost nv0 = v0;
                self.verts.insert(vk0.value(), v0);
                let mut v1 = self.verts.remove(&vk1.value()).unwrap();
                proof {
                    assert(pre.verts@.remove(vk0@).insert(vk0@, nv0) =~= pre.verts@.insert(
                        vk0@,
                        nv0,
                    ));
                    assert(v1 == pre.vert_at(vk1));
                    assert(!pre.vert_at(vk1).spec_edges().contains(ekey)) by {
                        if pre.vert_edges(vk1).contains(ekey) {
                            assert(pre.edge_touches(ekey, vk1));
                        }
                    }
                }
                v1.push_edge(ekey);
                let ghost nv1 = v1;
                self.verts.insert(vk1.value(), v1);
                let new_edge = Edge::new(vk0, vk1, edata);
                let ghost ne = new_edge;
                self.edges.insert(val, new_edge);
                proof {
                    let post = *self;
                    assert(pre.verts@.insert(vk0@, nv0).remove(vk1@).insert(vk1@, nv1)
                        =~= pre.verts@.insert(vk0@, nv0).insert(vk1@, nv1));
                    assert(post.verts@ == pre.verts@.insert(vk0@, nv0).insert(vk1@, nv1));
                    assert(post.edges@ == pre.edges@.insert(val, ne));
                    Self::lemma_topo_inv_add_edge(pre, post, vk0, vk1, ekey, nv0, nv1, ne);
                    Self::lemma_edge_table_insert(pre, post, val, ne);
                    Self::lemma_face_table_unchanged(pre, post);
                    lemma_seq_push(pre.vert_edges(vk0), ekey);
                    lemma_seq_push(pre.vert_edges(vk1), ekey);
                    lemma_alloc_take(
                        pre.edges@,
                        post.edges@,
                        pre.edge_range_set,
                        post.edge_range_set,
                        val,
                        ne,
                    );
                    assert(post.vert_edges(vk0) == pre.vert_edges(vk0).push(ekey));
                    assert(post.vert_edges(vk1) == pre.vert_edges(vk1).push(ekey));
                    assert forall|w: VKey| (#[trigger] post.has_vert(w)) == pre.has_vert(w) by {}
                    assert forall|w: VKey|
                        w != vk0 && w != vk1 && pre.has_vert(w) implies (#[trigger] post.vert_at(
                        w,
                    )) == pre.vert_at(w) by {}
                    assert forall|w: VKey| pre.has_vert(w) implies (#[trigger] post.vert_data(w))
                        == pre.vert_data(w) by {
                        if w == vk0 {
                            assert(post.vert_at(vk0) == nv0);
                        } else if w == vk1 {
                            assert(post.vert_at(vk1) == nv1);
                        }
                    }
                    assert forall|e: EKey| e != ekey implies (#[trigger] post.has_edge(e))
                        == pre.has_edge(e) by {
                        assert(e@ != val);
                    }
                    assert forall|e: EKey| e != ekey && pre.has_edge(e) implies (
                    #[trigger] post.edge_at(e)) == pre.edge_at(e) by {
                        assert(e@ != val);
                    }
                    assert forall|w: EKey|
                        w@ <= 0xffff_fffeu32 && !pre.has_edge(w) implies ekey@ <= w@ by {
                        assert(pre.edge_range_set.avail().contains(w@));
                    }
                    assert(Self::add_edge_ok(pre, post, vk0, vk1, edata, ekey));
                }
                Some(ekey)
            },
            None => {
                proof {
                    assert forall|w: EKey| w@ <= 0xffff_fffeu32 implies old(self).has_edge(w) by {
                        assert(!old(self).edge_range_set.avail().contains(w@));
                    }
                }
                None
            },
        }
    }

    /// Some consecutive pair of the cyclic walk repeats a vertex, which would
    /// demand a self-loop edge.
    pub open spec fn walk_pair_degenerate(vs: Seq<VKey>) -> bool {
        exists|i: int|
            0 <= i < vs.len() && (#[trigger] vs[i]) == vs[Self::next_in_walk(i, vs.len() as int)]
    }

    /// Some loop of the sequence rides the edge `e`.
    pub open spec fn loops_use(loops: Seq<Loop>, e: EKey) -> bool {
        exists|j: int| 0 <= j < loops.len() && (#[trigger] loops[j]).edge == e
    }

    /// The successful `add_face` transition: `fk` is fresh and now present
    /// with the given payload; its walk has one loop per input vertex, each
    /// riding an edge to the next vertex, and each such edge lists `fk`.
    /// Vertices and other faces are untouched; pre-existing edges keep their
    /// pair and payload, gaining at most `fk` in their face lists; every edge
    /// created by the call lies on the new face's walk.
    pub open spec fn add_face_ok(
        pre: Self,
        post: Self,
        vs: Seq<VKey>,
        fdata: FData,
        fk: FKey,
    ) -> bool {
        let n = vs.len() as int;
        &&& !pre.has_face(fk)
        &&& fk@ <= 0xffff_fffeu32
        &&& post.has_face(fk)
        &&& post.face_data(fk) == fdata
        &&& post.face_loops(fk).len() == n
        &&& forall|i: int| 0 <= i < n ==> (#[trigger] post.face_loops(fk)[i]).vert == vs[i]
        &&& forall|i: int|
            0 <= i < n ==> post.edge_connects(
                (#[trigger] post.face_loops(fk)[i]).edge,
                vs[i],
                vs[Self::next_in_walk(i, n)],
            )
        &&& forall|i: int|
            0 <= i < n ==> post.edge_faces((#[trigger] post.face_loops(fk)[i]).edge).contains(fk)
        &&& forall|g: FKey| g != fk ==> (#[trigger] post.has_face(g)) == pre.has_face(g)
        &&& forall|g: FKey|
            g != fk && pre.has_face(g) ==> (#[trigger] post.face_at(g)) == pre.face_at(g)
        &&& forall|w: VKey|
            #![trigger post.has_vert(w)]
            #![trigger pre.has_vert(w)]
            post.has_vert(w) == pre.has_vert(w)
        &&& forall|w: VKey|
            (#[trigger] pre.has_vert(w)) ==> post.vert_data(w) == pre.vert_data(w)
        &&& forall|e: EKey| (#[trigger] pre.has_edge(e)) ==> post.has_edge(e)
        &&& forall|e: EKey|
            (#[trigger] pre.has_edge(e)) ==> post.edge_verts(e) == pre.edge_verts(e)
        &&& forall|e: EKey|
            (#[trigger] pre.has_edge(e)) ==> post.edge_data(e) == pre.edge_data(e)
        &&& forall|e: EKey, g: FKey|
            #[trigger] post.edge_faces(e).contains(g) <==> (pre.edge_faces(e).contains(g) || (g
                == fk && post.face_uses_edge(fk, e)))
        &&& forall|e: EKey|
            #[trigger] post.has_edge(e) && !pre.has_edge(e) ==> post.face_uses_edge(fk, e)
    }

    /// What `add_face` does, by case: a walk that repeats a vertex in a
    /// consecutive pair, or that names an absent vertex, is rejected with no
    /// effect. Otherwise the face is created, unless an edge or face key runs
    /// out along the walk; in that failure case the boundary edges created
    /// before the shortage stay in the mesh (creation is best-effort, not
    /// atomic), while vertices and faces are untouched.
    pub open spec fn add_face_post(
        pre: Self,
        post: Self,
        vs: Seq<VKey>,
        fdata: FData,
        r: Option<FKey>,
    ) -> bool {
        if Self::walk_pair_degenerate(vs) {
            r.is_none() && post == pre
        } else if exists|i: int| 0 <= i < vs.len() && !pre.has_vert(#[trigger] vs[i]) {
            r.is_none() && post == pre
        } else {
            match r {
                Some(fk) => Self::add_face_ok(pre, post, vs, fdata, fk) && (forall|w: FKey|
                    w@ <= 0xffff_fffeu32 && !pre.has_face(w) ==> fk@ <= w@),
                None => {
                    &&& post.edge_keys_exhausted() || post.face_keys_exhausted()
                    &&& Self::same_faces(pre, post)
                    &&& forall|w: VKey|
                        #![trigger post.has_vert(w)]
                        #![trigger pre.has_vert(w)]
                        post.has_vert(w) == pre.has_vert(w)
                    &&& forall|w: VKey|
                        (#[trigger] pre.has_vert(w)) ==> post.vert_data(w) == pre.vert_data(w)
                    &&& forall|e: EKey|
                        (#[trigger] pre.has_edge(e)) ==> post.has_edge(e) && post.edge_at(e)
                            == pre.edge_at(e)
                    &&& forall|e: EKey|
                        #[trigger] post.has_edge(e) && !pre.has_edge(e) ==> post.edge_faces(e)
                            == Seq::<FKey>::empty() && (exists|i: int|
                            0 <= i < vs.len() && post.edge_connects(
                                e,
                                #[trigger] vs[i],
                                vs[Self::next_in_walk(i, vs.len() as int)],
                            ))
                },
            }
        }
    }

    /// The state of the mesh part-way through an `add_face` boundary walk:
    /// vertices and faces are as before (up to grown incident-edge lists),
    /// old edges are untouched, and every new edge is a face-less edge of the
    /// walk.
    spec fn add_face_walk_inv(pre: Self, cur: Self, vs: Seq<VKey>) -> bool {
        &&& Self::same_faces(pre, cur)
        &&& forall|w: VKey|
            #![trigger cur.has_vert(w)]
            #![trigger pre.has_vert(w)]
            cur.has_vert(w) == pre.has_vert(w)
        &&& forall|w: VKey|
            (#[trigger] pre.has_vert(w)) ==> cur.vert_data(w) == pre.vert_data(w)
        &&& forall|e: EKey|
            (#[trigger] pre.has_edge(e)) ==> cur.has_edge(e) && cur.edge_at(e) == pre.edge_at(e)
        &&& forall|e: EKey|
            #[trigger] cur.has_edge(e) && !pre.has_edge(e) ==> cur.edge_faces(e)
                == Seq::<FKey>::empty() && (exists|i: int|
                0 <= i < vs.len() && cur.edge_connects(
                    e,
                    #[trigger] vs[i],
                    vs[Self::next_in_walk(i, vs.len() as int)],
                ))
    }

    /// Registering a fresh face whose loops ride existing edges keeps the
    /// topological invariant.
    proof fn lemma_topo_inv_add_face(
        cur: Self,
        post: Self,
        vs: Seq<VKey>,
        loops: Seq<Loop>,
        fkey: FKey,
        nf: Face<FData>,
    )
        requires
            cur.topo_inv(),
            !cur.faces@.dom().contains(fkey@),
            loops.len() == vs.len(),
            forall|j: int| 0 <= j < loops.len() ==> (#[trigger] loops[j]).vert == vs[j],
            forall|j: int|
                0 <= j < loops.len() ==> cur.edge_connects(
                    (#[trigger] loops[j]).edge,
                    vs[j],
                    vs[Self::next_in_walk(j, vs.len() as int)],
                ),
            nf.spec_loops() == loops,
            post.faces@ == cur.faces@.insert(fkey@, nf),
            post.verts@ == cur.verts@,
            forall|e: EKey| (#[trigger] post.has_edge(e)) == cur.has_edge(e),
            forall|e: EKey|
                cur.has_edge(e) ==> (#[trigger] post.edge_verts(e)) == cur.edge_verts(e),
            forall|e: EKey, g: FKey|
                #[trigger] post.edge_faces(e).contains(g) <==> (cur.edge_faces(e).contains(g) || (g
                    == fkey && Self::loops_use(loops, e))),
            forall|e: EKey|
                cur.has_edge(e) ==> (#[trigger] post.edge_faces(e)).no_duplicates(),
        ensures
            post.topo_inv(),
    {
        Self::lemma_vert_table_unchanged(cur, post);
        Self::lemma_face_table_insert(cur, post, fkey@, nf);
        assert(post.has_face(fkey) && post.face_loops(fkey) == loops);
        assert forall|ek: EKey| #[trigger] post.has_edge(ek) implies {
            &&& post.edge_verts(ek).0 != post.edge_verts(ek).1
            &&& post.has_vert(post.edge_verts(ek).0)
            &&& post.has_vert(post.edge_verts(ek).1)
            &&& post.vert_edges(post.edge_verts(ek).0).contains(ek)
            &&& post.vert_edges(post.edge_verts(ek).1).contains(ek)
        } by {
            assert(cur.has_edge(ek));
            assert(post.edge_verts(ek) == cur.edge_verts(ek));
        }
        assert forall|vk: VKey, ek: EKey| #[trigger]
            post.vert_edges(vk).contains(ek) implies post.edge_touches(ek, vk) by {
            assert(cur.vert_edges(vk).contains(ek));
            assert(cur.edge_touches(ek, vk));
        }
        assert forall|vk: VKey| post.has_vert(vk) implies (#[trigger] post.vert_edges(
            vk,
        )).no_duplicates() by {
            assert(post.vert_edges(vk) == cur.vert_edges(vk));
        }
        assert forall|e1: EKey, e2: EKey|
            post.has_edge(e1) && post.has_edge(e2) && post.edge_connects(
                e2,
                post.edge_verts(e1).0,
                post.edge_verts(e1).1,
            ) implies e1 == e2 by {
            assert(cur.edge_connects(e2, cur.edge_verts(e1).0, cur.edge_verts(e1).1));
        }
        assert forall|fk: FKey| #[trigger] post.has_face(fk) implies {
            forall|i: int|
                0 <= i < post.face_loops(fk).len() ==> {
                    &&& post.has_vert((#[trigger] post.face_loops(fk)[i]).vert)
                    &&& post.edge_connects(
                        post.face_loops(fk)[i].edge,
                        post.face_loops(fk)[i].vert,
                        post.face_loops(fk)[Self::next_in_walk(
                            i,
                            post.face_loops(fk).len() as int,
                        )].vert,
                    )
                    &&& post.edge_faces(post.face_loops(fk)[i].edge).contains(fk)
                }
        } by {
            if fk == fkey {
                assert forall|i: int| 0 <= i < post.face_loops(fk).len() implies {
                    &&& post.has_vert((#[trigger] post.face_loops(fk)[i]).vert)
                    &&& post.edge_connects(
                        post.face_loops(fk)[i].edge,
                        post.face_loops(fk)[i].vert,
                        post.face_loops(fk)[Self::next_in_walk(
                            i,
                            post.face_loops(fk).len() as int,
                        )].vert,
                    )
                    &&& post.edge_faces(post.face_loops(fk)[i].edge).contains(fk)
                } by {
                    let n = loops.len() as int;
                    let nx = Self::next_in_walk(i, n);
                    assert(cur.edge_connects(loops[i].edge, vs[i], vs[nx]));
                    assert(loops[i].vert == vs[i] && loops[nx].vert == vs[nx]);
                    assert(cur.has_vert(vs[i])) by {
                        assert(cur.has_vert(cur.edge_verts(loops[i].edge).0));
                        assert(cur.has_vert(cur.edge_verts(loops[i].edge).1));
                    }
                    assert(post.edge_connects(loops[i].edge, vs[i], vs[nx])) by {
                        assert(post.edge_verts(loops[i].edge) == cur.edge_verts(loops[i].edge));
                    }
                    assert(post.edge_faces(loops[i].edge).contains(fkey)) by {
                        assert(Self::loops_use(loops, loops[i].edge));
                    }
                }
            } else {
                assert(cur.has_face(fk));
                assert(post.face_loops(fk) == cur.face_loops(fk));
                assert forall|i: int| 0 <= i < post.face_loops(fk).len() implies {
                    &&& post.has_vert((#[trigger] post.face_loops(fk)[i]).vert)
                    &&& post.edge_connects(
                        post.face_loops(fk)[i].edge,
                        post.face_loops(fk)[i].vert,
                        post.face_loops(fk)[Self::next_in_walk(
                            i,
                            post.face_loops(fk).len() as int,
                        )].vert,
                    )
                    &&& post.edge_faces(post.face_loops(fk)[i].edge).contains(fk)
                } by {
                    let lp = cur.face_loops(fk)[i];
                    let nx = cur.face_loops(fk)[Self::next_in_walk(
                        i,
                        cur.face_loops(fk).len() as int,
                    )];
                    assert(cur.edge_connects(lp.edge, lp.vert, nx.vert));
                    assert(cur.edge_faces(lp.edge).contains(fk));
                    assert(post.edge_verts(lp.edge) == cur.edge_verts(lp.edge));
                }
            }
        }
        assert forall|ek: EKey, fk: FKey| #[trigger]
            post.edge_faces(ek).contains(fk) implies post.has_face(fk) && post.face_uses_edge(
            fk,
            ek,
        ) by {
            if fk == fkey {
                if cur.edge_faces(ek).contains(fkey) {
                    assert(cur.has_face(fkey));
                    assert(false);
                }
                assert(Self::loops_use(loops, ek));
                let j = choose|j: int| 0 <= j < loops.len() && (#[trigger] loops[j]).edge == ek;
                assert(post.face_loops(fkey)[j].edge == ek);
            } else {
                assert(cur.edge_faces(ek).contains(fk));
                assert(cur.has_face(fk) && cur.face_uses_edge(fk, ek));
                assert(post.face_loops(fk) == cur.face_loops(fk));
                let j = choose|j: int|
                    0 <= j < cur.face_loops(fk).len() && (#[trigger] cur.face_loops(fk)[j]).edge
                        == ek;
                assert(post.face_loops(fk)[j].edge == ek);
            }
        }
        assert forall|ek: EKey| post.has_edge(ek) implies (#[trigger] post.edge_faces(
            ek,
        )).no_duplicates() by {
            assert(cur.has_edge(ek));
        }
    }

    /// Close the given cyclic vertex walk into a face: each consecutive pair
    /// is connected through `add_edge` (reusing existing edges, cloning the
    /// supplied edge payload for newly created ones), one loop is built per
    /// step, and a fresh face key is registered with every edge of the walk.
    ///
    /// A walk that repeats a vertex in a consecutive pair, or that names an
    /// absent vertex, is rejected before anything is created. If a key space
    /// runs out part-way through the walk, the call fails but the boundary
    /// edges already created stay in the mesh: face creation is best-effort,
    /// not atomic.

    /// One step of the boundary walk: a successful `add_edge` for the pair at
    /// position `i` keeps the walk state and yields a connecting edge.
    proof fn lemma_add_face_walk_step(
        pre: Self,
        cur: Self,
        now: Self,
        vs: Seq<VKey>,
        i: int,
        ed: EData,
        ek: EKey,
    )
        requires
            Self::add_face_walk_inv(pre, cur, vs),
            0 <= i < vs.len(),
            Self::add_edge_post(
                cur,
                now,
                vs[i],
                vs[Self::next_in_walk(i, vs.len() as int)],
                ed,
                Some(ek),
            ),
            vs[i] != vs[Self::next_in_walk(i, vs.len() as int)],
            cur.has_vert(vs[i]),
            cur.has_vert(vs[Self::next_in_walk(i, vs.len() as int)]),
        ensures
            Self::add_face_walk_inv(pre, now, vs),
            now.edge_connects(ek, vs[i], vs[Self::next_in_walk(i, vs.len() as int)]),
            forall|e: EKey|
                cur.has_edge(e) ==> now.has_edge(e) && (#[trigger] now.edge_at(e)) == cur.edge_at(
                    e,
                ),
    {
        let vk0 = vs[i];
        let vk1 = vs[Self::next_in_walk(i, vs.len() as int)];
        if exists|e: EKey| #[trigger] cur.edge_connects(e, vk0, vk1) {
            assert(now == cur);
            assert(now.edge_connects(ek, vk0, vk1));
        } else {
            assert(Self::add_edge_ok(cur, now, vk0, vk1, ed, ek));
            assert(now.edge_connects(ek, vk0, vk1)) by {
                assert(now.has_edge(ek) && now.edge_verts(ek) == (vk0, vk1));
            }
            assert forall|e: EKey|
                cur.has_edge(e) implies now.has_edge(e) && (#[trigger] now.edge_at(e))
                    == cur.edge_at(e) by {
                assert(e != ek);
            }
            assert forall|e: EKey|
                pre.has_edge(e) implies now.has_edge(e) && (#[trigger] now.edge_at(e))
                    == pre.edge_at(e) by {
                assert(cur.has_edge(e) && cur.edge_at(e) == pre.edge_at(e));
                assert(e != ek);
            }
            assert forall|e: EKey|
                #[trigger] now.has_edge(e) && !pre.has_edge(e) implies now.edge_faces(e)
                    == Seq::<FKey>::empty() && (exists|j: int|
                    0 <= j < vs.len() && now.edge_connects(
                        e,
                        #[trigger] vs[j],
                        vs[Self::next_in_walk(j, vs.len() as int)],
                    )) by {
                if e == ek {
                    assert(now.edge_faces(ek) == Seq::<FKey>::empty());
                    assert(now.edge_connects(e, vs[i], vs[Self::next_in_walk(
                        i,
                        vs.len() as int,
                    )]));
                } else {
                    assert(cur.has_edge(e));
                    assert(cur.edge_faces(e) == Seq::<FKey>::empty());
                    assert(now.edge_at(e) == cur.edge_at(e));
                    let j = choose|j: int|
                        0 <= j < vs.len() && cur.edge_connects(
                            e,
                            #[trigger] vs[j],
                            vs[Self::next_in_walk(j, vs.len() as int)],
                        );
                    assert(now.edge_connects(e, vs[j], vs[Self::next_in_walk(
                        j,
                        vs.len() as int,
                    )]));
                }
            }
            assert forall|w: VKey|
                pre.has_vert(w) implies (#[trigger] now.vert_data(w)) == pre.vert_data(w) by {
                assert(cur.vert_data(w) == pre.vert_data(w));
            }
            assert(Self::same_faces(pre, now)) by {
                assert forall|g: FKey| (#[trigger] now.has_face(g)) == pre.has_face(g) by {
                    assert(now.has_face(g) == cur.has_face(g));
                }
                assert forall|g: FKey|
                    pre.has_face(g) implies (#[trigger] now.face_at(g)) == pre.face_at(g) by {
                    assert(cur.has_face(g));
                    assert(now.face_at(g) == cur.face_at(g));
                }
            }
        }
    }

    /// A walk cut short by key exhaustion leaves the mesh in the documented
    /// failure state.
    proof fn lemma_add_face_fail(pre: Self, now: Self, vs: Seq<VKey>, fdata: FData)
        requires
            Self::add_face_walk_inv(pre, now, vs),
            now.edge_keys_exhausted() || now.face_keys_exhausted(),
            !Self::walk_pair_degenerate(vs),
            forall|j: int| 0 <= j < vs.len() ==> pre.has_vert(#[trigger] vs[j]),
        ensures
            Self::add_face_post(pre, now, vs, fdata, None::<FKey>),
    {
        assert(forall|j: int| 0 <= j < vs.len() ==> pre.has_vert(#[trigger] vs[j]));
    }

    /// Folding the registered walk into the final face: the topological
    /// invariant holds and the whole `add_face` transition is as promised.
    proof fn lemma_add_face_finish(
        pre: Self,
        cur: Self,
        post: Self,
        vs: Seq<VKey>,
        loops: Seq<Loop>,
        fkey: FKey,
        fdata: FData,
        nf: Face<FData>,
    )
        requires
            cur.topo_inv(),
            Self::add_face_walk_inv(pre, cur, vs),
            !cur.faces@.dom().contains(fkey@),
            fkey@ <= 0xffff_fffeu32,
            loops.len() == vs.len(),
            forall|k: int| 0 <= k < loops.len() ==> (#[trigger] loops[k]).vert == vs[k],
            forall|k: int|
                0 <= k < loops.len() ==> cur.edge_connects(
                    (#[trigger] loops[k]).edge,
                    vs[k],
                    vs[Self::next_in_walk(k, vs.len() as int)],
                ),
            nf.spec_loops() == loops,
            nf.fdata == fdata,
            post.faces@ == cur.faces@.insert(fkey@, nf),
            post.verts@ == cur.verts@,
            forall|e: EKey| (#[trigger] post.has_edge(e)) == cur.has_edge(e),
            forall|e: EKey|
                cur.has_edge(e) ==> (#[trigger] post.edge_verts(e)) == cur.edge_verts(e),
            forall|e: EKey|
                cur.has_edge(e) ==> (#[trigger] post.edge_data(e)) == cur.edge_data(e),
            forall|e: EKey, g: FKey|
                #[trigger] post.edge_faces(e).contains(g) <==> (cur.edge_faces(e).contains(g) || (
                g == fkey && Self::loops_use(loops, e))),
            forall|e: EKey|
                cur.has_edge(e) ==> (#[trigger] post.edge_faces(e)).no_duplicates(),
        ensures
            post.topo_inv(),
            Self::add_face_ok(pre, post, vs, fdata, fkey),
    {
        Self::lemma_topo_inv_add_face(cur, post, vs, loops, fkey, nf);
        Self::lemma_face_table_insert(cur, post, fkey@, nf);
        assert(post.face_loops(fkey) == loops);
        assert(!pre.has_face(fkey)) by {
            assert(pre.has_face(fkey) == cur.has_face(fkey));
        }
        assert(post.face_data(fkey) == fdata);
        assert forall|k: int|
            0 <= k < loops.len() implies post.edge_connects(
            (#[trigger] post.face_loops(fkey)[k]).edge,
            vs[k],
            vs[Self::next_in_walk(k, loops.len() as int)],
        ) by {
            let ke = loops[k].edge;
            assert(cur.edge_connects(ke, vs[k], vs[Self::next_in_walk(k, vs.len() as int)]));
            assert(post.edge_verts(ke) == cur.edge_verts(ke));
        }
        assert forall|k: int|
            0 <= k < loops.len() implies post.edge_faces(
            (#[trigger] post.face_loops(fkey)[k]).edge,
        ).contains(fkey) by {
            assert(Self::loops_use(loops, loops[k].edge));
        }
        assert forall|g: FKey| g != fkey implies (#[trigger] post.has_face(g)) == pre.has_face(
            g,
        ) by {
            assert(post.has_face(g) == cur.has_face(g));
            assert(cur.has_face(g) == pre.has_face(g));
        }
        assert forall|g: FKey|
            g != fkey && pre.has_face(g) implies (#[trigger] post.face_at(g)) == pre.face_at(
            g,
        ) by {
            assert(cur.has_face(g) == pre.has_face(g));
            assert(post.face_at(g) == cur.face_at(g));
            assert(cur.face_at(g) == pre.face_at(g));
        }
        assert forall|w: VKey| (#[trigger] post.has_vert(w)) == pre.has_vert(w) by {
            assert(post.has_vert(w) == cur.has_vert(w));
        }
        assert forall|w: VKey|
            pre.has_vert(w) implies (#[trigger] post.vert_data(w)) == pre.vert_data(w) by {
            assert(post.vert_data(w) == cur.vert_data(w));
            assert(cur.vert_data(w) == pre.vert_data(w));
        }
        assert forall|e: EKey| pre.has_edge(e) implies #[trigger] post.has_edge(e) by {
            assert(cur.has_edge(e));
        }
        assert forall|e: EKey|
            pre.has_edge(e) implies (#[trigger] post.edge_verts(e)) == pre.edge_verts(e) by {
            assert(cur.has_edge(e) && cur.edge_at(e) == pre.edge_at(e));
        }
        assert forall|e: EKey|
            pre.has_edge(e) implies (#[trigger] post.edge_data(e)) == pre.edge_data(e) by {
            assert(cur.has_edge(e) && cur.edge_at(e) == pre.edge_at(e));
        }
        assert forall|e: EKey, g: FKey|
            #[trigger] post.edge_faces(e).contains(g) <==> (pre.edge_faces(e).contains(g) || (g
                == fkey && post.face_uses_edge(fkey, e))) by {
            assert(cur.edge_faces(e).contains(g) == pre.edge_faces(e).contains(g)) by {
                if pre.has_edge(e) {
                    assert(cur.edge_at(e) == pre.edge_at(e));
                    assert(cur.has_edge(e));
                } else if cur.has_edge(e) {
                    assert(cur.edge_faces(e) == Seq::<FKey>::empty());
                    assert(pre.edge_faces(e) == Seq::<FKey>::empty());
                } else {
                    assert(cur.edge_faces(e) == Seq::<FKey>::empty());
                    assert(pre.edge_faces(e) == Seq::<FKey>::empty());
                }
            }
            assert(Self::loops_use(loops, e) == post.face_uses_edge(fkey, e)) by {
                if Self::loops_use(loops, e) {
                    let k = choose|k: int|
                        0 <= k < loops.len() && (#[trigger] loops[k]).edge == e;
                    assert(post.face_loops(fkey)[k].edge == e);
                }
                if post.face_uses_edge(fkey, e) {
                    let k = choose|k: int|
                        0 <= k < post.face_loops(fkey).len() && (#[trigger] post.face_loops(
                            fkey,
                        )[k]).edge == e;
                    assert(loops[k].edge == e);
                }
            }
        }
        assert forall|e: EKey|
            #[trigger] post.has_edge(e) && !pre.has_edge(e) implies post.face_uses_edge(
            fkey,
            e,
        ) by {
            assert(cur.has_edge(e));
            let k = choose|k: int|
                0 <= k < vs.len() && cur.edge_connects(
                    e,
                    #[trigger] vs[k],
                    vs[Self::next_in_walk(k, vs.len() as int)],
                );
            let ke = loops[k].edge;
            assert(cur.edge_connects(ke, vs[k], vs[Self::next_in_walk(k, vs.len() as int)]));
            assert(cur.has_edge(e) && cur.has_edge(ke));
            assert(cur.edge_connects(ke, cur.edge_verts(e).0, cur.edge_verts(e).1));
            assert(e == ke);
            assert(Self::loops_use(loops, e));
            assert(post.face_loops(fkey)[k].edge == e);
        }
        assert(Self::add_face_ok(pre, post, vs, fdata, fkey));
    }

    /// Close the given cyclic vertex walk into a face: each consecutive pair
    /// is connected through `add_edge` (reusing existing edges, cloning the
    /// supplied edge payload for newly created ones), one loop is built per
    /// step, and a fresh face key is registered with every edge of the walk.
    ///
    /// A walk that repeats a vertex in a consecutive pair, or that names an
    /// absent vertex, is rejected before anything is created. If a key space
    /// runs out part-way through the walk, the call fails but the boundary
    /// edges already created stay in the mesh: face creation is best-effort,
    /// not atomic.
    pub fn add_face(&mut self, vk: &[VKey], edata: EData, fdata: FData) -> (r: Option<FKey>)
        requires
            old(self).inv(),
        ensures
            final(self).inv(),
            Self::add_face_post(*old(self), *final(self), vk@, fdata, r),
    {
        let n = vk.len();
        let mut i: usize = 0;
        while i < n
            invariant
                *self == *old(self),
                old(self).inv(),
                n == vk@.len(),
                forall|j: int|
                    0 <= j < i ==> (#[trigger] vk@[j]) != vk@[Self::next_in_walk(j, n as int)]
                        && old(self).has_vert(vk@[j]),
            decreases n - i,
        {
            let vnext = vk[if i < n - 1 {
                i + 1
            } else {
                0
            }];
            if vk[i] == vnext {
                proof {
                    assert(vk@[i as int] == vk@[Self::next_in_walk(i as int, n as int)]);
                    assert(Self::walk_pair_degenerate(vk@));
                }
                return None;
            }
            if self.get_vert(vk[i]).is_none() {
                proof {
                    assert(!old(self).has_vert(vk@[i as int]));
                }
                return None;
            }
            i += 1;
        }
        proof {
            assert(!Self::walk_pair_degenerate(vk@));
            assert(forall|j: int| 0 <= j < n ==> old(self).has_vert(#[trigger] vk@[j]));
        }
        let ghost pre = *old(self);
        let mut loops: Vec<Loop> = Vec::with_capacity(n);
        let mut i: usize = 0;
        while i < n
            invariant
                self.inv(),
                pre.inv(),
                pre == *old(self),
                n == vk@.len(),
                !Self::walk_pair_degenerate(vk@),
                forall|j: int|
                    0 <= j < n ==> (#[trigger] vk@[j]) != vk@[Self::next_in_walk(j, n as int)],
                forall|j: int| 0 <= j < n ==> pre.has_vert(#[trigger] vk@[j]),
                Self::add_face_walk_inv(pre, *self, vk@),
                loops@.len() == i,
                i <= n,
                forall|j: int| 0 <= j < i ==> (#[trigger] loops@[j]).vert == vk@[j],
                forall|j: int|
                    0 <= j < i ==> self.edge_connects(
                        (#[trigger] loops@[j]).edge,
                        vk@[j],
                        vk@[Self::next_in_walk(j, n as int)],
                    ),
            decreases n - i,
        {
            let ghost cur = *self;
            let vk0 = vk[i];
            let vk1 = vk[if i < n - 1 {
                i + 1
            } else {
                0
            }];
            proof {
                assert(vk@[Self::next_in_walk(i as int, n as int)] == vk1);
                assert(vk0 != vk1);
                assert(cur.has_vert(vk0) && cur.has_vert(vk1));
            }
            let boundary_edata = edata.clone();
            let ghost ed = boundary_edata;
            match self.add_edge(vk0, vk1, boundary_edata) {
                Some(ek) => {
                    loops.push(Loop { vert: vk0, edge: ek });
                    proof {
                        let now = *self;
                        Self::lemma_add_face_walk_step(pre, cur, now, vk@, i as int, ed, ek);
                        assert forall|j: int|
                            0 <= j < i + 1 implies now.edge_connects(
                            (#[trigger] loops@[j]).edge,
                            vk@[j],
                            vk@[Self::next_in_walk(j, n as int)],
                        ) by {
                            if j < i {
                                let je = loops@[j].edge;
                                assert(cur.edge_connects(
                                    je,
                                    vk@[j],
                                    vk@[Self::next_in_walk(j, n as int)],
                                ));
                                assert(cur.has_edge(je));
                                assert(now.has_edge(je) && now.edge_at(je) == cur.edge_at(je));
                            } else {
                                assert(loops@[j] == Loop { vert: vk0, edge: ek });
                            }
                        }
                    }
                },
                None => {
                    proof {
                        let now = *self;
                        assert(now == cur && cur.edge_keys_exhausted());
                        Self::lemma_add_face_fail(pre, now, vk@, fdata);
                    }
                    return None;
                },
            }
            i += 1;
        }
        let ghost cur = *self;
        match self.face_range_set.take_any_one() {
            Some(fval) => {
                let fkey = FKey::new(fval);
                let ghost rs_taken = self.face_range_set;
                let ghost loops_walk = loops@;
                proof {
                    assert(!cur.faces@.dom().contains(fval));
                    assert(!cur.has_face(fkey));
                    assert(loops_walk.subrange(0, 0) =~= Seq::<Loop>::empty());
                    assert forall|e: EKey|
                        cur.has_edge(e) implies (#[trigger] self.edge_faces(
                        e,
                    )).no_duplicates() by {
                        assert(self.edge_faces(e) == cur.edge_faces(e));
                    }
                }
                let mut j: usize = 0;
                while j < loops.len()
                    invariant
                        cur.inv(),
                        fkey@ == fval,
                        loops@ == loops_walk,
                        loops_walk.len() == n,
                        n == vk@.len(),
                        forall|k: int|
                            0 <= k < loops_walk.len() ==> (#[trigger] loops_walk[k]).vert
                                == vk@[k],
                        forall|k: int|
                            0 <= k < loops_walk.len() ==> cur.edge_connects(
                                (#[trigger] loops_walk[k]).edge,
                                vk@[k],
                                vk@[Self::next_in_walk(k, n as int)],
                            ),
                        j <= loops_walk.len(),
                        self.verts@ == cur.verts@,
                        self.faces@ == cur.faces@,
                        self.vert_range_set == cur.vert_range_set,
                        self.edge_range_set == cur.edge_range_set,
                        self.face_range_set == rs_taken,
                        self.edges@.dom() == cur.edges@.dom(),
                        forall|e: EKey| (#[trigger] self.has_edge(e)) == cur.has_edge(e),
                        forall|e: EKey|
                            cur.has_edge(e) ==> (#[trigger] self.edge_verts(e)) == cur.edge_verts(
                                e,
                            ),
                        forall|e: EKey|
                            cur.has_edge(e) ==> (#[trigger] self.edge_data(e)) == cur.edge_data(
                                e,
                            ),
                        forall|e: EKey, g: FKey|
                            #[trigger] self.edge_faces(e).contains(g) <==> (cur.edge_faces(
                                e,
                            ).contains(g) || (g == fkey && Self::loops_use(
                                loops_walk.subrange(0, j as int),
                                e,
                            ))),
                        forall|e: EKey|
                            cur.has_edge(e) ==> (#[trigger] self.edge_faces(
                                e,
                            )).no_duplicates(),
                    decreases loops_walk.len() - j,
                {
                    let ghost mid = *self;
                    let ek = loops[j].edge;
                    proof {
                        assert(cur.edge_connects(
                            loops_walk[j as int].edge,
                            vk@[j as int],
                            vk@[Self::next_in_walk(j as int, n as int)],
                        ));
                        assert(cur.has_edge(ek));
                        assert(mid.has_edge(ek));
                    }
                    let mut e = self.edges.remove(&ek.value()).unwrap();
                    let ghost e_before = e;
                    e.push_face(fkey);
                    let ghost e_after = e;
                    self.edges.insert(ek.value(), e);
                    proof {
                        let now = *self;
                        assert(e_before == mid.edge_at(ek));
                        assert(mid.edges@.remove(ek@).insert(ek@, e_after) =~= mid.edges@.insert(
                            ek@,
                            e_after,
                        ));
                        assert(now.edges@ == mid.edges@.insert(ek@, e_after));
                        assert(now.edges@.dom() =~= mid.edges@.dom());
                        Self::lemma_edge_table_insert(mid, now, ek@, e_after);
                        lemma_seq_push(mid.edge_faces(ek), fkey);
                        assert forall|e2: EKey, g: FKey|
                            #[trigger] now.edge_faces(e2).contains(g) <==> (cur.edge_faces(
                                e2,
                            ).contains(g) || (g == fkey && Self::loops_use(
                                loops_walk.subrange(0, j + 1),
                                e2,
                            ))) by {
                            if e2 == ek {
                                assert(now.edge_at(ek) == e_after);
                                if mid.edge_faces(ek).contains(fkey) {
                                    assert(e_after == e_before);
                                } else {
                                    assert(e_after.spec_faces() == mid.edge_faces(ek).push(
                                        fkey,
                                    ));
                                }
                                assert(Self::loops_use(loops_walk.subrange(0, j + 1), ek)) by {
                                    assert(loops_walk.subrange(0, j + 1)[j as int].edge == ek);
                                }
                            } else {
                                assert(now.edge_faces(e2) == mid.edge_faces(e2));
                                assert(Self::loops_use(loops_walk.subrange(0, j + 1), e2)
                                    == Self::loops_use(loops_walk.subrange(0, j as int), e2)) by {
                                    if Self::loops_use(loops_walk.subrange(0, j + 1), e2) {
                                        let k = choose|k: int|
                                            0 <= k < loops_walk.subrange(0, j + 1).len() && (
                                            #[trigger] loops_walk.subrange(0, j + 1)[k]).edge
                                                == e2;
                                        assert(k < j);
                                        assert(loops_walk.subrange(0, j as int)[k].edge == e2);
                                    }
                                    if Self::loops_use(loops_walk.subrange(0, j as int), e2) {
                                        let k = choose|k: int|
                                            0 <= k < loops_walk.subrange(0, j as int).len() && (
                                            #[trigger] loops_walk.subrange(0, j as int)[k]).edge
                                                == e2;
                                        assert(loops_walk.subrange(0, j + 1)[k].edge == e2);
                                    }
                                }
                            }
                        }
                        assert forall|e2: EKey|
                            cur.has_edge(e2) implies (#[trigger] now.edge_faces(
                            e2,
                        )).no_duplicates() by {
                            if e2 == ek {
                                assert(now.edge_at(ek) == e_after);
                                if !mid.edge_faces(ek).contains(fkey) {
                                    assert(e_after.spec_faces() == mid.edge_faces(ek).push(
                                        fkey,
                                    ));
                                    assert(mid.edge_faces(ek).no_duplicates());
                                }
                            } else {
                                assert(now.edge_faces(e2) == mid.edge_faces(e2));
                            }
                        }
                        assert forall|e2: EKey| (#[trigger] now.has_edge(e2)) == cur.has_edge(
                            e2,
                        ) by {
                            if e2 != ek {
                                assert(now.has_edge(e2) == mid.has_edge(e2));
                            }
                        }
                        assert forall|e2: EKey|
                            cur.has_edge(e2) implies (#[trigger] now.edge_verts(e2))
                                == cur.edge_verts(e2) by {
                            if e2 == ek {
                                assert(now.edge_at(ek) == e_after);
                                assert(e_after.spec_verts() == e_before.spec_verts());
                                assert(mid.edge_verts(ek) == cur.edge_verts(ek));
                            } else {
                                assert(now.edge_at(e2) == mid.edge_at(e2));
                                assert(mid.edge_verts(e2) == cur.edge_verts(e2));
                            }
                        }
                        assert forall|e2: EKey|
                            cur.has_edge(e2) implies (#[trigger] now.edge_data(e2))
                                == cur.edge_data(e2) by {
                            if e2 == ek {
                                assert(now.edge_at(ek) == e_after);
                                assert(e_after.edata == e_before.edata);
                                assert(mid.edge_data(ek) == cur.edge_data(ek));
                            } else {
                                assert(now.edge_at(e2) == mid.edge_at(e2));
                                assert(mid.edge_data(e2) == cur.edge_data(e2));
                            }
                        }
                    }
                    j += 1;
                }
                let ghost reg = *self;
                let new_face = Face::new(loops, fdata);
                let ghost nf = new_face;
                self.faces.insert(fval, new_face);
                proof {
                    let post = *self;
                    assert(loops_walk.subrange(0, loops_walk.len() as int) == loops_walk);
                    assert(post.faces@ == cur.faces@.insert(fval, nf));
                    assert(post.verts@ == cur.verts@ && post.edges@ == reg.edges@);
                    Self::lemma_edge_table_unchanged(reg, post);
                    assert forall|e: EKey| (#[trigger] post.has_edge(e)) == cur.has_edge(e) by {
                        assert(post.has_edge(e) == reg.has_edge(e));
                    }
                    assert forall|e: EKey|
                        cur.has_edge(e) implies (#[trigger] post.edge_verts(e)) == cur.edge_verts(
                        e,
                    ) by {
                        assert(post.edge_verts(e) == reg.edge_verts(e));
                    }
                    assert forall|e: EKey|
                        cur.has_edge(e) implies (#[trigger] post.edge_data(e)) == cur.edge_data(
                        e,
                    ) by {
                        assert(post.edge_data(e) == reg.edge_data(e));
                    }
                    assert forall|e: EKey, g: FKey|
                        #[trigger] post.edge_faces(e).contains(g) <==> (cur.edge_faces(
                            e,
                        ).contains(g) || (g == fkey && Self::loops_use(loops_walk, e))) by {
                        assert(post.edge_faces(e) == reg.edge_faces(e));
                        assert(reg.edge_faces(e).contains(g) <==> (cur.edge_faces(e).contains(g)
                            || (g == fkey && Self::loops_use(
                            loops_walk.subrange(0, loops_walk.len() as int),
                            e,
                        ))));
                    }
                    assert forall|e: EKey|
                        cur.has_edge(e) implies (#[trigger] post.edge_faces(
                        e,
                    )).no_duplicates() by {
                        assert(post.edge_faces(e) == reg.edge_faces(e));
                    }
                    assert(fkey@ <= 0xffff_fffeu32);
                    Self::lemma_add_face_finish(
                        pre,
                        cur,
                        post,
                        vk@,
                        loops_walk,
                        fkey,
                        fdata,
                        nf,
                    );
                    Self::lemma_face_table_insert(cur, post, fval, nf);
                    lemma_alloc_take(
                        cur.faces@,
                        post.faces@,
                        cur.face_range_set,
                        post.face_range_set,
                        fval,
                        nf,
                    );
                    assert forall|w: FKey|
                        w@ <= 0xffff_fffeu32 && !pre.has_face(w) implies fkey@ <= w@ by {
                        assert(cur.has_face(w) == pre.has_face(w));
                        assert(cur.face_range_set.avail().contains(w@));
                    }
                    assert(post.edges@.dom() == cur.edges@.dom());
                    lemma_alloc_same_dom(cur.edges@, post.edges@, cur.edge_range_set);
                    assert(post.alloc_inv());
                }
                Some(fkey)
            },
            None => {
                proof {
                    assert forall|w: FKey| w@ <= 0xffff_fffeu32 implies cur.has_face(w) by {
                        assert(!cur.face_range_set.avail().contains(w@));
                    }
                    Self::lemma_add_face_fail(pre, *self, vk@, fdata);
                }
                None
            },
        }
    }
    /// The successful `delete_face` transition: `fk` is gone, every edge has
    /// dropped it from its incident-face list, and nothing else changed.
    pub open spec fn delete_face_ok(pre: Self, post: Self, fk: FKey) -> bool {
        &&& !post.has_face(fk)
        &&& forall|g: FKey| g != fk ==> (#[trigger] post.has_face(g)) == pre.has_face(g)
        &&& forall|g: FKey|
            g != fk && pre.has_face(g) ==> (#[trigger] post.face_at(g)) == pre.face_at(g)
        &&& Self::same_verts(pre, post)
        &&& forall|e: EKey|
            #![trigger post.has_edge(e)]
            #![trigger pre.has_edge(e)]
            post.has_edge(e) == pre.has_edge(e)
        &&& forall|e: EKey|
            (#[trigger] pre.has_edge(e)) ==> post.edge_verts(e) == pre.edge_verts(e)
                && post.edge_data(e) == pre.edge_data(e)
        &&& forall|e: EKey, g: FKey|
            #[trigger] post.edge_faces(e).contains(g) <==> (pre.edge_faces(e).contains(g) && g
                != fk)
    }

    proof fn lemma_face_table_remove(pre: Self, post: Self, val: u32)
        requires
            post.faces@ == pre.faces@.remove(val),
        ensures
            forall|fk: FKey| fk@ != val ==> (#[trigger] post.has_face(fk)) == pre.has_face(fk),
            forall|fk: FKey| fk@ != val ==> (#[trigger] post.face_at(fk)) == pre.face_at(fk),
            forall|fk: FKey|
                fk@ != val ==> (#[trigger] post.face_loops(fk)) == pre.face_loops(fk),
            forall|fk: FKey| fk@ == val ==> !post.has_face(fk),
    {
    }

    /// Detaching a deleted face from every edge that listed it keeps the
    /// topological invariant.
    proof fn lemma_topo_inv_delete_face(pre: Self, post: Self, fk: FKey)
        requires
            pre.topo_inv(),
            pre.has_face(fk),
            post.verts@ == pre.verts@,
            post.faces@ == pre.faces@.remove(fk@),
            forall|e: EKey| (#[trigger] post.has_edge(e)) == pre.has_edge(e),
            forall|e: EKey|
                pre.has_edge(e) ==> (#[trigger] post.edge_verts(e)) == pre.edge_verts(e),
            forall|e: EKey, g: FKey|
                #[trigger] post.edge_faces(e).contains(g) <==> (pre.edge_faces(e).contains(g) && g
                    != fk),
            forall|e: EKey|
                pre.has_edge(e) ==> (#[trigger] post.edge_faces(e)).no_duplicates(),
        ensures
            post.topo_inv(),
    {
        Self::lemma_vert_table_unchanged(pre, post);
        Self::lemma_face_table_remove(pre, post, fk@);
        assert forall|ek: EKey| #[trigger] post.has_edge(ek) implies {
            &&& post.edge_verts(ek).0 != post.edge_verts(ek).1
            &&& post.has_vert(post.edge_verts(ek).0)
            &&& post.has_vert(post.edge_verts(ek).1)
            &&& post.vert_edges(post.edge_verts(ek).0).contains(ek)
            &&& post.vert_edges(post.edge_verts(ek).1).contains(ek)
        } by {
            assert(pre.has_edge(ek));
            assert(post.edge_verts(ek) == pre.edge_verts(ek));
        }
        assert forall|vk: VKey, ek: EKey| #[trigger]
            post.vert_edges(vk).contains(ek) implies post.edge_touches(ek, vk) by {
            assert(pre.vert_edges(vk).contains(ek));
            assert(pre.edge_touches(ek, vk));
        }
        assert forall|vk: VKey| post.has_vert(vk) implies (#[trigger] post.vert_edges(
            vk,
        )).no_duplicates() by {
            assert(post.vert_edges(vk) == pre.vert_edges(vk));
        }
        assert forall|e1: EKey, e2: EKey|
            post.has_edge(e1) && post.has_edge(e2) && post.edge_connects(
                e2,
                post.edge_verts(e1).0,
                post.edge_verts(e1).1,
            ) implies e1 == e2 by {
            assert(pre.edge_connects(e2, pre.edge_verts(e1).0, pre.edge_verts(e1).1));
        }
        assert forall|g: FKey| #[trigger] post.has_face(g) implies {
            forall|i: int|
                0 <= i < post.face_loops(g).len() ==> {
                    &&& post.has_vert((#[trigger] post.face_loops(g)[i]).vert)
                    &&& post.edge_connects(
                        post.face_loops(g)[i].edge,
                        post.face_loops(g)[i].vert,
                        post.face_loops(g)[Self::next_in_walk(
                            i,
                            post.face_loops(g).len() as int,
                        )].vert,
                    )
                    &&& post.edge_faces(post.face_loops(g)[i].edge).contains(g)
                }
        } by {
            assert(g != fk);
            assert(pre.has_face(g));
            assert(post.face_loops(g) == pre.face_loops(g));
            assert forall|i: int| 0 <= i < post.face_loops(g).len() implies {
                &&& post.has_vert((#[trigger] post.face_loops(g)[i]).vert)
                &&& post.edge_connects(
                    post.face_loops(g)[i].edge,
                    post.face_loops(g)[i].vert,
                    post.face_loops(g)[Self::next_in_walk(
                        i,
                        post.face_loops(g).len() as int,
                    )].vert,
                )
                &&& post.edge_faces(post.face_loops(g)[i].edge).contains(g)
            } by {
                let lp = pre.face_loops(g)[i];
                let nx = pre.face_loops(g)[Self::next_in_walk(
                    i,
                    pre.face_loops(g).len() as int,
                )];
                assert(pre.edge_connects(lp.edge, lp.vert, nx.vert));
                assert(pre.edge_faces(lp.edge).contains(g));
                assert(post.edge_verts(lp.edge) == pre.edge_verts(lp.edge));
            }
        }
        assert forall|ek: EKey, g: FKey| #[trigger]
            post.edge_faces(ek).contains(g) implies post.has_face(g) && post.face_uses_edge(
            g,
            ek,
        ) by {
            assert(pre.edge_faces(ek).contains(g) && g != fk);
            assert(pre.has_face(g) && pre.face_uses_edge(g, ek));
            assert(post.face_loops(g) == pre.face_loops(g));
            let i = choose|i: int|
                0 <= i < pre.face_loops(g).len() && (#[trigger] pre.face_loops(g)[i]).edge == ek;
            assert(post.face_loops(g)[i].edge == ek);
        }
        assert forall|ek: EKey| post.has_edge(ek) implies (#[trigger] post.edge_faces(
            ek,
        )).no_duplicates() by {
            assert(pre.has_edge(ek));
        }
    }

    /// One step of detaching a deleted face: stripping `fk` from the edge of
    /// loop `j` extends the processed prefix by one.
    proof fn lemma_detach_step(
        pre: Self,
        mid: Self,
        now: Self,
        walk: Seq<Loop>,
        j: int,
        fk: FKey,
        ek: EKey,
        e_before: Edge<EData>,
        e_after: Edge<EData>,
    )
        requires
            0 <= j < walk.len(),
            ek == walk[j].edge,
            pre.has_edge(ek),
            mid.edges@.dom() == pre.edges@.dom(),
            forall|e: EKey| (#[trigger] mid.has_edge(e)) == pre.has_edge(e),
            forall|e: EKey|
                pre.has_edge(e) ==> (#[trigger] mid.edge_verts(e)) == pre.edge_verts(e),
            forall|e: EKey|
                pre.has_edge(e) ==> (#[trigger] mid.edge_data(e)) == pre.edge_data(e),
            forall|e: EKey, g: FKey|
                #[trigger] mid.edge_faces(e).contains(g) <==> (pre.edge_faces(e).contains(g) && !(
                g == fk && Self::loops_use(walk.subrange(0, j), e))),
            forall|e: EKey|
                pre.has_edge(e) ==> (#[trigger] mid.edge_faces(e)).no_duplicates(),
            e_before == mid.edge_at(ek),
            forall|g: FKey|
                #[trigger] e_after.spec_faces().contains(g) <==> (e_before.spec_faces().contains(
                    g,
                ) && g != fk),
            e_after.spec_faces().no_duplicates(),
            e_after.spec_verts() == e_before.spec_verts(),
            e_after.edata == e_before.edata,
            now.edges@ == mid.edges@.insert(ek@, e_after),
        ensures
            now.edges@.dom() == pre.edges@.dom(),
            forall|e: EKey| (#[trigger] now.has_edge(e)) == pre.has_edge(e),
            forall|e: EKey|
                pre.has_edge(e) ==> (#[trigger] now.edge_verts(e)) == pre.edge_verts(e),
            forall|e: EKey|
                pre.has_edge(e) ==> (#[trigger] now.edge_data(e)) == pre.edge_data(e),
            forall|e: EKey, g: FKey|
                #[trigger] now.edge_faces(e).contains(g) <==> (pre.edge_faces(e).contains(g) && !(
                g == fk && Self::loops_use(walk.subrange(0, j + 1), e))),
            forall|e: EKey|
                pre.has_edge(e) ==> (#[trigger] now.edge_faces(e)).no_duplicates(),
    {
        Self::lemma_edge_table_insert(mid, now, ek@, e_after);
        assert(mid.has_edge(ek));
        assert(now.edges@.dom() =~= mid.edges@.dom());
        assert forall|e2: EKey, g: FKey|
            #[trigger] now.edge_faces(e2).contains(g) <==> (pre.edge_faces(e2).contains(g) && !(g
                == fk && Self::loops_use(walk.subrange(0, j + 1), e2))) by {
            if e2 == ek {
                assert(now.edge_at(ek) == e_after);
                assert(now.edge_faces(ek) == e_after.spec_faces());
                assert(e_before.spec_faces() == mid.edge_faces(ek));
                assert(Self::loops_use(walk.subrange(0, j + 1), ek)) by {
                    assert(walk.subrange(0, j + 1)[j].edge == ek);
                }
            } else {
                assert(now.edge_faces(e2) == mid.edge_faces(e2));
                assert(Self::loops_use(walk.subrange(0, j + 1), e2) == Self::loops_use(
                    walk.subrange(0, j),
                    e2,
                )) by {
                    if Self::loops_use(walk.subrange(0, j + 1), e2) {
                        let k = choose|k: int|
                            0 <= k < walk.subrange(0, j + 1).len() && (#[trigger] walk.subrange(
                                0,
                                j + 1,
                            )[k]).edge == e2;
                        assert(k < j);
                        assert(walk.subrange(0, j)[k].edge == e2);
                    }
                    if Self::loops_use(walk.subrange(0, j), e2) {
                        let k = choose|k: int|
                            0 <= k < walk.subrange(0, j).len() && (#[trigger] walk.subrange(
                                0,
                                j,
                            )[k]).edge == e2;
                        assert(walk.subrange(0, j + 1)[k].edge == e2);
                    }
                }
            }
        }
        assert forall|e2: EKey|
            pre.has_edge(e2) implies (#[trigger] now.edge_faces(e2)).no_duplicates() by {
            if e2 == ek {
                assert(now.edge_at(ek) == e_after);
            } else {
                assert(now.edge_faces(e2) == mid.edge_faces(e2));
            }
        }
        assert forall|e2: EKey| (#[trigger] now.has_edge(e2)) == pre.has_edge(e2) by {
            if e2 != ek {
                assert(now.has_edge(e2) == mid.has_edge(e2));
            }
        }
        assert forall|e2: EKey|
            pre.has_edge(e2) implies (#[trigger] now.edge_verts(e2)) == pre.edge_verts(e2) by {
            if e2 == ek {
                assert(now.edge_at(ek) == e_after);
                assert(mid.edge_verts(ek) == pre.edge_verts(ek));
            } else {
                assert(now.edge_at(e2) == mid.edge_at(e2));
                assert(mid.edge_verts(e2) == pre.edge_verts(e2));
            }
        }
        assert forall|e2: EKey|
            pre.has_edge(e2) implies (#[trigger] now.edge_data(e2)) == pre.edge_data(e2) by {
            if e2 == ek {
                assert(now.edge_at(ek) == e_after);
                assert(mid.edge_data(ek) == pre.edge_data(ek));
            } else {
                assert(now.edge_at(e2) == mid.edge_at(e2));
                assert(mid.edge_data(e2) == pre.edge_data(e2));
            }
        }
    }

    /// Remove the face stored under `fk`: the face entity is dropped, its key
    /// is detached from the incident-face list of every edge its walk rides,
    /// and the key is released for reuse. Deleting an absent face key does
    /// nothing.
    #[verifier::rlimit(100)]
    pub fn delete_face(&mut self, fk: FKey)
        requires
            old(self).inv(),
        ensures
            final(self).inv(),
            !old(self).has_face(fk) ==> *final(self) == *old(self),
            old(self).has_face(fk) ==> Self::delete_face_ok(*old(self), *final(self), fk),
    {
        if self.get_face(fk).is_none() {
            return ;
        }
        let ghost pre = *old(self);
        let face = self.faces.remove(&fk.value()).unwrap();
        proof {
            assert(face == pre.face_at(fk));
        }
        let lps = face.get_loops();
        let ghost walk = pre.face_loops(fk);
        proof {
            assert(walk.subrange(0, 0) =~= Seq::<Loop>::empty());
            assert forall|e: EKey|
                pre.has_edge(e) implies (#[trigger] self.edge_faces(e)).no_duplicates() by {
                assert(self.edge_faces(e) == pre.edge_faces(e));
            }
            assert forall|e: EKey| (#[trigger] self.has_edge(e)) == pre.has_edge(e) by {
                assert(self.edges@ == pre.edges@);
            }
            assert forall|k: int|
                0 <= k < walk.len() implies pre.has_edge((#[trigger] walk[k]).edge) by {
                assert(pre.edge_connects(
                    walk[k].edge,
                    walk[k].vert,
                    walk[Self::next_in_walk(k, walk.len() as int)].vert,
                ));
            }
        }
        let mut j: usize = 0;
        while j < lps.len()
            invariant
                lps@ == walk,
                forall|k: int| 0 <= k < walk.len() ==> pre.has_edge((#[trigger] walk[k]).edge),
                j <= walk.len(),
                self.verts@ == pre.verts@,
                self.faces@ == pre.faces@.remove(fk@),
                self.vert_range_set == pre.vert_range_set,
                self.edge_range_set == pre.edge_range_set,
                self.face_range_set == pre.face_range_set,
                self.edges@.dom() == pre.edges@.dom(),
                forall|e: EKey| (#[trigger] self.has_edge(e)) == pre.has_edge(e),
                forall|e: EKey|
                    pre.has_edge(e) ==> (#[trigger] self.edge_verts(e)) == pre.edge_verts(e),
                forall|e: EKey|
                    pre.has_edge(e) ==> (#[trigger] self.edge_data(e)) == pre.edge_data(e),
                forall|e: EKey, g: FKey|
                    #[trigger] self.edge_faces(e).contains(g) <==> (pre.edge_faces(e).contains(g)
                        && !(g == fk && Self::loops_use(walk.subrange(0, j as int), e))),
                forall|e: EKey|
                    pre.has_edge(e) ==> (#[trigger] self.edge_faces(e)).no_duplicates(),
            decreases walk.len() - j,
        {
            let ghost mid = *self;
            let ek = lps[j].edge;
            proof {
                assert(pre.has_edge(walk[j as int].edge));
                assert(mid.has_edge(ek));
            }
            let mut e = self.edges.remove(&ek.value()).unwrap();
            let ghost e_before = e;
            proof {
                assert(e_before == mid.edge_at(ek));
                assert(e_before.spec_faces() == mid.edge_faces(ek));
                assert(e_before.spec_faces().no_duplicates());
            }
            e.remove_face(fk);
            let ghost e_after = e;
            self.edges.insert(ek.value(), e);
            proof {
                let now = *self;
                assert(mid.edges@.remove(ek@).insert(ek@, e_after) =~= mid.edges@.insert(
                    ek@,
                    e_after,
                ));
                assert(now.edges@ == mid.edges@.insert(ek@, e_after));
                Self::lemma_detach_step(
                    pre,
                    mid,
                    now,
                    walk,
                    j as int,
                    fk,
                    ek,
                    e_before,
                    e_after,
                );
            }
            j += 1;
        }
        let ghost det = *self;
        proof {
            assert(walk.subrange(0, walk.len() as int) == walk);
            assert forall|e: EKey, g: FKey|
                #[trigger] det.edge_faces(e).contains(g) <==> (pre.edge_faces(e).contains(g) && g
                    != fk) by {
                if g == fk && pre.edge_faces(e).contains(fk) {
                    assert(pre.face_uses_edge(fk, e));
                    let k = choose|k: int|
                        0 <= k < pre.face_loops(fk).len() && (#[trigger] pre.face_loops(
                            fk,
                        )[k]).edge == e;
                    assert(walk[k].edge == e);
                    assert(Self::loops_use(walk, e));
                }
            }
            assert(!pre.face_range_set.avail().contains(fk@)) by {
                assert(pre.faces@.dom().contains(fk@));
            }
        }
        self.face_range_set.release_one(fk.value());
        proof {
            let post = *self;
            assert(post.verts@ == pre.verts@ && post.edges@ == det.edges@ && post.faces@
                == det.faces@);
            Self::lemma_edge_table_unchanged(det, post);
            assert forall|e: EKey| (#[trigger] post.has_edge(e)) == pre.has_edge(e) by {
                assert(post.has_edge(e) == det.has_edge(e));
            }
            assert forall|e: EKey|
                pre.has_edge(e) implies (#[trigger] post.edge_verts(e)) == pre.edge_verts(e) by {
                assert(post.edge_verts(e) == det.edge_verts(e));
            }
            assert forall|e: EKey|
                pre.has_edge(e) implies (#[trigger] post.edge_data(e)) == pre.edge_data(e) by {
                assert(post.edge_data(e) == det.edge_data(e));
            }
            assert forall|e: EKey, g: FKey|
                #[trigger] post.edge_faces(e).contains(g) <==> (pre.edge_faces(e).contains(g) && g
                    != fk) by {
                assert(post.edge_faces(e) == det.edge_faces(e));
            }
            assert forall|e: EKey|
                pre.has_edge(e) implies (#[trigger] post.edge_faces(e)).no_duplicates() by {
                assert(post.edge_faces(e) == det.edge_faces(e));
            }
            Self::lemma_topo_inv_delete_face(pre, post, fk);
            Self::lemma_vert_table_unchanged(pre, post);
            Self::lemma_face_table_remove(pre, post, fk@);
            lemma_alloc_release(
                pre.faces@,
                post.faces@,
                pre.face_range_set,
                post.face_range_set,
                fk@,
            );
            assert(post.edges@.dom() == pre.edges@.dom());
            lemma_alloc_same_dom(pre.edges@, post.edges@, pre.edge_range_set);
            assert(post.alloc_inv());
            assert forall|g: FKey| g != fk implies (#[trigger] post.has_face(g)) == pre.has_face(
                g,
            ) by {
                assert(g@ != fk@);
            }
            assert forall|g: FKey|
                g != fk && pre.has_face(g) implies (#[trigger] post.face_at(g)) == pre.face_at(
                g,
            ) by {
                assert(g@ != fk@);
            }
            assert(Self::delete_face_ok(pre, post, fk));
        }
    }
    /// Add a new isolated vertex and return its key; the key returned is the
    /// smallest identifier not naming a present vertex. Fail and return None,
    /// with no effect, only when no vertex key is left.
    pub fn add_vert(&mut self, vdata: VData) -> (r: Option<VKey>)
        requires
            old(self).inv(),
        ensures
            final(self).inv(),
            match r {
                Some(vk) => {
                    &&& Self::add_vert_ok(*old(self), *final(self), vdata, vk)
                    &&& forall|w: VKey|
                        w@ <= 0xffff_fffeu32 && !old(self).has_vert(w) ==> vk@ <= w@
                },
                None => *final(self) == *old(self) && old(self).vert_keys_exhausted(),
            },
    {
        if let Some(val) = self.vert_range_set.take_any_one() {
            let vkey = VKey::new(val);
            let new_vert = Vert::new(vdata);
            let ghost new_vert_g = new_vert;
            self.verts.insert(val, new_vert);
            proof {
                let pre = *old(self);
                let post = *self;
                assert(post.verts@ == pre.verts@.insert(val, new_vert_g));
                assert(!pre.has_vert(vkey));
                Self::lemma_topo_inv_add_isolated_vert(pre, post, val, new_vert_g);
                Self::lemma_vert_table_insert(pre, post, val, new_vert_g);
                Self::lemma_edge_table_unchanged(pre, post);
                Self::lemma_face_table_unchanged(pre, post);
                lemma_alloc_take(
                    pre.verts@,
                    post.verts@,
                    pre.vert_range_set,
                    post.vert_range_set,
                    val,
                    new_vert_g,
                );
                assert(post.vert_edges(vkey) == Seq::<EKey>::empty());
                assert forall|w: VKey| w != vkey implies (#[trigger] post.has_vert(w))
                    == pre.has_vert(w) by {
                    assert(w@ != val);
                }
                assert forall|w: VKey| w != vkey && pre.has_vert(w) implies (
                #[trigger] post.vert_at(w)) == pre.vert_at(w) by {
                    assert(w@ != val);
                }
                assert forall|w: VKey|
                    w@ <= 0xffff_fffeu32 && !pre.has_vert(w) implies vkey@ <= w@ by {
                    assert(pre.vert_range_set.avail().contains(w@));
                }
                assert(Self::add_vert_ok(pre, post, vdata, vkey));
            }
            Some(vkey)
        } else {
            proof {
                assert forall|w: VKey| w@ <= 0xffff_fffeu32 implies old(self).has_vert(w) by {
                    assert(!old(self).vert_range_set.avail().contains(w@));
                }
            }
            None
        }
    }

    /// The successful `add_vert` transition: `vk` is fresh, now present with
    /// the given payload and no incident edges; everything else is unchanged.
    pub open spec fn add_vert_ok(pre: Self, post: Self, vdata: VData, vk: VKey) -> bool {
        &&& !pre.has_vert(vk)
        &&& post.has_vert(vk)
        &&& vk@ <= 0xffff_fffeu32
        &&& post.vert_data(vk) == vdata
        &&& post.vert_edges(vk) == Seq::<EKey>::empty()
        &&& forall|w: VKey| w != vk ==> (#[trigger] post.has_vert(w)) == pre.has_vert(w)
        &&& forall|w: VKey|
            w != vk && pre.has_vert(w) ==> (#[trigger] post.vert_at(w)) == pre.vert_at(w)
        &&& Self::same_edges(pre, post)
        &&& Self::same_faces(pre, post)
    }

    /// Key uniqueness: a vertex key issued by one insertion differs from the
    /// key issued by any later insertion, as long as the first vertex is
    /// still present when the later insertion happens (and no operation of
    /// this store ever removes a vertex).
    pub proof fn lemma_vert_keys_distinct(
        m0: Self,
        m1: Self,
        mid: Self,
        m2: Self,
        d1: VData,
        d2: VData,
        k1: VKey,
        k2: VKey,
    )
        requires
            Self::add_vert_ok(m0, m1, d1, k1),
            forall|w: VKey| #[trigger] m1.has_vert(w) ==> mid.has_vert(w),
            Self::add_vert_ok(mid, m2, d2, k2),
        ensures
            k1 != k2,
    {
        assert(m1.has_vert(k1));
        assert(mid.has_vert(k1));
        assert(!mid.has_vert(k2));
    }

    /// Edge symmetry: after a successful edge creation, both endpoints list
    /// the new edge among their incident edges, and the edge joins the pair
    /// in either order.
    pub proof fn lemma_add_edge_symmetric(
        pre: Self,
        post: Self,
        vk0: VKey,
        vk1: VKey,
        d: EData,
        ek: EKey,
    )
        requires
            Self::add_edge_ok(pre, post, vk0, vk1, d, ek),
        ensures
            post.vert_edges(vk0).contains(ek),
            post.vert_edges(vk1).contains(ek),
            post.edge_connects(ek, vk0, vk1),
            post.edge_connects(ek, vk1, vk0),
    {
        lemma_seq_push(pre.vert_edges(vk0), ek);
        lemma_seq_push(pre.vert_edges(vk1), ek);
    }

    /// At most one edge joins any unordered vertex pair: two present edges
    /// over the same pair are the same edge.
    pub proof fn lemma_edge_unique(m: Self, va: VKey, vb: VKey, e1: EKey, e2: EKey)
        requires
            m.inv(),
            m.edge_connects(e1, va, vb),
            m.edge_connects(e2, va, vb),
        ensures
            e1 == e2,
    {
        assert(m.edge_connects(e2, m.edge_verts(e1).0, m.edge_verts(e1).1));
    }

    /// `find_edge` reports the edge joining a connected pair: any answer that
    /// meets its contract for a pair joined by `ek` is `Some(ek)`.
    pub proof fn lemma_find_edge_finds(
        m: Self,
        vk0: VKey,
        vk1: VKey,
        ek: EKey,
        r: Option<EKey>,
    )
        requires
            m.inv(),
            m.edge_connects(ek, vk0, vk1),
            Self::find_edge_post(m, vk0, vk1, r),
        ensures
            r == Some(ek),
    {
        match r {
            Some(a) => {
                Self::lemma_edge_unique(m, vk0, vk1, a, ek);
            },
            None => {
                assert(false);
            },
        }
    }

    /// `find_edge` is symmetric in its two vertices: any two answers that
    /// meet its contract for the pair in either order are the same answer.
    pub proof fn lemma_find_edge_symmetric(
        m: Self,
        vk0: VKey,
        vk1: VKey,
        r0: Option<EKey>,
        r1: Option<EKey>,
    )
        requires
            m.inv(),
            Self::find_edge_post(m, vk0, vk1, r0),
            Self::find_edge_post(m, vk1, vk0, r1),
        ensures
            r0 == r1,
    {
        match r0 {
            Some(a) => {
                assert(m.edge_connects(a, vk0, vk1));
                assert(m.edge_connects(a, vk1, vk0));
                match r1 {
                    Some(b) => {
                        assert(m.edge_connects(b, vk1, vk0));
                        assert(m.edge_connects(b, m.edge_verts(a).0, m.edge_verts(a).1));
                        assert(a == b);
                    },
                    None => {
                        assert(false);
                    },
                }
            },
            None => {
                match r1 {
                    Some(b) => {
                        assert(m.edge_connects(b, vk1, vk0));
                        assert(m.edge_connects(b, vk0, vk1));
                        assert(false);
                    },
                    None => {
                    },
                }
            },
        }
    }

    /// Idempotent edge creation: a second `add_edge` over a pair already
    /// connected by the first call (in either vertex order) returns the very
    /// same key and leaves the mesh unchanged; the second payload is
    /// discarded.
    pub proof fn lemma_add_edge_idempotent(
        pre: Self,
        mid: Self,
        post: Self,
        vk0: VKey,
        vk1: VKey,
        d1: EData,
        d2: EData,
        ek: EKey,
        r2: Option<EKey>,
    )
        requires
            pre.inv(),
            mid.inv(),
            vk0 != vk1,
            Self::add_edge_post(pre, mid, vk0, vk1, d1, Some(ek)),
            Self::add_edge_post(mid, post, vk1, vk0, d2, r2),
        ensures
            r2 == Some(ek),
            post == mid,
    {
        assert(mid.edge_connects(ek, vk0, vk1)) by {
            if !pre.has_vert(vk0) || !pre.has_vert(vk1) {
                assert(false);
            } else if exists|e: EKey| #[trigger] pre.edge_connects(e, vk0, vk1) {
                assert(mid == pre && pre.edge_connects(ek, vk0, vk1));
            } else {
                assert(Self::add_edge_ok(pre, mid, vk0, vk1, d1, ek));
            }
        }
        assert(mid.edge_connects(ek, vk1, vk0));
        assert(mid.has_vert(vk1) && mid.has_vert(vk0)) by {
            assert(mid.has_vert(mid.edge_verts(ek).0));
            assert(mid.has_vert(mid.edge_verts(ek).1));
        }
        match r2 {
            Some(e2) => {
                assert(mid.edge_connects(e2, vk1, vk0));
                assert(mid.edge_connects(e2, mid.edge_verts(ek).0, mid.edge_verts(ek).1));
                assert(e2 == ek);
            },
            None => {
                assert(false);
            },
        }
    }

    /// Face/edge consistency on a simple walk: a face built over at least
    /// three pairwise distinct vertices rides pairwise distinct loop edges,
    /// and the edge joining a consecutive pair is unique, so the walk touches
    /// exactly one edge per boundary step.
    pub proof fn lemma_face_edges_exact(pre: Self, post: Self, vs: Seq<VKey>, fd: FData, fk: FKey)
        requires
            post.inv(),
            Self::add_face_ok(pre, post, vs, fd, fk),
            vs.no_duplicates(),
            vs.len() >= 3,
        ensures
            forall|i: int, j: int|
                0 <= i < j < vs.len() ==> (#[trigger] post.face_loops(fk)[i]).edge != (
                #[trigger] post.face_loops(fk)[j]).edge,
            forall|i: int, e: EKey|
                0 <= i < vs.len() && (#[trigger] post.edge_connects(
                    e,
                    vs[i],
                    vs[Self::next_in_walk(i, vs.len() as int)],
                )) ==> e == post.face_loops(fk)[i].edge,
    {
        let n = vs.len() as int;
        assert forall|i: int, e: EKey|
            0 <= i < n && (#[trigger] post.edge_connects(
                e,
                vs[i],
                vs[Self::next_in_walk(i, n)],
            )) implies e == post.face_loops(fk)[i].edge by {
            let le = post.face_loops(fk)[i].edge;
            assert(post.edge_connects(le, vs[i], vs[Self::next_in_walk(i, n)]));
            assert(post.edge_connects(e, post.edge_verts(le).0, post.edge_verts(le).1));
        }
        assert forall|i: int, j: int|
            0 <= i < j < n implies (#[trigger] post.face_loops(fk)[i]).edge != (
            #[trigger] post.face_loops(fk)[j]).edge by {
            let ei = post.face_loops(fk)[i].edge;
            let ej = post.face_loops(fk)[j].edge;
            let ni = Self::next_in_walk(i, n);
            let nj = Self::next_in_walk(j, n);
            if ei == ej {
                assert(post.edge_connects(ei, vs[i], vs[ni]));
                assert(post.edge_connects(ej, vs[j], vs[nj]));
                if vs[i] == vs[j] {
                    assert(false);
                } else {
                    assert(vs[i] == vs[nj]);
                    assert(i == nj);
                    assert(j == n - 1 && i == 0);
                    assert(vs[ni] == vs[1]);
                    if vs[ni] == vs[j] {
                        assert(1 == n - 1);
                        assert(false);
                    } else {
                        assert(vs[ni] == vs[nj]);
                        assert(1 == nj);
                        assert(false);
                    }
                }
            }
        }
    }
}

} // verus!

